[package]
name = "lidar_ld19"
version = "0.1.0"
edition = "2021"
publish = false

[dependencies]
serialport = { version = "4", default-features = false }
kdtree = "0.7"
smartcore = { version = "0.3", features = ["serde"] }
bincode = "1"
serde = { version = "1", features = ["derive"] }
log = "0.4"
env_logger = "0.11"
minifb = "0.27"
