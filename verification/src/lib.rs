//! Verified core of an LD19 lidar motion detector: the byte-stream decoder
//! of the sensor's packets, the background model learned during calibration,
//! the density clustering of motion points, and the pixel-buffer primitives
//! of the live view.

use vstd::prelude::*;

pub mod dbscan;
pub mod motion;
pub mod packet;
pub mod port_buffer;
pub mod render;
pub mod reorder;

verus! {

/// One angular unit turn of the sensor: directions are given in hundredths of a degree.
pub const DIR_ROUND: u16 = 36000;

/// One range measurement: `len` in millimetres, `dir` in hundredths of a degree.
#[derive(Debug, Clone, Copy, PartialEq, Eq, Structural)]
pub struct Point {
    pub len: u16,
    pub dir: u16,
}

} // verus!
