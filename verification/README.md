# lidar_ld19

Motion detection with an LD19 spinning lidar, with its core logic formally verified.

- `src/packet.rs` — the 47-byte measurement packet: CRC-8 check, field layout,
  interpolation of the twelve reading directions, confidence floor.
- `src/port_buffer.rs` — reassembly of packets from the serial byte stream, with
  resynchronisation on garbage; laws on chunking, resynchronisation and
  back-to-back packets.
- `src/motion.rs` — sweep detection, calibration of the per-degree background
  (median of at least five samples), what each reading is compared with, and
  the motion rule; the robustness law of the median.
- `src/dbscan.rs` — DBSCAN clustering over neighbour lists, with a contract that
  characterises the clusters (coverage, first-reached assignment, chains from
  each cluster's seed, seed order) and keeps those of at least four points;
  the law that it is unique.
- `src/reorder.rs` — the grouping of core points is their connectivity, so
  numbering the points anew keeps the core points, the clustered points, the
  grouping of the core points and the number of groups.
- `src/render.rs` — frame-buffer primitives: pixel, lines, filled dot, midpoint
  circle, each specified by the exact set of pixels it paints.
- `app/` — the program: serial I/O, the window, floating-point geometry
  (polar-to-cartesian, cluster features, circle fit, classifiers), CSV logging.
- `tests/` — scenario tests of the library.
