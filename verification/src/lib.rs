//! Decoder for a simple portable pixel-map format: a line-oriented ASCII
//! header (format tag, width, height, maximum channel value, with `#` comment
//! lines) followed by a raw binary pixel payload (3 bytes per pixel for
//! 8-bit data, 6 bytes per pixel big-endian for 16-bit data).

pub mod imageio;
pub mod laws;
pub mod ppm;
