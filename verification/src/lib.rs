//! Verified building blocks of an escape-time fractal plotter.
//!
//! * [`escape`] follows an orbit and counts the steps until it escapes.
//! * [`shade`] turns an escape result into a grey level.
//! * [`render`] fills the buffer of one band of pixels.
//! * [`band`] cuts the rows of an image into bands, one for each worker.
//! * [`schedule`] renders a whole image band by band, each band in its own
//!   part of the buffer.
//! * [`pair`] and [`gcd`] are the small utilities of the command line.
//!
//! The library holds no floating-point arithmetic: the numbers of an orbit
//! and the mapping from pixels to points are the caller's, handed in as
//! functions.

pub mod band;
pub mod escape;
pub mod gcd;
pub mod pair;
pub mod render;
pub mod schedule;
pub mod shade;
