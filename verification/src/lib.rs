//! Acquisition core of a serial plotter: framing a byte stream into
//! per-channel samples, fanning them out, and decoding them.

pub mod ascii;
pub mod export;
pub mod graph;
pub mod port;
pub mod single;
