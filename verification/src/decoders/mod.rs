//! Video decoding.

pub mod h264;
