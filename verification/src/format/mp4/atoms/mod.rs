//! Readers for single boxes.

pub mod avc;
pub mod budget;
pub mod locate;
pub mod media;
pub mod read;
pub mod sample_timing;
pub mod samples;
pub mod validate;
