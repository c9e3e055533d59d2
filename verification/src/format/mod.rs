//! Container formats.

pub mod mp3;
pub mod mp4;
pub mod texts;
