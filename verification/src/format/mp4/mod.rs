//! The MP4 family: boxes, sample tables, tracks, subtitles and thumbnails.

pub mod atoms;
pub mod cue_laws;
pub mod laws;
pub mod subtitles;
pub mod thumbnails;
pub mod track_laws;
pub mod tracks;
