//! Media container inspection and clipping.

pub mod av_clip;
pub mod boxes;
pub mod bytes;
pub mod clip;
pub mod commands;
pub mod decoders;
pub mod envelope;
pub mod errors;
pub mod format;
pub mod helpers;
pub mod laws;
pub mod metadata;
pub mod mp4_writer;
pub mod sessions;
pub mod sort;
pub mod source;
pub mod stream;
pub mod stream_reader;
pub mod subtitle_command;
pub mod subtitles;
pub mod tags;
pub mod text;
pub mod thumbnails;
pub mod time;
pub mod tracks;
pub mod types;
