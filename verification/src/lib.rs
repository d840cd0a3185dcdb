//! Verified core of a local video-to-text transcription tool: path handling,
//! timestamp and subtitle formatting, audio chunk scheduling, and the
//! decisions around the external tools that do the heavy lifting.

pub mod text;
pub mod timestamp;
pub mod transcript;
pub mod paths;
pub mod audio;
pub mod models;
pub mod plan;
