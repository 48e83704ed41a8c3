//! Turns word-level speech transcripts into subtitle files.

pub mod cli;
pub mod cue_laws;
pub mod cues;
pub mod ffmpeg;
pub mod grammar;
pub mod layout;
pub mod media;
pub mod model;
pub mod pcm;
pub mod queue;
pub mod seconds;
pub mod segmentation;
pub mod segments;
pub mod split;
pub mod status;
pub mod stitch;
pub mod subtitle_formats;
pub mod text;
pub mod utterance;
