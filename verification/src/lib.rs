//! A linter for SubRip (`.srt`) and WebVTT (`.vtt`) subtitle files: cue
//! timing and text checks, verified with Verus.
pub mod config;
pub mod json;
pub mod linter;
pub mod parser;
pub mod report;
pub mod text;
pub mod timestamp;
