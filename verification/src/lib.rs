//! Core library of a meeting-transcription tool.
//!
//! Audio tracks live in an object store under structured keys that encode
//! recording date, room, meeting start time, speaker and per-track start
//! time.  This crate holds the verified logic of the tool: the key codec,
//! the wall-clock time utility, the parser for the speech recognizer's
//! many output shapes, the timestamp re-anchoring and cross-track merge,
//! the transcript renderer, and the job registry that tracks background
//! transcription jobs.  Network, file and subprocess work stays outside,
//! in the unverified shell that drives these functions.

pub mod order;
pub mod paths;
pub mod pipeline;
pub mod recognizer;
pub mod strutil;
pub mod transcript;
pub mod config;
pub mod jobs;
pub mod jsonval;
pub mod keycodec;
pub mod meetings;
pub mod timeutil;
