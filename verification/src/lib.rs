//! A library for manipulating subtitle cue sequences: combining two
//! independently timed tracks into one dual-subtitle track, shifting the
//! timing of a track by a fixed offset, cleaning markup out of cue text, and
//! classifying the files and sources the surrounding tool works on.

pub mod cue;
pub mod data;
pub mod merge;
pub mod modify;
mod text;
