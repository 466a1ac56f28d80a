//! Assembles a play from its script files and recites it as one transcript:
//! dialogue merged by line number, with scene titles, entrances and exits.

pub mod command_line;
pub mod cue;
pub mod declarations;
pub mod diagnostics;
pub mod order;
pub mod play;
pub mod player;
pub mod recital;
pub mod return_wrapper;
pub mod scene_fragments;
pub mod shelf;
pub mod text;
