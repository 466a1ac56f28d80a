//! The constants of the command line and of the exit codes.

use vstd::prelude::*;

verus! {

/// The fewest arguments a run takes: the program's name and the script.
pub const ARGS_MIN: usize = 2;

/// The most arguments a run takes: program, script and the diagnostics word.
pub const ARGS_MAX: usize = 3;

/// Where the program's name stands among the arguments.
pub const ARG_PROGRAM_IDX: usize = 0;

/// Where the script's path stands among the arguments.
pub const ARG_SCRIPT_IDX: usize = 1;

/// Where the diagnostics word stands among the arguments.
pub const ARG_WHINGE_IDX: usize = 2;

/// The exit code of a run that did what it was asked.
pub const SUCCESS_CODE: u8 = 0;

/// The exit code of a run whose arguments were wrong.
pub const EXIT_BAD_CMDLINE: u8 = 1;

/// The exit code of a run that could not build its play.
pub const GENERATION_FAILURE: u8 = 2;

} // verus!
