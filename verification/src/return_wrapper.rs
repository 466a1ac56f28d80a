//! The outcome of a run as an exit code.

use crate::declarations::SUCCESS_CODE;
use vstd::prelude::*;

verus! {

/// The exit code of a run.
#[derive(Debug, PartialEq, Eq)]
pub struct ReturnWrapper {
    /// The code: 0 for success, any other value for a failure.
    pub field_type: u8,
}

impl ReturnWrapper {
    /// The outcome with exit code `value`.
    pub fn new(value: u8) -> (w: Self)
        ensures
            w.field_type == value,
    {
        Self { field_type: value }
    }

    /// Whether the run failed, so that its code is to be reported as an
    /// error.
    pub fn is_error(&self) -> (b: bool)
        ensures
            b == (self.field_type != SUCCESS_CODE),
    {
        self.field_type != SUCCESS_CODE
    }
}

} // verus!
