//! How a run of the filter ends, and the exit status that goes with it.
use vstd::prelude::*;

verus! {

/// The ways a run of the filter can end.
#[derive(Clone, Copy, Debug, PartialEq, Eq, Structural)]
pub enum Termination {
    /// The input was read to its end.
    EndOfInput,
    /// The reader of the output closed it early (a broken pipe): a quiet,
    /// normal end.
    OutputClosed,
    /// Any other input or output error: reported, and the run fails.
    IoFailure,
}

impl Termination {
    /// The outcome of an input or output error; `broken_pipe` tells whether
    /// the error is the output having been closed by its reader.
    pub fn of_io_error(broken_pipe: bool) -> (r: Termination)
        ensures
            r == (if broken_pipe {
                Termination::OutputClosed
            } else {
                Termination::IoFailure
            }),
    {
        if broken_pipe {
            Termination::OutputClosed
        } else {
            Termination::IoFailure
        }
    }

    /// Whether this outcome is an error to report on the diagnostic stream.
    pub fn is_failure(&self) -> (r: bool)
        ensures
            r == (*self == Termination::IoFailure),
    {
        match self {
            Termination::IoFailure => true,
            _ => false,
        }
    }

    /// The process exit status: 0 for a normal end, -1 for a failure.
    pub fn exit_status(&self) -> (r: i32)
        ensures
            r == (if *self == Termination::IoFailure {
                -1i32
            } else {
                0i32
            }),
    {
        match self {
            Termination::IoFailure => -1,
            _ => 0,
        }
    }
}

} // verus!
