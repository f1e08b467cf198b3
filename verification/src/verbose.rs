//! How much the engine's caller wants to be told.

use vstd::prelude::*;

verus! {

/// The verbosity of a run: a message of a given level is shown if the level
/// does not exceed it. It is a value that the caller keeps and hands on; no
/// state is shared behind the caller's back.
#[derive(Clone, Copy, Debug, PartialEq, Eq, Structural)]
pub struct Verbosity {
    pub level: u8,
}

impl Default for Verbosity {
    /// Nothing but what has level zero is shown.
    fn default() -> (quiet: Self)
        ensures
            quiet.level == 0,
    {
        Verbosity { level: 0 }
    }
}

/// Sets the verbosity.
pub fn set_verbosity(state: &mut Verbosity, verbosity: u8)
    ensures
        final(state).level == verbosity,
{
    state.level = verbosity;
}

/// Whether a message of level `verbosity` is shown.
pub fn check_verbosity(state: &Verbosity, verbosity: u8) -> (shown: bool)
    ensures
        shown == (verbosity <= state.level),
{
    verbosity <= state.level
}

} // verus!
