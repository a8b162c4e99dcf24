//! Control-flow outcome of one round of reading user input in the
//! surrounding interactive application.

use vstd::prelude::*;

verus! {

/// What the application should do after handling one input event:
/// replace itself with a command string to hand back to the shell,
/// exit with nothing, or keep running.
pub enum AppControl {
    /// Exit and output the chosen command text.
    Become(String),
    /// Exit without producing any output.
    Exit,
    /// Keep reading input.
    Continue,
}

} // verus!
