//! The session launcher: what ssh's exit means for the tab it ran in.

use vstd::prelude::*;

verus! {

/// How a session tab ends.
pub enum Ending {
    /// ssh's own "something went wrong" code (255): keep the tab open so the
    /// error can be read.
    SshFailed,
    /// No exit code: a signal killed ssh. Reporting that as a clean exit
    /// would close the tab without a word, so it is held open too.
    Killed,
    /// The remote command's status: the session really ran.
    Exit(u8),
}

/// The ending for ssh's exit code (`None` when a signal ended it). A status
/// passes through as its low byte, as process exit codes do.
pub fn ending(code: Option<i32>) -> (out: Ending)
    ensures
        code == Some(255i32) ==> out is SshFailed,
        code is None ==> out is Killed,
        code is Some && code != Some(255i32) ==> out == Ending::Exit(code.unwrap() as u8),
{
    match code {
        Some(255) => Ending::SshFailed,
        None => Ending::Killed,
        Some(c) => Ending::Exit(c as u8),
    }
}

} // verus!
