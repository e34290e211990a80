//! The update-check decision: the host's collaborator fetches the latest
//! released version and reports how the running version compares; a failed
//! or inconclusive check is reported as "no update available" rather than
//! as an error, since staleness here is non-critical.
use vstd::prelude::*;

verus! {

/// How the running version compares to the latest released one.
#[derive(Clone, Copy, Debug, PartialEq, Eq, Structural)]
pub enum VersionOrder {
    Older,
    Same,
    Newer,
}

/// True exactly when the collaborator reported that the running version is
/// older than the latest release; an absent or failed comparison means no
/// update.
pub fn update_available(check: Option<VersionOrder>) -> (r: bool)
    ensures
        r == (check == Some(VersionOrder::Older)),
{
    match check {
        Option::Some(VersionOrder::Older) => true,
        _ => false,
    }
}

} // verus!
