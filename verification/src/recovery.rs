//! Tally-recovery commands.
//!
//! The replays themselves run through the blockchain chain libraries and
//! stay outside the verified core: they read ledgers and replay votes, work
//! the engine neither holds nor checks.  The library settles only which
//! replay a recovery command asks for; the shell performs it.

use vstd::prelude::*;

verus! {

/// A tally-recovery command.
#[derive(Clone, Copy, Debug, PartialEq, Eq, Structural)]
pub enum Recover {
    /// Replay the tally from the ledger's vote fragments.
    Tally,
    /// Print the recovered votes without tallying them.
    VotesPrintout,
}

/// The replay a recovery command asks the shell to run.
#[derive(Clone, Copy, Debug, PartialEq, Eq, Structural)]
pub enum RecoverAction {
    ReplayTally,
    PrintVotes,
}

impl Recover {
    /// The replay this command asks for.
    pub fn exec(self) -> (r: RecoverAction)
        ensures
            r == (match self {
                Recover::Tally => RecoverAction::ReplayTally,
                Recover::VotesPrintout => RecoverAction::PrintVotes,
            }),
    {
        match self {
            Recover::Tally => RecoverAction::ReplayTally,
            Recover::VotesPrintout => RecoverAction::PrintVotes,
        }
    }
}

} // verus!
