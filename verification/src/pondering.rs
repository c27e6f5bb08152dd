//! The life cycle of the background search: at most one runs at a time, and
//! stopping it waits until it has gone.
use vstd::prelude::*;

verus! {

/// What the owner of the background thread has to do next.
#[derive(Clone, Copy, Debug, PartialEq, Eq, Structural)]
pub enum PonderAction {
    /// Nothing: the request changes nothing.
    Nothing,
    /// Lower the stop flag and launch the background search.
    Launch,
    /// Raise the stop flag and wait until the background search has ended.
    SignalAndJoin,
}

/// Whether a background search is under way.
#[derive(Clone, Copy, Debug, PartialEq, Eq, Structural)]
pub struct PonderingController {
    pub active: bool,
}

impl PonderingController {
    /// No background search is under way.
    pub fn new() -> (c: PonderingController)
        ensures
            !c.active,
    {
        PonderingController { active: false }
    }

    /// Asks for a background search. While one is under way the request is
    /// dropped; otherwise one is to be launched.
    pub fn start_pondering(&mut self) -> (action: PonderAction)
        ensures
            final(self).active,
            action == if old(self).active {
                PonderAction::Nothing
            } else {
                PonderAction::Launch
            },
    {
        if self.active {
            PonderAction::Nothing
        } else {
            self.active = true;
            PonderAction::Launch
        }
    }

    /// Asks for the background search to end. Where one is under way it is
    /// to be signalled and waited for, so that none is left once the owner
    /// has done so; otherwise there is nothing to do.
    pub fn stop_pondering(&mut self) -> (action: PonderAction)
        ensures
            !final(self).active,
            action == if old(self).active {
                PonderAction::SignalAndJoin
            } else {
                PonderAction::Nothing
            },
    {
        if self.active {
            self.active = false;
            PonderAction::SignalAndJoin
        } else {
            PonderAction::Nothing
        }
    }
}

} // verus!
