//! What an application looks like to the replicated log.

use vstd::prelude::*;

verus! {

/// An application that the replicated log hands its commands to, in the order of the log.
pub trait StateMachine {
    type Command;

    type Response;

    /// What holds of the application between two commands.
    spec fn wf(&self) -> bool;

    /// Applies a command that the cluster has committed.
    fn apply(&mut self, command: Self::Command) -> (response: Self::Response)
        requires
            old(self).wf(),
        ensures
            final(self).wf(),
    ;
}

} // verus!
