use core::task::Waker;
use vstd::prelude::*;

use crate::callback::Callback;

verus! {

/// What a cancellation asks for.
pub enum Action {
    /// Call a callback.
    Run(Callback),
    /// Wake a task that waits for the cancellation.
    Wake(Waker),
}

impl Action {
    /// Whether the action may be performed.
    pub open spec fn performable(self) -> bool {
        self matches Action::Run(callback) ==> callback.callable()
    }

    /// The action was performed: the callback was called and has returned, or the waker was handed
    /// to `Waker::wake`.
    pub open spec fn performed(self) -> bool {
        match self {
            Action::Run(callback) => callback.called(),
            Action::Wake(waker) => call_ensures(Waker::wake, (waker,), ()),
        }
    }
}

} // verus!
