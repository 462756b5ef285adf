use std::rc::Rc;
use vstd::prelude::*;

use crate::cancelled::Cancelled;
use crate::event::Event;
use crate::future::CancelledFuture;
use crate::inner::kept::Kept;
use crate::inner::{Inner, Right};
use crate::source::CancellationTokenSource;

verus! {

/// A token that can be checked for cancellation or awaited.
pub struct CancellationToken {
    inner: Rc<Inner>,
}

impl Clone for CancellationToken {
    /// Another token of the same source.
    fn clone(&self) -> (token: Self)
        ensures
            token.shared() == self.shared(),
    {
        CancellationToken { inner: self.inner.clone() }
    }
}

impl Right for CancellationToken {
    /// A token has a right to the state that it shares with its source.
    open spec fn covers(&self, inner: Inner) -> bool {
        *self.shared() == inner
    }

    /// A token has the right to register callbacks.
    open spec fn allows(&self, event: Event) -> bool {
        event is Register
    }
}

/// The right of a new future to a seat. Only a token gives one out.
pub struct Ticket {
    shared: Ghost<Inner>,
}

impl Ticket {
    /// The shared state that the future may wait in.
    pub closed spec fn shared(&self) -> Inner {
        self.shared@
    }
}

impl CancellationToken {
    /// The state that the token shares with its source.
    pub closed spec fn shared(&self) -> Rc<Inner> {
        self.inner
    }

    /// A token of `source`.
    pub(crate) fn sharing(source: &CancellationTokenSource) -> (token: Self)
        ensures
            token.shared() == source.shared(),
    {
        CancellationToken { inner: source.inner().clone() }
    }

    /// The state that the token shares with its source.
    pub fn inner(&self) -> (inner: &Rc<Inner>)
        ensures
            *inner == self.shared(),
    {
        &self.inner
    }

    /// The right to wait for the cancellation of the token.
    pub(crate) fn ticket(&self) -> (ticket: Ticket)
        ensures
            ticket.shared() == *self.shared(),
    {
        let inner: &Inner = &self.inner;
        Ticket { shared: Ghost(*inner) }
    }

    /// Checks if the token has been cancelled.
    pub fn is_cancelled(&self) -> (cancelled: bool)
        ensures
            exists|found: Kept, fields: (bool, usize, usize)| #[trigger]
                self.shared().looked(found, fields) && cancelled == found@.cancelled,
    {
        let fields = self.inner.summary();
        proof {
            let found = choose|found: Kept| #[trigger] self.inner.looked(found, fields);
            assert(self.shared().looked(found, fields));
        }
        fields.0
    }

    /// Synchronously checks cancellation and returns `Err(Cancelled)` if cancelled.
    pub fn check_cancelled(&self) -> (result: Result<(), Cancelled>)
        ensures
            exists|found: Kept, fields: (bool, usize, usize)| #[trigger]
                self.shared().looked(found, fields) && result == if found@.cancelled {
                    Err::<(), Cancelled>(Cancelled)
                } else {
                    Ok::<(), Cancelled>(())
                },
    {
        if self.is_cancelled() {
            Err(Cancelled)
        } else {
            Ok(())
        }
    }

    /// Returns the wait for the cancellation of the token.
    pub fn cancelled(&self) -> (future: CancelledFuture)
        ensures
            future.shared() == self.shared(),
            future.slot() is None,
    {
        CancelledFuture::of(self.clone())
    }
}

} // verus!
