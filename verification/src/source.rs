use std::rc::Rc;
use vstd::prelude::*;

use crate::event::Event;
use crate::inner::kept::Kept;
use crate::inner::{Inner, Right};
use crate::state::StateView;
use crate::token::CancellationToken;

verus! {

/// A source that can cancel associated `CancellationToken`s.
///
/// Cancellation is **cooperative** and single-threaded. When cancelled:
/// - All registered callbacks are called (in registration order).
/// - All tasks waiting via `CancellationToken::cancelled()` are woken.
pub struct CancellationTokenSource {
    inner: Rc<Inner>,
}

impl Default for CancellationTokenSource {
    fn default() -> (source: Self)
        ensures
            exists|state: Kept| #[trigger]
                source.shared().made_with(state) && state@ == StateView::initial() && state.log()
                    == Seq::<Event>::empty(),
    {
        let inner = Inner::new();
        let ghost state = choose|state: Kept| #[trigger]
            inner.made_with(state) && state@ == StateView::initial() && state.log() == Seq::<
                Event,
            >::empty();
        let source = CancellationTokenSource { inner: Rc::new(inner) };
        assert(source.shared().made_with(state));
        source
    }
}

impl Clone for CancellationTokenSource {
    /// Another source of the same tokens.
    fn clone(&self) -> (source: Self)
        ensures
            source.shared() == self.shared(),
    {
        CancellationTokenSource { inner: self.inner.clone() }
    }
}

impl Right for CancellationTokenSource {
    /// A source has a right to the state that it shares with its tokens.
    open spec fn covers(&self, inner: Inner) -> bool {
        *self.shared() == inner
    }

    /// A source has the right to cancel.
    open spec fn allows(&self, event: Event) -> bool {
        event is Cancel
    }
}

impl CancellationTokenSource {
    /// The state that the source shares with its tokens.
    pub closed spec fn shared(&self) -> Rc<Inner> {
        self.inner
    }

    /// Creates a new `CancellationTokenSource`, which is not cancelled.
    pub fn new() -> (source: Self)
        ensures
            exists|state: Kept| #[trigger]
                source.shared().made_with(state) && state@ == StateView::initial() && state.log()
                    == Seq::<Event>::empty(),
    {
        Default::default()
    }

    /// The state that the source shares with its tokens.
    pub fn inner(&self) -> (inner: &Rc<Inner>)
        ensures
            *inner == self.shared(),
    {
        &self.inner
    }

    /// Gets a `CancellationToken` associated with this source.
    pub fn token(&self) -> (token: CancellationToken)
        ensures
            token.shared() == self.shared(),
    {
        CancellationToken::sharing(self)
    }

    /// Checks if this source has been cancelled.
    pub fn is_cancelled(&self) -> (cancelled: bool)
        ensures
            exists|found: Kept, fields: (bool, usize, usize)| #[trigger]
                self.shared().looked(found, fields) && cancelled == found@.cancelled,
    {
        let fields = self.inner.summary();
        proof {
            let found = choose|found: Kept| #[trigger] self.inner.looked(found, fields);
            assert(self.shared().looked(found, fields));
        }
        fields.0
    }
}

} // verus!
