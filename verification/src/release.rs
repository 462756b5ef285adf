use std::rc::Rc;
use vstd::prelude::*;

use crate::callback::Callback;
use crate::event::Event;
use crate::inner::kept::{Claim, Kept};
use crate::inner::Inner;
use crate::layers::query_all;
use crate::record::{recorded, run, Operation, Record, Step};
use crate::registration::CancellationTokenRegistration;

verus! {

/// The operation that gives a registration up. Only this module can make one.
pub struct Release {
    claim: Claim,
}

impl Release {
    /// The key of the registration.
    pub closed spec fn key(&self) -> usize {
        self.claim.number()
    }

    /// The shared state that the callback is stored in.
    pub closed spec fn shared(&self) -> Inner {
        self.claim.shared()
    }
}

/// Giving up the registration with the key `key` in `inner` finds one state and leaves another.
pub open spec fn releases(inner: Inner, key: usize, found: Kept, left: Kept) -> bool {
    &&& inner.exchanged(found, left)
    &&& left@ == if found@.has_key(key) {
        found@.release(key)
    } else {
        found@
    }
    &&& found@.has_key(key) ==> found.leads_to(Some(Event::Release(key)), left)
    &&& !found@.has_key(key) ==> found.leads_to(None, left)
}

impl Operation for Release {
    /// The callback that was removed, to be dropped.
    type Output = Option<Callback>;

    open spec fn ready(&self, inner: Inner) -> bool {
        self.shared() == inner
    }

    /// One exchange; no callback is called.
    open spec fn does(&self, inner: Inner, output: Option<Callback>, steps: Seq<Step>) -> bool {
        exists|found: Kept, left: Kept| #[trigger]
            releases(inner, self.key(), found, left) && steps == seq![
                Step::Exchanged(found, left),
            ]
    }

    fn carry_out(self, inner: &Inner, record: Record) -> (result: (Option<Callback>, Record)) {
        let ghost none = record@;
        let claim = self.claim;
        let ghost number = claim.number();
        let title = claim.title();
        let give_up = |kept: Kept| -> (after: (Kept, Option<Callback>))
            ensures
                kept@.has_key(number) ==> kept.leads_to(Some(Event::Release(number)), after.0)
                    && after.0@ == kept@.release(number),
                !kept@.has_key(number) ==> kept.leads_to(None, after.0)
        {
            kept.release(claim)
        };
        let (callback, record) = inner.exchange(give_up, &title, record);
        proof {
            let (found, left) = choose|found: Kept, left: Kept|
                #![trigger inner.exchanged(found, left)]
                {
                    &&& inner.exchanged(found, left)
                    &&& call_ensures(give_up, (found,), (left, callback))
                    &&& record@ == none.push(Step::Exchanged(found, left))
                };
            assert(releases(*inner, self.key(), found, left));
            assert(record@ =~= seq![Step::Exchanged(found, left)]);
        }
        (callback, record)
    }
}

impl CancellationTokenRegistration {
    /// Gives the registration up. `inner` is the shared state of the token that the callback was
    /// registered on, if it still exists.
    ///
    /// The callback is removed if the token is not cancelled, and dropped once the shared state
    /// is back in place.
    pub fn release(self, inner: Option<Rc<Inner>>)
        requires
            inner matches Some(inner) ==> *inner == self.shared(),
        ensures
            inner matches Some(inner) ==> exists|
                found: Kept,
                left: Kept,
                callback: Option<Callback>,
                operation: Release,
            |
                #![trigger recorded(operation, *inner, callback, seq![Step::Exchanged(found, left)])]
                {
                    &&& recorded(operation, *inner, callback, seq![Step::Exchanged(found, left)])
                    &&& operation.key() == self.key()
                    &&& releases(*inner, self.key(), found, left)
                },
    {
        query_all(None, None, None);
        if let Some(inner) = inner {
            let operation = Release { claim: self.into_key() };
            let ghost made = operation;
            let callback = run(operation, &inner);
            proof {
                let steps = choose|steps: Seq<Step>| #[trigger]
                    recorded(made, *inner, callback, steps) && made.does(*inner, callback, steps);
                let (found, left) = choose|found: Kept, left: Kept| #[trigger]
                    releases(*inner, made.key(), found, left) && steps == seq![
                        Step::Exchanged(found, left),
                    ];
                assert(recorded(made, *inner, callback, seq![Step::Exchanged(found, left)]));
            }
        }
    }
}

} // verus!
