use core::task::Waker;
use std::rc::Rc;
use vstd::prelude::*;

use crate::inner::kept::{Kept, Seat, Waited};
use crate::inner::Inner;
use crate::layers::query_all;
use crate::record::{recorded, run, Operation, Record, Step};
use crate::state::Progress;
use crate::token::CancellationToken;

verus! {

/// The wait for the cancellation of a `CancellationToken`.
///
/// - If the token is already cancelled, polling is ready immediately.
/// - Otherwise, polling registers the waker and is pending.
///
/// The future waits through one waker at a time, that of its last poll. It will be woken exactly
/// once when the token is cancelled.
pub struct CancelledFuture {
    inner: Rc<Inner>,
    /// The seat of the future. It is missing only while a poll has it.
    seat: Option<Seat>,
}

/// The operation that polls a future. Only this module can make one, and only of the seat of that
/// future.
pub struct Poll<'a> {
    seat: Seat,
    waker: &'a Waker,
    copy: Option<Waker>,
}

impl<'a> Poll<'a> {
    /// The key of the waker that the future waits through, if it waits.
    pub closed spec fn slot(&self) -> Option<usize> {
        self.seat.key()
    }

    /// Whether the future has its seat in `inner`, and the clone of the waker, if there is one, is
    /// a clone of it.
    pub closed spec fn fits(&self, inner: Inner) -> bool {
        &&& self.seat.shared() == inner
        &&& self.copy matches Some(copy) ==> cloned(*self.waker, copy)
    }

    /// The waker that the future is polled with.
    pub closed spec fn waker(&self) -> Waker {
        *self.waker
    }
}

/// What a poll comes to: what it found, the seat of the future, and wakers that are not kept.
pub struct Outcome {
    pub progress: Progress,
    pub seat: Seat,
    pub spare: (Option<Waker>, Option<Waker>),
}

/// Polling a future in `inner` finds one state, leaves another, and comes to this: what it found,
/// and the key of the waker that the future waits through then, if it waits.
pub open spec fn polls(
    inner: Inner,
    slot: Option<usize>,
    waker: Waker,
    output: (Progress, Option<usize>),
    found: Kept,
    left: Kept,
) -> bool {
    &&& inner.exchanged(found, left)
    &&& found@.polled(slot, waker, left@, output.1, output.0)
    &&& found.moved(slot, left)
}

/// The steps of a poll that finds one state and leaves another: the exchange of the states. It may
/// come after another, which has found that the waker is to be cloned and has left the state as
/// it was.
pub open spec fn poll_steps(steps: Seq<Step>, inner: Inner, found: Kept, left: Kept) -> bool {
    ||| steps == seq![Step::Exchanged(found, left)]
    ||| exists|first: Kept, same: Kept|
        #![trigger inner.exchanged(first, same)]
        {
            &&& inner.exchanged(first, same)
            &&& !first@.cancelled
            &&& first.leads_to(None, same)
            &&& steps == seq![Step::Exchanged(first, same), Step::Exchanged(found, left)]
        }
}

impl<'a> Operation for Poll<'a> {
    type Output = Outcome;

    open spec fn ready(&self, inner: Inner) -> bool {
        self.fits(inner)
    }

    open spec fn does(&self, inner: Inner, output: Outcome, steps: Seq<Step>) -> bool {
        &&& output.seat.shared() == inner
        &&& exists|found: Kept, left: Kept| #[trigger]
            polls(
                inner,
                self.slot(),
                self.waker(),
                (output.progress, output.seat.key()),
                found,
                left,
            ) && poll_steps(steps, inner, found, left)
    }

    fn carry_out(self, inner: &Inner, record: Record) -> (result: (Outcome, Record)) {
        let ghost none = record@;
        let ghost slot = self.slot();
        let ghost asked = self.waker();
        let Poll { seat, waker, copy } = self;
        let ((waited, spare), record) = attempt(seat, waker, copy, inner, record);
        let ghost (found, left) = choose|found: Kept, left: Kept|
            #![trigger inner.exchanged(found, left)]
            {
                &&& inner.exchanged(found, left)
                &&& attempted(*inner, slot, asked, waited, found, left)
                &&& record@ == none.push(Step::Exchanged(found, left))
            };
        let ghost (first, same) = (found, left);
        let ghost one = record@;
        let ((waited, spare), record) = match waited {
            Waited::CloneFirst(seat) => {
                let copy = waker.clone();
                assert(cloned(*waker, copy));
                let ((again, spare), record) = attempt(seat, waker, Some(copy), inner, record);
                let ghost (later, after) = choose|later: Kept, after: Kept|
                    #![trigger inner.exchanged(later, after)]
                    {
                        &&& inner.exchanged(later, after)
                        &&& attempted(*inner, slot, asked, again, later, after)
                        &&& record@ == one.push(Step::Exchanged(later, after))
                    };
                proof {
                    found = later;
                    left = after;
                    assert(inner.exchanged(first, same));
                    assert(record@ =~= seq![
                        Step::Exchanged(first, same),
                        Step::Exchanged(found, left),
                    ]);
                }
                ((again, spare), record)
            },
            other => {
                assert(record@ =~= seq![Step::Exchanged(found, left)]);
                ((other, spare), record)
            },
        };
        assert(poll_steps(record@, *inner, found, left));
        let output = match waited {
            Waited::Pending(seat) => Outcome { progress: Progress::Pending, seat, spare },
            Waited::Ready(seat) => Outcome { progress: Progress::Ready, seat, spare },
            Waited::CloneFirst(seat) => Outcome { progress: Progress::Ready, seat, spare },
        };
        assert(polls(
            *inner,
            self.slot(),
            self.waker(),
            (output.progress, output.seat.key()),
            found,
            left,
        ));
        (output, record)
    }
}

/// Polling with or without a clone of the waker finds one state, leaves another, and comes to
/// this.
spec fn attempted(
    inner: Inner,
    slot: Option<usize>,
    waker: Waker,
    waited: Waited,
    found: Kept,
    left: Kept,
) -> bool {
    match waited {
        Waited::Ready(seat) => {
            &&& seat.shared() == inner
            &&& seat.key() is None
            &&& found.leads_to(None, left)
            &&& found@.polled(slot, waker, left@, None, Progress::Ready)
        },
        Waited::Pending(seat) => {
            &&& seat.shared() == inner
            &&& found.moved(slot, left)
            &&& found@.polled(slot, waker, left@, seat.key(), Progress::Pending)
        },
        Waited::CloneFirst(seat) => {
            &&& seat.shared() == inner
            &&& seat.key() == slot
            &&& found.leads_to(None, left)
            &&& !found@.cancelled
        },
    }
}

/// Polls the wait with a clone of the waker, or without one.
fn attempt(
    seat: Seat,
    waker: &Waker,
    copy: Option<Waker>,
    inner: &Inner,
    record: Record,
) -> (result: ((Waited, (Option<Waker>, Option<Waker>)), Record))
    requires
        seat.shared() == *inner,
        copy matches Some(copy) ==> cloned(*waker, copy),
    ensures
        copy is Some ==> !(result.0.0 is CloneFirst),
        exists|found: Kept, left: Kept|
            #![trigger inner.exchanged(found, left)]
            {
                &&& inner.exchanged(found, left)
                &&& attempted(*inner, seat.key(), *waker, result.0.0, found, left)
                &&& result.1@ == record@.push(Step::Exchanged(found, left))
            },
{
    let ghost asked = *waker;
    let ghost offered = copy;
    let ghost slot = seat.key();
    let ghost place = *inner;
    let pass = seat.pass();
    let poll = |kept: Kept| -> (after: (Kept, (Waited, (Option<Waker>, Option<Waker>))))
        ensures
            offered is Some ==> !(after.1.0 is CloneFirst),
            attempted(place, slot, asked, after.1.0, kept, after.0)
    {
        let (kept, waited, spare) = kept.poll(seat, waker, copy);
        (kept, (waited, spare))
    };
    inner.exchange(poll, &pass, record)
}

impl CancelledFuture {
    /// The state that the token shares with its source.
    pub closed spec fn shared(&self) -> Rc<Inner> {
        self.inner
    }

    /// The key of the waker that the future waits through, if it waits.
    pub closed spec fn slot(&self) -> Option<usize> {
        match self.seat {
            Some(seat) => seat.key(),
            None => None,
        }
    }

    /// The future has its seat in the state of its token.
    #[verifier::type_invariant]
    closed spec fn inv(&self) -> bool {
        self.seat matches Some(seat) ==> seat.shared() == *self.inner
    }

    /// The wait for the cancellation of `token`.
    pub(crate) fn of(token: CancellationToken) -> (future: Self)
        ensures
            future.shared() == token.shared(),
            future.slot() is None,
    {
        CancelledFuture { inner: token.inner().clone(), seat: Some(Seat::first(token.ticket())) }
    }

    /// Polls the wait: ready if the token is cancelled; otherwise pending, and the task of `waker`
    /// is woken when the token is cancelled.
    ///
    /// The waker is cloned only if the clone is to be kept, and while the shared state is in its
    /// place.
    pub fn poll(&mut self, waker: &Waker) -> (progress: Progress)
        ensures
            final(self).shared() == old(self).shared(),
            exists|found: Kept, left: Kept, steps: Seq<Step>, operation: Poll, output: Outcome|
                #![trigger
                    recorded(operation, *old(self).shared(), output, steps),
                    old(self).shared().exchanged(found, left)
                ]
                {
                    &&& recorded(operation, *old(self).shared(), output, steps)
                    &&& output.progress == progress
                    &&& output.seat.key() == final(self).slot()
                    &&& operation.slot() == old(self).slot()
                    &&& operation.waker() == *waker
                    &&& poll_steps(steps, *old(self).shared(), found, left)
                    &&& polls(
                        *old(self).shared(),
                        old(self).slot(),
                        *waker,
                        (progress, final(self).slot()),
                        found,
                        left,
                    )
                },
    {
        proof {
            use_type_invariant(&*self);
        }
        query_all(None, None, None);
        let copy = if self.inner.knows(waker) {
            None
        } else {
            Some(waker.clone())
        };
        assert(copy matches Some(copy) ==> cloned(*waker, copy));
        let mut own: Option<Seat> = None;
        core::mem::swap(&mut own, &mut self.seat);
        let seat = match own {
            Some(seat) => seat,
            None => {
                let inner: &Inner = &self.inner;
                self.inner.wait().seat(Ghost(*inner))
            },
        };
        let operation = Poll { seat, waker, copy };
        let ghost made = operation;
        let output = run(operation, &self.inner);
        let ghost whole = output;
        proof {
            let inner = *self.inner;
            let steps = choose|steps: Seq<Step>| #[trigger]
                recorded(made, inner, whole, steps) && made.does(inner, whole, steps);
            let (found, left) = choose|found: Kept, left: Kept| #[trigger]
                polls(
                    inner,
                    made.slot(),
                    made.waker(),
                    (whole.progress, whole.seat.key()),
                    found,
                    left,
                ) && poll_steps(steps, inner, found, left);
            assert(recorded(made, *old(self).shared(), whole, steps));
            assert(old(self).shared().exchanged(found, left));
        }
        let Outcome { progress, seat, spare: _spare } = output;
        self.seat = Some(seat);
        progress
    }
}

} // verus!
