use core::task::Waker;
use vstd::prelude::*;

use crate::action::Action;
use crate::callback::Callback;
use crate::callbacks::Key;
use crate::event::{admits, lemma_poll_is_event, next, step, Event};
use crate::inner::{Inner, Right};
use crate::laws::{after, law_wf_kept, possible};
use crate::state::{Polled, Progress, Registered, State, StateView};
use crate::token::Ticket;
use crate::waiting::{known_at, unknown};

verus! {

/// A shared state together with the log of all that has happened to it since it was new.
///
/// A new one is made only for a new `Inner`. Nothing but its own methods makes a later one of an
/// earlier one, and each of them adds to the log what it does.
pub struct Kept {
    state: State,
    log: Ghost<Seq<Event>>,
}

/// The right to one stored callback. Only registering the callback makes one, and removing the
/// callback takes it back.
pub struct Claim {
    key: Key,
    shared: Ghost<Inner>,
}

/// The seat of a future: the key of the waker that it waits through, if it waits. A future has one
/// seat, which each poll takes and gives back.
pub struct Seat {
    key: Option<usize>,
    shared: Ghost<Inner>,
}

/// What registering a callback comes to.
pub enum Answer<F> {
    /// The callback is stored, and this is the right to it.
    Stored(Claim),
    /// The cancellation has happened already: the callback is to be called now.
    RunNow(F),
}

/// What polling comes to. The future gets its seat back.
pub enum Waited {
    /// The cancellation has happened.
    Ready(Seat),
    /// It has not, and the future waits.
    Pending(Seat),
    /// It has not, and a clone of the waker has to be made, to be kept.
    CloneFirst(Seat),
}

impl Claim {
    /// The key that the callback is stored under.
    pub closed spec fn number(&self) -> usize {
        self.key.number()
    }

    /// The shared state that the callback is stored in.
    pub closed spec fn shared(&self) -> Inner {
        self.shared@
    }

    /// The key that the callback is stored under.
    pub fn value(&self) -> (key: usize)
        ensures
            key == self.number(),
    {
        self.key.value()
    }
}

impl Claim {
    /// The right to remove the callback.
    pub(crate) fn title(&self) -> (title: Title)
        ensures
            title.number() == self.number(),
            title.shared() == self.shared(),
    {
        Title { number: Ghost(self.key.number()), shared: self.shared }
    }
}

/// The right to remove one stored callback. Only the claim to that callback gives one out.
pub struct Title {
    number: Ghost<usize>,
    shared: Ghost<Inner>,
}

impl Title {
    /// The key that the callback is stored under.
    pub closed spec fn number(&self) -> usize {
        self.number@
    }

    /// The shared state that the callback is stored in.
    pub closed spec fn shared(&self) -> Inner {
        self.shared@
    }
}

impl Right for Title {
    open spec fn covers(&self, inner: Inner) -> bool {
        self.shared() == inner
    }

    open spec fn allows(&self, event: Event) -> bool {
        event == Event::Release(self.number())
    }
}

impl Seat {
    /// The key of the waker that the future waits through, if it waits.
    pub closed spec fn key(&self) -> Option<usize> {
        self.key
    }

    /// The shared state that the future waits in.
    pub closed spec fn shared(&self) -> Inner {
        self.shared@
    }

    /// The seat of a new future.
    pub(crate) fn first(ticket: Ticket) -> (seat: Self)
        ensures
            seat.key() is None,
            seat.shared() == ticket.shared(),
    {
        Seat { key: None, shared: Ghost(ticket.shared()) }
    }

    /// The right to wait.
    pub(crate) fn pass(&self) -> (pass: Pass)
        ensures
            pass.shared() == self.shared(),
            pass.slot() == self.key(),
    {
        Pass { slot: Ghost(self.key), shared: self.shared }
    }
}

/// The right of one future to come to wait through another waker. Only its seat gives one out.
pub struct Pass {
    slot: Ghost<Option<usize>>,
    shared: Ghost<Inner>,
}

impl Pass {
    /// The key of the waker that the future waits through, if it waits.
    pub closed spec fn slot(&self) -> Option<usize> {
        self.slot@
    }

    /// The shared state that the future waits in.
    pub closed spec fn shared(&self) -> Inner {
        self.shared@
    }
}

impl Right for Pass {
    open spec fn covers(&self, inner: Inner) -> bool {
        self.shared() == inner
    }

    open spec fn allows(&self, event: Event) -> bool {
        moves(Some(event), self.slot())
    }
}

impl View for Kept {
    type V = StateView;

    closed spec fn view(&self) -> StateView {
        self.state@
    }
}

impl Kept {
    /// All that has happened to the state since it was new, in this order.
    pub closed spec fn log(&self) -> Seq<Event> {
        self.log@
    }

    /// The state is what the log makes of a new one.
    pub open spec fn told(&self) -> bool {
        &&& possible(StateView::initial(), self.log())
        &&& self@ == after(StateView::initial(), self.log())
        &&& self@.wf()
    }

    /// `later` is this state after the event, or this very state after none.
    pub open spec fn leads_to(&self, event: Option<Event>, later: Kept) -> bool {
        match event {
            Some(event) => {
                &&& admits(self@, event)
                &&& later@ == next(self@, event)
                &&& later.log() == self.log().push(event)
            },
            None => later@ == self@ && later.log() == self.log(),
        }
    }

    /// `later` is this state after a future that waited through the waker under `slot` has come to
    /// wait through another, or this very state.
    pub open spec fn moved(&self, slot: Option<usize>, later: Kept) -> bool {
        exists|event: Option<Event>| #[trigger] self.leads_to(event, later) && moves(event, slot)
    }

    #[verifier::type_invariant]
    pub closed spec fn inv(&self) -> bool {
        self.told()
    }

    /// The log tells the state.
    pub proof fn lemma_told(&self)
        requires
            self.inv(),
        ensures
            self.told(),
    {
    }

    /// What an event leads to is a step.
    pub proof fn lemma_step(&self, event: Option<Event>, later: Kept)
        requires
            self.leads_to(event, later),
        ensures
            step(self@, later@),
    {
        if event is Some {
            assert(admits(self@, event->0));
        }
    }

    /// A new state.
    pub(super) fn new() -> (kept: Self)
        ensures
            kept@ == StateView::initial(),
            kept.log() == Seq::<Event>::empty(),
    {
        let state = State::new();
        Kept { state, log: Ghost(Seq::empty()) }
    }

    /// Whether the cancellation has happened, the number of wakers and the number of stored
    /// callbacks.
    pub(crate) fn summary(&self) -> (fields: (bool, usize, usize))
        ensures
            fields.0 == self@.cancelled,
            fields.1 == self@.waiting.len(),
            fields.2 == self@.callbacks.len(),
    {
        self.state.summary()
    }

    /// Whether the cancellation has happened or a waker is kept that is said to wake the task of
    /// `waker`.
    pub(crate) fn knows(&self, waker: &Waker) -> (known: bool)
        ensures
            known ==> self@.cancelled || exists|place: int| #[trigger]
                known_at(self@.waiting, *waker, place),
            !known ==> !self@.cancelled && unknown(self@.waiting, *waker),
    {
        self.state.knows(waker)
    }

    /// A seat for a future that has lost its own.
    pub(crate) fn seat(&self, Ghost(inner): Ghost<Inner>) -> (seat: Seat)
        ensures
            seat.key() is None,
            seat.shared() == inner,
    {
        Seat { key: None, shared: Ghost(inner) }
    }

    /// Cancels. Returns what is left to do, to be performed from the first action to the last.
    pub(crate) fn cancel(self) -> (later: (Self, Vec<Action>))
        ensures
            self.leads_to(Some(Event::Cancel), later.0),
            later.0@ == self@.cancel(),
            later.1@ == self@.cancel_actions(),
            forall|i: int| 0 <= i < later.1@.len() ==> (#[trigger] later.1@[i]).performable(),
    {
        proof {
            use_type_invariant(&self);
        }
        let Kept { state, log } = self;
        let ghost found = state@;
        let (state, actions) = state.cancel();
        assert(admits(found, Event::Cancel));
        assert(state@ == next(found, Event::Cancel));
        (logged(state, log, Ghost(Some(Event::Cancel))), actions)
    }

    /// Registers the closure `f` as a callback. It is stored if the cancellation has not happened,
    /// and handed back to be called at once if it has.
    pub(crate) fn register<F: FnOnce() + 'static>(self, f: F, Ghost(inner): Ghost<Inner>) -> (later:
        (Self, Answer<F>))
        requires
            call_requires(f, ()),
        ensures
            self@.cancelled ==> self.leads_to(None, later.0) && later.1 == Answer::RunNow(f),
            !self@.cancelled ==> {
                &&& later.1 matches Answer::Stored(claim)
                &&& claim.shared() == inner
                &&& self@.registered(claim.number(), f, later.0@)
                &&& exists|callback: Callback| #[trigger]
                    callback.holds(f) && self.leads_to(
                        Some(Event::Register(claim.number(), callback)),
                        later.0,
                    )
            },
    {
        proof {
            use_type_invariant(&self);
        }
        let Kept { state, log } = self;
        let ghost found = state@;
        let (state, registered) = state.register(f);
        match registered {
            Registered::Stored(key) => {
                let ghost callback = choose|callback: Callback| #[trigger]
                    callback.holds(f) && state@ == found.register(key.number(), callback);
                let ghost event = Event::Register(key.number(), callback);
                assert(admits(found, event));
                let kept = logged(state, log, Ghost(Some(event)));
                assert(self.leads_to(Some(event), kept));
                (kept, Answer::Stored(Claim { key, shared: Ghost(inner) }))
            },
            Registered::RunNow(f) => (Kept { state, log }, Answer::RunNow(f)),
        }
    }

    /// Gives up a registration. Its callback is taken out if it is stored.
    pub(crate) fn release(self, claim: Claim) -> (later: (Self, Option<Callback>))
        ensures
            self@.has_key(claim.number()) ==> self.leads_to(
                Some(Event::Release(claim.number())),
                later.0,
            ) && later.0@ == self@.release(claim.number()),
            !self@.has_key(claim.number()) ==> self.leads_to(None, later.0),
    {
        proof {
            use_type_invariant(&self);
        }
        let Kept { state, log } = self;
        if state.is_cancelled() || !state.holds(&claim.key) {
            (Kept { state, log }, None)
        } else {
            let ghost found = state@;
            let ghost event = Event::Release(claim.number());
            assert(admits(found, event));
            let (state, callback) = state.release(claim.key);
            (logged(state, log, Ghost(Some(event))), callback)
        }
    }

    /// Polls a future, in its seat: ready if the cancellation has happened; otherwise pending, and
    /// the future waits through a waker. `copy` is a clone of the waker, to be kept; where it is
    /// needed and missing, nothing changes. Wakers that are not kept are handed back.
    pub(crate) fn poll(self, seat: Seat, waker: &Waker, copy: Option<Waker>) -> (later: (
        Self,
        Waited,
        (Option<Waker>, Option<Waker>),
    ))
        requires
            copy matches Some(copy) ==> cloned(*waker, copy),
        ensures
            later.1 matches Waited::Ready(same) ==> {
                &&& same.shared() == seat.shared()
                &&& same.key() is None
                &&& self.leads_to(None, later.0)
                &&& self@.polled(seat.key(), *waker, later.0@, None, Progress::Ready)
            },
            later.1 matches Waited::Pending(same) ==> {
                &&& same.shared() == seat.shared()
                &&& self.moved(seat.key(), later.0)
                &&& self@.polled(seat.key(), *waker, later.0@, same.key(), Progress::Pending)
            },
            later.1 matches Waited::CloneFirst(same) ==> {
                &&& self.leads_to(None, later.0)
                &&& same == seat
                &&& copy is None
                &&& !self@.cancelled
                &&& unknown(self@.waiting, *waker)
            },
    {
        proof {
            use_type_invariant(&self);
        }
        let Kept { state, log } = self;
        let ghost found = state@;
        let Seat { key: slot, shared } = seat;
        let (state, polled, spare) = state.poll(slot, waker, copy);
        match polled {
            Polled::Ready => (
                Kept { state, log },
                Waited::Ready(Seat { key: None, shared }),
                spare,
            ),
            Polled::CloneFirst => (
                Kept { state, log },
                Waited::CloneFirst(Seat { key: slot, shared }),
                spare,
            ),
            Polled::Pending(key) => {
                proof {
                    lemma_poll_is_event(
                        found,
                        slot,
                        *waker,
                        state@,
                        Some(key),
                        Progress::Pending,
                    );
                }
                let ghost same = slot == Some(key) && state@ == found;
                let ghost joins = admits(found, Event::Join(slot, key)) && state@ == next(
                    found,
                    Event::Join(slot, key),
                );
                let ghost kept_copy = choose|copy: Waker| #[trigger]
                    admits(found, Event::Watch(slot, key, *waker, copy)) && state@ == next(
                        found,
                        Event::Watch(slot, key, *waker, copy),
                    );
                let ghost event = if same {
                    None
                } else if joins {
                    Some(Event::Join(slot, key))
                } else {
                    Some(Event::Watch(slot, key, *waker, kept_copy))
                };
                let kept = logged(state, log, Ghost(event));
                assert(self.leads_to(event, kept));
                assert(moves(event, seat.key()));
                assert(self.moved(seat.key(), kept));
                (kept, Waited::Pending(Seat { key: Some(key), shared }), spare)
            },
        }
    }
}

/// No event, or one in which a future that waited through the waker under `slot` comes to wait
/// through another.
pub open spec fn moves(event: Option<Event>, slot: Option<usize>) -> bool {
    event matches Some(event) ==> match event {
        Event::Join(from, _) => from == slot,
        Event::Watch(from, _, _, _) => from == slot,
        _ => false,
    }
}

/// The state with one more event in its log or with none.
fn logged(
    state: State,
    Ghost(log): Ghost<Seq<Event>>,
    Ghost(event): Ghost<Option<Event>>,
) -> (kept: Kept)
    requires
        possible(StateView::initial(), log),
        after(StateView::initial(), log).wf(),
        event matches Some(event) ==> admits(after(StateView::initial(), log), event) && state@
            == next(after(StateView::initial(), log), event),
        event is None ==> state@ == after(StateView::initial(), log),
    ensures
        kept@ == state@,
        kept.log() == match event {
            Some(event) => log.push(event),
            None => log,
        },
{
    let ghost longer = match event {
        Some(event) => log.push(event),
        None => log,
    };
    proof {
        if event is Some {
            assert(longer.drop_last() =~= log);
            assert(possible(StateView::initial(), longer));
            law_wf_kept(StateView::initial(), Seq::empty());
            law_wf_kept(StateView::initial(), longer);
        }
    }
    Kept { state, log: Ghost(longer) }
}

} // verus!
