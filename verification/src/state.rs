use core::task::Waker;
use vstd::prelude::*;

use crate::action::Action;
use crate::callback::Callback;
use crate::callbacks::{Callbacks, Key};
use crate::keyed::{has_key, keys_distinct, place_of};
use crate::waiting::{
    joined, known_at, left, lemma_joined, lemma_left, lemma_watched, unknown, waiting_wf, watched,
    Waiter, Waiting,
};

verus! {

/// What polling the wait for a cancellation found.
#[derive(Debug, Copy, Clone, Eq, PartialEq, Structural)]
pub enum Progress {
    /// The cancellation has happened.
    Ready,
    /// It has not; the task will be woken when it does.
    Pending,
}

/// What polling comes to.
pub enum Polled {
    /// The cancellation has happened.
    Ready,
    /// It has not, and the future waits through the waker under this key.
    Pending(usize),
    /// It has not, and a clone of the waker has to be made, to be kept.
    CloneFirst,
}

/// What registering a callback comes to.
pub enum Registered<F> {
    /// The callback is stored under this key.
    Stored(Key),
    /// The cancellation has happened already: the callback is to be called now.
    RunNow(F),
}

/// The mathematical model of the shared state.
#[verifier::ext_equal]
pub struct StateView {
    /// Whether the cancellation has happened.
    pub cancelled: bool,
    /// The registered callbacks with their keys, in registration order.
    pub callbacks: Seq<(usize, Callback)>,
    /// The wakers of the waiting tasks with their keys, in the order in which they came.
    pub waiting: Seq<(usize, Waiter)>,
}

impl StateView {
    /// The state of a new source.
    pub open spec fn initial() -> Self {
        StateView { cancelled: false, callbacks: Seq::empty(), waiting: Seq::empty() }
    }

    /// Whether a callback is stored under `key`.
    pub open spec fn has_key(self, key: usize) -> bool {
        has_key(self.callbacks, key)
    }

    /// The state after a cancellation: nothing is stored any more.
    pub open spec fn cancel(self) -> Self {
        StateView { cancelled: true, callbacks: Seq::empty(), waiting: Seq::empty() }
    }

    /// What a cancellation asks for: the first one asks to call every stored callback, in
    /// registration order, and then to wake every waiting task; a later one asks for nothing.
    pub open spec fn cancel_actions(self) -> Seq<Action> {
        if self.cancelled {
            Seq::empty()
        } else {
            Seq::new(self.callbacks.len(), |i: int| Action::Run(self.callbacks[i].1)) + Seq::new(
                self.waiting.len(),
                |i: int| Action::Wake(self.waiting[i].1.waker),
            )
        }
    }

    /// The state after a callback was stored under `key`.
    pub open spec fn register(self, key: usize, callback: Callback) -> Self {
        StateView { callbacks: self.callbacks.push((key, callback)), ..self }
    }

    /// Storing the closure `f` under `key`, which no stored callback has, leads to `after`.
    pub open spec fn registered<F: FnOnce()>(self, key: usize, f: F, after: Self) -> bool {
        &&& !self.has_key(key)
        &&& exists|callback: Callback| #[trigger]
            callback.holds(f) && after == self.register(key, callback)
    }

    /// The state after the registration with the key `key` was given up.
    pub open spec fn release(self, key: usize) -> Self {
        if self.cancelled {
            self
        } else {
            StateView { callbacks: self.callbacks.remove(place_of(self.callbacks, key)), ..self }
        }
    }

    /// The state after a future has left the waker under the key `slot`, if there is one, and
    /// waits through the one under `key`.
    pub open spec fn join(self, slot: Option<usize>, key: usize) -> Self {
        if slot == Some(key) {
            self
        } else {
            StateView { waiting: joined(left(self.waiting, slot), key), ..self }
        }
    }

    /// The state after a future has left the waker under the key `slot`, if there is one, and
    /// waits through `waker`, which is kept under `key`.
    pub open spec fn watch(self, slot: Option<usize>, key: usize, waker: Waker) -> Self {
        StateView { waiting: watched(left(self.waiting, slot), key, waker), ..self }
    }

    /// Polling a future with `waker` finds `progress` in this state and leaves `after`. The future
    /// waited through the waker under the key `slot`, if there is one, and then waits through the
    /// one under the key `new_slot`: one that is said to wake the task of `waker`, if such a one
    /// is kept; otherwise a clone of `waker`.
    pub open spec fn polled(
        self,
        slot: Option<usize>,
        waker: Waker,
        after: Self,
        new_slot: Option<usize>,
        progress: Progress,
    ) -> bool {
        if self.cancelled {
            progress == Progress::Ready && after == self && new_slot is None
        } else {
            &&& progress == Progress::Pending
            &&& new_slot is Some
            &&& {
                ||| self.finds(slot, waker, after, new_slot->0)
                ||| self.keeps(slot, waker, after, new_slot->0)
            }
        }
    }

    /// A waker that is said to wake the task of `waker` is kept, the first under `key`, and the
    /// future comes to wait through it.
    pub open spec fn finds(
        self,
        slot: Option<usize>,
        waker: Waker,
        after: Self,
        key: usize,
    ) -> bool {
        &&& exists|place: int| #[trigger]
            known_at(self.waiting, waker, place) && self.waiting[place].0 == key
        &&& after == self.join(slot, key)
    }

    /// No waker that is said to wake the task of `waker` is kept, and the future comes to wait
    /// through a clone, which is kept under the new key `key`.
    pub open spec fn keeps(
        self,
        slot: Option<usize>,
        waker: Waker,
        after: Self,
        key: usize,
    ) -> bool {
        &&& unknown(self.waiting, waker)
        &&& !has_key(left(self.waiting, slot), key)
        &&& exists|copy: Waker| #[trigger]
            cloned(waker, copy) && after == self.watch(slot, key, copy)
    }

    /// What every reachable state keeps: each key belongs to one callback, each callback can be
    /// called, each waker was told apart from those that were kept before it, and nothing is
    /// stored once the cancellation has happened.
    pub open spec fn wf(self) -> bool {
        &&& keys_distinct(self.callbacks)
        &&& forall|i: int|
            0 <= i < self.callbacks.len() ==> (#[trigger] self.callbacks[i]).1.callable()
        &&& waiting_wf(self.waiting)
        &&& self.cancelled ==> self.callbacks.len() == 0 && self.waiting.len() == 0
    }
}

/// The state that a source shares with its tokens.
pub struct State {
    cancelled: bool,
    waiting: Waiting,
    callbacks: Callbacks,
}

impl View for State {
    type V = StateView;

    closed spec fn view(&self) -> StateView {
        StateView {
            cancelled: self.cancelled,
            callbacks: self.callbacks@,
            waiting: self.waiting@,
        }
    }
}

impl Default for State {
    fn default() -> (state: Self)
        ensures
            state@ == StateView::initial(),
    {
        State::new()
    }
}

impl State {
    /// What holds of every state.
    #[verifier::type_invariant]
    pub closed spec fn inv(&self) -> bool {
        &&& self.callbacks.wf()
        &&& self@.wf()
    }

    /// The model of every state is well-formed.
    pub proof fn lemma_wf(&self)
        requires
            self.inv(),
        ensures
            self@.wf(),
    {
    }

    /// The state of a new source: not cancelled, without callbacks and without waiting tasks.
    pub fn new() -> (state: Self)
        ensures
            state@ == StateView::initial(),
    {
        State { cancelled: false, waiting: Waiting::new(), callbacks: Callbacks::new() }
    }

    /// Whether the cancellation has happened.
    pub fn is_cancelled(&self) -> (cancelled: bool)
        ensures
            cancelled == self@.cancelled,
    {
        self.cancelled
    }

    /// Whether the cancellation has happened, the number of wakers and the number of stored
    /// callbacks.
    pub fn summary(&self) -> (fields: (bool, usize, usize))
        ensures
            fields.0 == self@.cancelled,
            fields.1 == self@.waiting.len(),
            fields.2 == self@.callbacks.len(),
    {
        proof {
            use_type_invariant(self);
        }
        (self.cancelled, self.waiting.len(), self.callbacks.len())
    }

    /// Cancels. Returns what is left to do, to be performed from the first action to the last.
    pub fn cancel(self) -> (after: (Self, Vec<Action>))
        ensures
            after.0@ == self@.cancel(),
            after.1@ == self@.cancel_actions(),
            forall|i: int| 0 <= i < after.1@.len() ==> (#[trigger] after.1@[i]).performable(),
    {
        proof {
            use_type_invariant(&self);
        }
        let ghost before = self@;
        let mut actions: Vec<Action> = Vec::new();
        if self.cancelled {
            assert(before.cancel() == before);
            return (self, actions);
        }
        let State { cancelled: _, mut waiting, mut callbacks } = self;
        let drained = callbacks.drain();
        let wakers = waiting.drain();
        for callback in it: drained
            invariant
                it.seq() == drained@,
                drained@.len() == before.callbacks.len(),
                forall|i: int|
                    0 <= i < drained@.len() ==> #[trigger] drained@[i] == before.callbacks[i].1,
                actions@ == Seq::new(
                    it.index() as nat,
                    |i: int| Action::Run(before.callbacks[i].1),
                ),
        {
            actions.push(Action::Run(callback));
        }
        for waker in it: wakers
            invariant
                it.seq() == wakers@,
                wakers@.len() == before.waiting.len(),
                forall|i: int|
                    0 <= i < wakers@.len() ==> #[trigger] wakers@[i] == before.waiting[i].1.waker,
                actions@ == Seq::new(
                    before.callbacks.len(),
                    |i: int| Action::Run(before.callbacks[i].1),
                ) + Seq::new(it.index() as nat, |i: int| Action::Wake(before.waiting[i].1.waker)),
        {
            actions.push(Action::Wake(waker));
        }
        (State { cancelled: true, waiting, callbacks }, actions)
    }

    /// Registers the closure `f` as a callback. It is stored if the cancellation has not happened,
    /// under a key that no other stored callback has, and handed back to be called at once if it
    /// has.
    pub fn register<F: FnOnce() + 'static>(self, f: F) -> (after: (Self, Registered<F>))
        requires
            call_requires(f, ()),
        ensures
            self@.cancelled ==> after.0@ == self@ && after.1 == Registered::RunNow(f),
            !self@.cancelled ==> (after.1 matches Registered::Stored(key) && self@.registered(
                key.number(),
                f,
                after.0@,
            )),
    {
        proof {
            use_type_invariant(&self);
        }
        if self.is_cancelled() {
            return (self, Registered::RunNow(f));
        }
        let State { cancelled, waiting, mut callbacks } = self;
        let callback = Callback::new(f);
        let ghost held = callback;
        let key = callbacks.insert(callback);
        proof {
            callbacks.lemma_keys_distinct();
            assert(held.holds(f));
        }
        (State { cancelled, waiting, callbacks }, Registered::Stored(key))
    }

    /// Whether a callback is stored under `key`.
    pub fn holds(&self, key: &Key) -> (held: bool)
        ensures
            held == self@.has_key(key.number()),
    {
        proof {
            use_type_invariant(self);
        }
        self.callbacks.contains(key)
    }

    /// Gives up the registration with the key `key`. Its callback is taken out if the cancellation
    /// has not happened; otherwise it was taken out before, and nothing changes.
    pub fn release(self, key: Key) -> (after: (Self, Option<Callback>))
        requires
            self@.cancelled || self@.has_key(key.number()),
        ensures
            after.0@ == self@.release(key.number()),
            self@.cancelled ==> after.1 is None,
            !self@.cancelled ==> after.1 == Some(
                self@.callbacks[place_of(self@.callbacks, key.number())].1,
            ),
    {
        proof {
            use_type_invariant(&self);
        }
        if self.is_cancelled() {
            return (self, None);
        }
        let State { cancelled, waiting, mut callbacks } = self;
        let callback = callbacks.remove(key);
        proof {
            callbacks.lemma_keys_distinct();
        }
        (State { cancelled, waiting, callbacks }, Some(callback))
    }

    /// Whether the cancellation has happened or a waker is kept that is said to wake the task of
    /// `waker`: a clone of `waker` is then not needed to poll with it.
    pub fn knows(&self, waker: &Waker) -> (known: bool)
        ensures
            known ==> self@.cancelled || exists|place: int| #[trigger]
                known_at(self@.waiting, *waker, place),
            !known ==> !self@.cancelled && unknown(self@.waiting, *waker),
    {
        if self.is_cancelled() {
            return true;
        }
        let found = self.waiting.find(waker);
        proof {
            if found is Some {
                let place = choose|place: int| #[trigger]
                    known_at(self.waiting@, *waker, place) && self.waiting@[place].0 == found->0;
                assert(known_at(self@.waiting, *waker, place));
            }
        }
        found.is_some()
    }

    /// Polls a future that waits through the waker under the key `slot`, if there is one.
    ///
    /// It is ready if the cancellation has happened. Otherwise it is pending, and waits through
    /// one waker: the first that is said to wake the task of `waker`, or else `copy`, a clone of
    /// `waker`. Where that clone is missing, nothing changes. A waker that is not kept is handed
    /// back: the one that the future has left last of all, and a clone that is not needed.
    pub fn poll(self, slot: Option<usize>, waker: &Waker, copy: Option<Waker>) -> (after: (
        Self,
        Polled,
        (Option<Waker>, Option<Waker>),
    ))
        requires
            copy matches Some(copy) ==> cloned(*waker, copy),
        ensures
            match after.1 {
                Polled::Ready => self@.cancelled && self@.polled(
                    slot,
                    *waker,
                    after.0@,
                    None,
                    Progress::Ready,
                ),
                Polled::Pending(key) => !self@.cancelled && self@.polled(
                    slot,
                    *waker,
                    after.0@,
                    Some(key),
                    Progress::Pending,
                ),
                Polled::CloneFirst => {
                    &&& !self@.cancelled
                    &&& copy is None
                    &&& unknown(self@.waiting, *waker)
                    &&& after.0@ == self@
                },
            },
            after.2.0 matches Some(gone) ==> after.1 is Pending && slot is Some && has_key(
                self@.waiting,
                slot->0,
            ) && gone == self@.waiting[place_of(self@.waiting, slot->0)].1.waker,
            after.2.0 is None && after.1 is Pending ==> after.0@ == self@ || left(
                self@.waiting,
                slot,
            ).len() == self@.waiting.len(),
            after.2.1 matches Some(unused) ==> copy == Some(unused),
            after.2.1 is None && copy is Some ==> after.1 is Pending && self@.keeps(
                slot,
                *waker,
                after.0@,
                after.1->0,
            ),
    {
        proof {
            use_type_invariant(&self);
        }
        if self.is_cancelled() {
            return (self, Polled::Ready, (None, copy));
        }
        let ghost before = self@;
        match self.waiting.find(waker) {
            Some(key) => {
                proof {
                    let place = choose|place: int| #[trigger]
                        known_at(before.waiting, *waker, place) && before.waiting[place].0 == key;
                    assert(has_key(before.waiting, before.waiting[place].0));
                }
                if slot == Some(key) {
                    assert(before.finds(slot, *waker, self@, key));
                    return (self, Polled::Pending(key), (None, copy));
                }
                let State { cancelled, mut waiting, callbacks } = self;
                proof {
                    lemma_left(waiting@, slot);
                }
                let gone = waiting.leave(slot);
                proof {
                    lemma_joined(waiting@, key);
                }
                waiting.join(key);
                let state = State { cancelled, waiting, callbacks };
                assert(before.finds(slot, *waker, state@, key));
                (state, Polled::Pending(key), (gone, copy))
            },
            None => match copy {
                Some(copy) => {
                    let State { cancelled, mut waiting, callbacks } = self;
                    proof {
                        lemma_left(waiting@, slot);
                    }
                    let gone = waiting.leave(slot);
                    let ghost kept = copy;
                    let ghost rest = waiting@;
                    assert(unknown(rest, *waker));
                    let key = waiting.watch(copy);
                    proof {
                        lemma_watched(rest, key, *waker, kept);
                    }
                    let state = State { cancelled, waiting, callbacks };
                    assert(state@ == before.watch(slot, key, kept));
                    assert(before.keeps(slot, *waker, state@, key));
                    (state, Polled::Pending(key), (gone, None))
                },
                None => (self, Polled::CloneFirst, (None, None)),
            },
        }
    }
}

} // verus!
