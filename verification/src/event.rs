use core::task::Waker;
use vstd::prelude::*;

use crate::callback::Callback;
use crate::keyed::{has_key, lemma_place, lemma_pushed, lemma_removed, place_of};
use crate::state::{Progress, StateView};
use crate::waiting::{known_at, left, lemma_joined, lemma_left, lemma_watched, unknown};

verus! {

/// One step that an operation makes on the shared state.
pub enum Event {
    /// The source cancels.
    Cancel,
    /// A callback is registered and, unless the cancellation has happened, stored under a key.
    Register(usize, Callback),
    /// The registration with a key is given up.
    Release(usize),
    /// A future leaves the waker under the first key, if there is one, and waits through the one
    /// under the second.
    Join(Option<usize>, usize),
    /// A future that is polled with the first waker leaves the waker under the first key, if there
    /// is one, and waits through the second waker, a clone of the first, which is kept under the
    /// second key.
    Watch(Option<usize>, usize, Waker, Waker),
}

/// Whether the event can happen where the cancellation has not: a new callback can be called and
/// gets a key that is not in use, the callback of a registration that is given up is stored, and a
/// future comes to wait through another waker that is kept, or through a clone of one that was
/// told apart from all that are kept. Where the cancellation has happened, every event can.
pub open spec fn admits(state: StateView, event: Event) -> bool {
    state.cancelled || match event {
        Event::Cancel => true,
        Event::Register(key, callback) => !state.has_key(key) && callback.callable(),
        Event::Release(key) => state.has_key(key),
        Event::Join(slot, key) => slot != Some(key) && has_key(state.waiting, key),
        Event::Watch(slot, key, asked, copy) => {
            &&& unknown(state.waiting, asked)
            &&& cloned(asked, copy)
            &&& !has_key(left(state.waiting, slot), key)
        },
    }
}

/// The state after the event. Nothing changes a state once the cancellation has happened.
pub open spec fn next(state: StateView, event: Event) -> StateView {
    if state.cancelled {
        state
    } else {
        match event {
            Event::Cancel => state.cancel(),
            Event::Register(key, callback) => state.register(key, callback),
            Event::Release(key) => state.release(key),
            Event::Join(slot, key) => state.join(slot, key),
            Event::Watch(slot, key, _, copy) => state.watch(slot, key, copy),
        }
    }
}

/// Nothing, or an event that can happen, leads from `before` to `after`.
pub open spec fn step(before: StateView, after: StateView) -> bool {
    before == after || exists|event: Event| #[trigger]
        admits(before, event) && after == next(before, event)
}

/// Every event keeps a state well-formed: keys stay distinct, stored callbacks stay callable,
/// wakers stay told apart, and a cancelled state stores nothing.
pub proof fn lemma_wf_next(state: StateView, event: Event)
    requires
        state.wf(),
        admits(state, event),
    ensures
        next(state, event).wf(),
{
    if !state.cancelled {
        let after = next(state, event);
        match event {
            Event::Cancel => {},
            Event::Register(key, callback) => {
                lemma_pushed(state.callbacks, (key, callback));
            },
            Event::Release(key) => {
                let place = place_of(state.callbacks, key);
                lemma_removed(state.callbacks, place);
                assert forall|i: int| 0 <= i < after.callbacks.len() implies (
                #[trigger] after.callbacks[i]).1.callable() by {
                    let i0 = if i < place { i } else { i + 1 };
                    assert(state.callbacks[i0] == after.callbacks[i]);
                }
            },
            Event::Join(slot, key) => {
                lemma_left(state.waiting, slot);
                lemma_joined(left(state.waiting, slot), key);
            },
            Event::Watch(slot, key, asked, copy) => {
                lemma_left(state.waiting, slot);
                assert(unknown(left(state.waiting, slot), asked));
                lemma_watched(left(state.waiting, slot), key, asked, copy);
            },
        }
    }
}

/// Cancelling is an event.
pub proof fn lemma_cancel_is_step(state: StateView)
    requires
        state.wf(),
    ensures
        step(state, state.cancel()),
{
    assert(admits(state, Event::Cancel));
    assert(state.cancel() == next(state, Event::Cancel));
}

/// Registering a closure where the cancellation has not happened is an event.
pub proof fn lemma_register_is_event<F: FnOnce()>(
    state: StateView,
    key: usize,
    f: F,
    registered: StateView,
)
    requires
        !state.cancelled,
        call_requires(f, ()),
        state.registered(key, f, registered),
    ensures
        step(state, registered),
        exists|callback: Callback|
            callback.holds(f) && #[trigger] admits(state, Event::Register(key, callback))
                && registered == next(state, Event::Register(key, callback)),
{
    let callback = choose|callback: Callback| #[trigger]
        callback.holds(f) && registered == state.register(key, callback);
    assert(admits(state, Event::Register(key, callback)));
}

/// Giving a registration up is an event.
pub proof fn lemma_release_is_step(state: StateView, key: usize)
    requires
        state.has_key(key),
    ensures
        step(state, state.release(key)),
{
    assert(admits(state, Event::Release(key)));
    assert(state.release(key) == next(state, Event::Release(key)));
}

/// Polling is an event, or changes nothing: the future keeps waiting through the waker that it
/// waited through, comes to wait through another that is kept, or brings a new one.
pub proof fn lemma_poll_is_event(
    state: StateView,
    slot: Option<usize>,
    waker: Waker,
    polled: StateView,
    new_slot: Option<usize>,
    progress: Progress,
)
    requires
        state.wf(),
        state.polled(slot, waker, polled, new_slot, progress),
    ensures
        step(state, polled),
        state.cancelled ==> polled == state && new_slot is None,
        !state.cancelled ==> (new_slot matches Some(key) && {
            ||| slot == new_slot && polled == state && has_key(state.waiting, key)
            ||| admits(state, Event::Join(slot, key)) && polled == next(
                state,
                Event::Join(slot, key),
            )
            ||| exists|copy: Waker| #[trigger]
                admits(state, Event::Watch(slot, key, waker, copy)) && polled == next(
                    state,
                    Event::Watch(slot, key, waker, copy),
                )
        }),
{
    if !state.cancelled {
        let key = new_slot->0;
        if state.finds(slot, waker, polled, key) {
            let place = choose|place: int| #[trigger]
                known_at(state.waiting, waker, place) && state.waiting[place].0 == key;
            lemma_place(state.waiting, place);
            if slot != Some(key) {
                assert(admits(state, Event::Join(slot, key)));
            }
        } else {
            let copy = choose|copy: Waker| #[trigger]
                cloned(waker, copy) && polled == state.watch(slot, key, copy);
            assert(admits(state, Event::Watch(slot, key, waker, copy)));
        }
    }
}

} // verus!
