use core::task::Waker;
use vstd::prelude::*;

use crate::action::Action;
use crate::callback::Callback;
use crate::event::{admits, lemma_wf_next, next, step, Event};
use crate::keyed::{has_key, lemma_place, lemma_removed, place_of};
use crate::state::{Progress, StateView};
use crate::waiting::{joined, left, lemma_joined, lemma_left, waiting_wf, Waiter};

verus! {

/// The state after a history of events.
pub open spec fn after(state: StateView, events: Seq<Event>) -> StateView
    decreases events.len(),
{
    if events.len() == 0 {
        state
    } else {
        next(after(state, events.drop_last()), events.last())
    }
}

/// Whether each event of a history can happen where it does.
pub open spec fn possible(state: StateView, events: Seq<Event>) -> bool
    decreases events.len(),
{
    events.len() > 0 ==> {
        &&& possible(state, events.drop_last())
        &&& admits(after(state, events.drop_last()), events.last())
    }
}

/// Whether the callback under `first` was registered before the one under `second`, where both
/// are stored.
pub open spec fn before(state: StateView, first: usize, second: usize) -> bool {
    exists|i: int, j: int|
        0 <= i < j < state.callbacks.len() && (#[trigger] state.callbacks[i]).0 == first && (
        #[trigger] state.callbacks[j]).0 == second
}

/// The callback that is stored under `key`.
pub open spec fn callback_of(state: StateView, key: usize) -> Callback
    recommends
        state.has_key(key),
{
    state.callbacks[place_of(state.callbacks, key)].1
}

/// Neither a cancellation nor the giving up of the registration with the key `key`.
pub open spec fn spares(event: Event, key: usize) -> bool {
    event != Event::Cancel && event != Event::Release(key)
}

/// A new state is well-formed, and every event keeps a state so: keys stay distinct, stored
/// callbacks stay callable, wakers stay told apart from one another, and a cancelled state stores
/// nothing.
pub proof fn law_wf_kept(state: StateView, events: Seq<Event>)
    requires
        state.wf(),
        possible(state, events),
    ensures
        StateView::initial().wf(),
        after(state, events).wf(),
    decreases events.len(),
{
    if events.len() > 0 {
        law_wf_kept(state, events.drop_last());
        lemma_wf_next(after(state, events.drop_last()), events.last());
    }
}

/// The states that follow one another in the shared cell make up a history: where each is the one
/// that an operation found and the next the one that it left, events that can happen lead from
/// the first to the last.
pub proof fn law_steps_are_history(states: Seq<StateView>)
    requires
        states.len() > 0,
        forall|i: int|
            0 <= i < states.len() - 1 ==> step(#[trigger] states[i], states[i + 1]),
    ensures
        exists|events: Seq<Event>| #[trigger]
            possible(states[0], events) && after(states[0], events) == states.last(),
    decreases states.len(),
{
    if states.len() == 1 {
        let none = Seq::<Event>::empty();
        assert(possible(states[0], none) && after(states[0], none) == states.last());
    } else {
        let earlier = states.drop_last();
        assert forall|i: int| 0 <= i < earlier.len() - 1 implies step(
            #[trigger] earlier[i],
            earlier[i + 1],
        ) by {
            assert(step(states[i], states[i + 1]));
        }
        law_steps_are_history(earlier);
        let events = choose|events: Seq<Event>| #[trigger]
            possible(states[0], events) && after(states[0], events) == earlier.last();
        let last = states.len() - 2;
        assert(step(states[last], states[last + 1]));
        if states[last] == states[last + 1] {
            assert(possible(states[0], events) && after(states[0], events) == states.last());
        } else {
            let event = choose|event: Event| #[trigger]
                admits(states[last], event) && states[last + 1] == next(states[last], event);
            let longer = events.push(event);
            assert(longer.drop_last() =~= events);
            assert(possible(states[0], longer) && after(states[0], longer) == states.last());
        }
    }
}

/// Cancellation is idempotent: a second one changes nothing and asks for nothing.
pub proof fn law_cancel_idempotent(state: StateView)
    ensures
        state.cancel().cancelled,
        state.cancel().cancel() == state.cancel(),
        state.cancel().cancel_actions() == Seq::<Action>::empty(),
{
}

/// Cancellation is for good: whatever happens afterwards, the state stays cancelled and as it is,
/// and no later cancellation asks for anything. So no callback is called, and no task woken, a
/// second time.
pub proof fn law_cancelled_for_good(state: StateView, events: Seq<Event>)
    requires
        state.wf(),
        state.cancelled,
    ensures
        after(state, events) == state,
        after(state, events).cancel_actions() == Seq::<Action>::empty(),
    decreases events.len(),
{
    if events.len() > 0 {
        law_cancelled_for_good(state, events.drop_last());
    }
}

/// A state is cancelled after a history if and only if it was before or the source has cancelled
/// since: nothing else cancels.
pub proof fn law_cancelled_iff_cancel(state: StateView, events: Seq<Event>)
    ensures
        after(state, events).cancelled <==> state.cancelled || events.contains(Event::Cancel),
    decreases events.len(),
{
    if events.len() > 0 {
        let earlier = events.drop_last();
        law_cancelled_iff_cancel(state, earlier);
        if earlier.contains(Event::Cancel) {
            let i = earlier.index_of(Event::Cancel);
            assert(events[i] == Event::Cancel);
        }
        if events.contains(Event::Cancel) && events.last() != Event::Cancel {
            let i = events.index_of(Event::Cancel);
            assert(earlier[i] == Event::Cancel);
        }
        if events.last() == Event::Cancel {
            assert(events[events.len() - 1] == Event::Cancel);
        }
    }
}

/// Giving a registration up undoes it: the state is what it was before the callback was
/// registered, so a cancellation asks for the same.
pub proof fn law_release_undoes_register(state: StateView, key: usize, callback: Callback)
    requires
        !state.cancelled,
        !state.has_key(key),
    ensures
        state.register(key, callback).has_key(key),
        state.register(key, callback).release(key) == state,
{
    let registered = state.register(key, callback);
    let last = state.callbacks.len() as int;
    assert(registered.callbacks[last].0 == key);
    let place = place_of(registered.callbacks, key);
    if place < last {
        assert(state.callbacks[place].0 == key);
    }
    assert(registered.release(key) =~= state);
}

/// Giving a registration up takes its callback away, and leaves every other callback stored under
/// its key.
pub proof fn law_release_removes_one(state: StateView, key: usize, other: usize)
    requires
        state.wf(),
        !state.cancelled,
        state.has_key(key),
    ensures
        !state.release(key).has_key(key),
        other != key ==> (state.release(key).has_key(other) <==> state.has_key(other)),
        other != key && state.has_key(other) ==> callback_of(state.release(key), other)
            == callback_of(state, other),
{
    lemma_removed(state.callbacks, place_of(state.callbacks, key));
}

/// A stored callback stays stored under its key until its registration is given up or the source
/// cancels, whatever else happens. So the key of a registration is in use when it is given up.
pub proof fn law_stored_until_released_or_cancelled(
    state: StateView,
    events: Seq<Event>,
    key: usize,
)
    requires
        state.wf(),
        !state.cancelled,
        possible(state, events),
        state.has_key(key),
        forall|i: int| 0 <= i < events.len() ==> spares(#[trigger] events[i], key),
    ensures
        !after(state, events).cancelled,
        after(state, events).has_key(key),
        callback_of(after(state, events), key) == callback_of(state, key),
    decreases events.len(),
{
    if events.len() > 0 {
        let earlier = events.drop_last();
        assert forall|i: int| 0 <= i < earlier.len() implies spares(#[trigger] earlier[i], key) by {
            assert(earlier[i] == events[i]);
        }
        law_stored_until_released_or_cancelled(state, earlier, key);
        law_wf_kept(state, earlier);
        let s = after(state, earlier);
        assert(spares(events[events.len() - 1], key));
        match events.last() {
            Event::Register(new_key, callback) => {
                let t = s.register(new_key, callback);
                let i = place_of(s.callbacks, key);
                assert(t.callbacks[i].0 == key);
                let j = place_of(t.callbacks, key);
                if j == s.callbacks.len() {
                    assert(new_key == key);
                }
                assert(s.callbacks[j].0 == key);
            },
            Event::Release(other) => {
                law_release_removes_one(s, other, key);
            },
            _ => {},
        }
    }
}

/// A callback that was given a place before another keeps it: as long as neither registration is
/// given up and the source does not cancel, the one registered first comes first.
pub proof fn law_registration_order_kept(
    state: StateView,
    events: Seq<Event>,
    first: usize,
    second: usize,
)
    requires
        state.wf(),
        !state.cancelled,
        possible(state, events),
        before(state, first, second),
        forall|i: int|
            0 <= i < events.len() ==> spares(#[trigger] events[i], first) && spares(
                events[i],
                second,
            ),
    ensures
        before(after(state, events), first, second),
    decreases events.len(),
{
    let (i, j) = choose|i: int, j: int|
        0 <= i < j < state.callbacks.len() && (#[trigger] state.callbacks[i]).0 == first && (
        #[trigger] state.callbacks[j]).0 == second;
    assert(state.has_key(first) && state.has_key(second));
    if events.len() > 0 {
        let earlier = events.drop_last();
        assert forall|i: int| 0 <= i < earlier.len() implies spares(#[trigger] earlier[i], first)
            && spares(earlier[i], second) by {
            assert(earlier[i] == events[i]);
        }
        law_registration_order_kept(state, earlier, first, second);
        law_stored_until_released_or_cancelled(state, earlier, first);
        law_wf_kept(state, earlier);
        let s = after(state, earlier);
        let (a, b) = choose|a: int, b: int|
            0 <= a < b < s.callbacks.len() && (#[trigger] s.callbacks[a]).0 == first && (
            #[trigger] s.callbacks[b]).0 == second;
        let t = next(s, events.last());
        assert(spares(events[events.len() - 1], first));
        assert(spares(events[events.len() - 1], second));
        match events.last() {
            Event::Release(other) => {
                let place = place_of(s.callbacks, other);
                assert(s.callbacks[place].0 == other);
                let a1 = if a < place { a } else { a - 1 };
                let b1 = if b < place { b } else { b - 1 };
                assert(t.callbacks[a1] == s.callbacks[a]);
                assert(t.callbacks[b1] == s.callbacks[b]);
            },
            _ => {
                assert(t.callbacks[a] == s.callbacks[a]);
                assert(t.callbacks[b] == s.callbacks[b]);
            },
        }
    }
}

/// A new callback comes behind all that are stored, whatever key it gets.
pub proof fn law_new_callback_is_last(
    state: StateView,
    key: usize,
    callback: Callback,
    other: usize,
)
    requires
        state.has_key(other),
    ensures
        before(state.register(key, callback), other, key),
{
    let registered = state.register(key, callback);
    let i = place_of(state.callbacks, other);
    assert(registered.callbacks[i].0 == other);
    assert(registered.callbacks[state.callbacks.len() as int].0 == key);
}

/// A cancellation asks for each stored callback exactly once, in registration order, then for
/// each waiting task exactly once, and for nothing else.
pub proof fn law_cancel_asks_once_in_order(state: StateView)
    requires
        !state.cancelled,
    ensures
        state.cancel_actions().len() == state.callbacks.len() + state.waiting.len(),
        forall|i: int|
            0 <= i < state.callbacks.len() ==> #[trigger] state.cancel_actions()[i] == Action::Run(
                state.callbacks[i].1,
            ),
        forall|i: int|
            0 <= i < state.waiting.len() ==> #[trigger] state.cancel_actions()[state.callbacks.len()
                + i] == Action::Wake(state.waiting[i].1.waker),
{
}

/// A stored callback whose registration is not given up is called upon cancellation: whatever
/// happened between, the cancellation asks for it at exactly one place, that of its registration.
pub proof fn law_stored_is_called(
    state: StateView,
    key: usize,
    callback: Callback,
    events: Seq<Event>,
)
    requires
        state.wf(),
        !state.cancelled,
        admits(state, Event::Register(key, callback)),
        possible(state.register(key, callback), events),
        forall|i: int| 0 <= i < events.len() ==> spares(#[trigger] events[i], key),
    ensures
        ({
            let last = after(state.register(key, callback), events);
            let place = place_of(last.callbacks, key);
            &&& 0 <= place < last.callbacks.len()
            &&& last.cancel_actions()[place] == Action::Run(callback)
            &&& forall|i: int|
                0 <= i < last.callbacks.len() && (#[trigger] last.callbacks[i]).0 == key ==> i
                    == place
        }),
{
    let registered = state.register(key, callback);
    assert(registered.callbacks[state.callbacks.len() as int].0 == key);
    let one = seq![Event::Register(key, callback)];
    assert(one.drop_last() =~= Seq::<Event>::empty());
    reveal_with_fuel(after, 2);
    reveal_with_fuel(possible, 2);
    assert(after(state, one) == registered);
    law_wf_kept(state, one);
    law_stored_until_released_or_cancelled(registered, events, key);
    law_wf_kept(registered, events);
    assert(callback_of(registered, key) == callback) by {
        let place = place_of(registered.callbacks, key);
        if place < state.callbacks.len() {
            assert(state.callbacks[place].0 == key);
        }
    }
}

/// A registered closure whose registration is not given up is called exactly once upon
/// cancellation: whatever happened between, the cancellation asks at exactly one place to call the
/// callback that holds it, and a later cancellation asks for nothing.
pub proof fn law_registered_is_called_once<F: FnOnce()>(
    state: StateView,
    key: usize,
    f: F,
    registered: StateView,
    events: Seq<Event>,
)
    requires
        state.wf(),
        !state.cancelled,
        call_requires(f, ()),
        state.registered(key, f, registered),
        possible(registered, events),
        forall|i: int| 0 <= i < events.len() ==> spares(#[trigger] events[i], key),
    ensures
        ({
            let last = after(registered, events);
            let place = place_of(last.callbacks, key);
            &&& 0 <= place < last.callbacks.len()
            &&& last.cancel_actions()[place] matches Action::Run(callback) && callback.holds(f)
            &&& forall|i: int|
                0 <= i < last.callbacks.len() && (#[trigger] last.callbacks[i]).0 == key ==> i
                    == place
            &&& last.cancel().cancel_actions() == Seq::<Action>::empty()
        }),
{
    let callback = choose|callback: Callback| #[trigger]
        callback.holds(f) && registered == state.register(key, callback);
    law_stored_is_called(state, key, callback, events);
}

/// Callbacks are called in registration order: of two callbacks, the one registered first is asked
/// for first by the cancellation, whatever keys they have and whatever happened between, as long
/// as neither registration was given up.
pub proof fn law_called_in_registration_order(
    state: StateView,
    first: usize,
    second: usize,
    callback: Callback,
    events: Seq<Event>,
)
    requires
        state.wf(),
        !state.cancelled,
        state.has_key(first),
        admits(state, Event::Register(second, callback)),
        possible(state.register(second, callback), events),
        forall|i: int|
            0 <= i < events.len() ==> spares(#[trigger] events[i], first) && spares(
                events[i],
                second,
            ),
    ensures
        ({
            let last = after(state.register(second, callback), events);
            exists|i: int, j: int|
                #![trigger last.cancel_actions()[i], last.cancel_actions()[j]]
                {
                    &&& 0 <= i < j < last.callbacks.len()
                    &&& last.callbacks[i].0 == first
                    &&& last.cancel_actions()[i] == Action::Run(callback_of(state, first))
                    &&& last.callbacks[j].0 == second
                    &&& last.cancel_actions()[j] == Action::Run(callback)
                }
        }),
{
    let registered = state.register(second, callback);
    let last = after(registered, events);
    law_new_callback_is_last(state, second, callback, first);
    law_stored_is_called(state, second, callback, events);
    let one = seq![Event::Register(second, callback)];
    assert(one.drop_last() =~= Seq::<Event>::empty());
    reveal_with_fuel(after, 2);
    reveal_with_fuel(possible, 2);
    assert(after(state, one) == registered);
    law_stored_until_released_or_cancelled(state, one, first);
    law_wf_kept(state, one);
    law_registration_order_kept(registered, events, first, second);
    law_stored_until_released_or_cancelled(registered, events, first);
    law_wf_kept(registered, events);
    let (i, j) = choose|i: int, j: int|
        0 <= i < j < last.callbacks.len() && (#[trigger] last.callbacks[i]).0 == first && (
        #[trigger] last.callbacks[j]).0 == second;
    assert(place_of(last.callbacks, first) == i);
    assert(place_of(last.callbacks, second) == j);
    assert(last.cancel_actions()[i] == Action::Run(callback_of(state, first)));
    assert(last.cancel_actions()[j] == Action::Run(callback));
}

/// Every callback that is stored after a history was stored before it, under the same key, or was
/// registered in it under that key.
pub proof fn law_stored_was_registered(state: StateView, events: Seq<Event>, place: int)
    requires
        0 <= place < after(state, events).callbacks.len(),
        possible(state, events),
    ensures
        ({
            let (key, callback) = after(state, events).callbacks[place];
            ||| state.callbacks.contains((key, callback))
            ||| events.contains(Event::Register(key, callback))
        }),
    decreases events.len(),
{
    let entry = after(state, events).callbacks[place];
    if events.len() == 0 {
        assert(state.callbacks[place] == entry);
    } else {
        let earlier = events.drop_last();
        let s = after(state, earlier);
        let last = events.last();
        assert(events[events.len() - 1] == last);
        if last == Event::Register(entry.0, entry.1) {
        } else {
            let i = match last {
                Event::Release(key) => if !s.cancelled && place >= place_of(s.callbacks, key) {
                    place + 1
                } else {
                    place
                },
                _ => place,
            };
            assert(s.callbacks[i] == entry);
            law_stored_was_registered(state, earlier, i);
            if earlier.contains(Event::Register(entry.0, entry.1)) {
                let j = earlier.index_of(Event::Register(entry.0, entry.1));
                assert(events[j] == Event::Register(entry.0, entry.1));
            }
        }
    }
}

/// A callback whose registration was given up is not asked for by a cancellation: whatever happens
/// afterwards, each callback that the cancellation asks for had another key when the registration
/// was given up, or was registered later.
pub proof fn law_released_is_not_called(state: StateView, key: usize, events: Seq<Event>, place: int)
    requires
        state.wf(),
        !state.cancelled,
        state.has_key(key),
        possible(state.release(key), events),
        !after(state.release(key), events).cancelled,
        0 <= place < after(state.release(key), events).callbacks.len(),
    ensures
        ({
            let last = after(state.release(key), events);
            let (used, callback) = last.callbacks[place];
            &&& last.cancel_actions()[place] == Action::Run(callback)
            &&& {
                ||| used != key && state.callbacks.contains((used, callback))
                ||| events.contains(Event::Register(used, callback))
            }
        }),
{
    let released = state.release(key);
    let at = place_of(state.callbacks, key);
    let (used, callback) = after(released, events).callbacks[place];
    law_stored_was_registered(released, events, place);
    if released.callbacks.contains((used, callback)) {
        let i = released.callbacks.index_of((used, callback));
        let i0 = if i < at { i } else { i + 1 };
        assert(state.callbacks[i0] == (used, callback));
        assert(state.callbacks[i0].0 != state.callbacks[at].0);
    }
}

/// A callback that is registered while a cancellation is under way, or later, is called at once
/// and not stored: from the moment on at which the source has cancelled, whatever has happened
/// since, the state is cancelled, registering changes nothing, and polling is ready.
pub proof fn law_answered_at_once_after_cancel(
    state: StateView,
    events: Seq<Event>,
    key: usize,
    callback: Callback,
)
    requires
        possible(state.cancel(), events),
    ensures
        ({
            let now = after(state.cancel(), events);
            &&& now.cancelled
            &&& now == state.cancel()
            &&& !now.has_key(key)
            &&& next(now, Event::Register(key, callback)) == now
            &&& forall|slot: Option<usize>, waker: Waker, polled: StateView, new_slot: Option<
                usize,
            >, progress: Progress| #[trigger]
                now.polled(slot, waker, polled, new_slot, progress) ==> progress
                    == Progress::Ready && polled == now
        }),
{
    law_cancelled_for_good(state.cancel(), events);
}

/// A poll is ready if and only if the state is cancelled. It leaves the cancellation and the
/// callbacks as they are.
pub proof fn law_poll(
    state: StateView,
    slot: Option<usize>,
    waker: Waker,
    polled: StateView,
    new_slot: Option<usize>,
    progress: Progress,
)
    requires
        state.polled(slot, waker, polled, new_slot, progress),
    ensures
        progress == Progress::Ready <==> state.cancelled,
        new_slot is Some <==> !state.cancelled,
        polled.cancelled == state.cancelled,
        polled.callbacks == state.callbacks,
{
}

/// Whether the waker under `first` came before the one under `second`, where both are kept.
pub open spec fn waits_before(waiting: Seq<(usize, Waiter)>, first: usize, second: usize) -> bool {
    exists|i: int, j: int|
        0 <= i < j < waiting.len() && (#[trigger] waiting[i]).0 == first && (
        #[trigger] waiting[j]).0 == second
}

/// The event leaves the waker under `key` where it is: neither a cancellation nor the last of its
/// futures takes it away.
pub open spec fn keeps_waker(state: StateView, event: Event, key: usize) -> bool {
    match event {
        Event::Cancel => false,
        Event::Join(slot, _) => has_key(left(state.waiting, slot), key),
        Event::Watch(slot, _, _, _) => has_key(left(state.waiting, slot), key),
        _ => true,
    }
}

/// The waker under `key` stays through a history.
pub open spec fn waker_stays(state: StateView, events: Seq<Event>, key: usize) -> bool
    decreases events.len(),
{
    events.len() > 0 ==> {
        &&& waker_stays(state, events.drop_last(), key)
        &&& keeps_waker(after(state, events.drop_last()), events.last(), key)
    }
}

/// Where a future leaves its waker, two wakers that stay keep their order.
proof fn lemma_left_keeps_order(
    waiting: Seq<(usize, Waiter)>,
    slot: Option<usize>,
    first: usize,
    second: usize,
)
    requires
        waits_before(waiting, first, second),
        has_key(left(waiting, slot), first),
        has_key(left(waiting, slot), second),
        waiting_wf(waiting),
    ensures
        waits_before(left(waiting, slot), first, second),
{
    let rest = left(waiting, slot);
    let (i, j) = choose|i: int, j: int|
        0 <= i < j < waiting.len() && (#[trigger] waiting[i]).0 == first && (
        #[trigger] waiting[j]).0 == second;
    if rest.len() < waiting.len() {
        let place = place_of(waiting, slot->0);
        lemma_removed(waiting, place);
        let i1 = if i < place { i } else { i - 1 };
        let j1 = if j < place { j } else { j - 1 };
        assert(rest[i1] == waiting[i]);
        assert(rest[j1] == waiting[j]);
    } else {
        assert(rest[i].0 == first);
        assert(rest[j].0 == second);
    }
}

/// Tasks are woken in the order in which their wakers came: of two wakers that stay, the one that
/// came first stays before the other, so the cancellation asks for it first.
pub proof fn law_woken_in_order(
    state: StateView,
    events: Seq<Event>,
    first: usize,
    second: usize,
)
    requires
        state.wf(),
        !state.cancelled,
        possible(state, events),
        waits_before(state.waiting, first, second),
        waker_stays(state, events, first),
        waker_stays(state, events, second),
    ensures
        ({
            let last = after(state, events);
            let i = place_of(last.waiting, first);
            let j = place_of(last.waiting, second);
            &&& !last.cancelled
            &&& waits_before(last.waiting, first, second)
            &&& 0 <= i < j < last.waiting.len()
            &&& last.waiting[i].1.waker == state.waiting[place_of(state.waiting, first)].1.waker
            &&& last.waiting[j].1.waker == state.waiting[place_of(state.waiting, second)].1.waker
            &&& last.cancel_actions()[last.callbacks.len() + i] == Action::Wake(
                last.waiting[i].1.waker,
            )
            &&& last.cancel_actions()[last.callbacks.len() + j] == Action::Wake(
                last.waiting[j].1.waker,
            )
        }),
    decreases events.len(),
{
    let last = after(state, events);
    if events.len() > 0 {
        let earlier = events.drop_last();
        law_woken_in_order(state, earlier, first, second);
        law_wf_kept(state, earlier);
        let s = after(state, earlier);
        match events.last() {
            Event::Join(slot, key) => {
                lemma_left(s.waiting, slot);
                lemma_left_wakers(s.waiting, slot, first);
                lemma_left_wakers(s.waiting, slot, second);
                lemma_left_keeps_order(s.waiting, slot, first, second);
                let rest = left(s.waiting, slot);
                lemma_joined(rest, key);
                let (i, j) = choose|i: int, j: int|
                    0 <= i < j < rest.len() && (#[trigger] rest[i]).0 == first && (
                    #[trigger] rest[j]).0 == second;
                assert(joined(rest, key)[i].0 == first);
                assert(joined(rest, key)[j].0 == second);
            },
            Event::Watch(slot, key, _, copy) => {
                lemma_left(s.waiting, slot);
                lemma_left_wakers(s.waiting, slot, first);
                lemma_left_wakers(s.waiting, slot, second);
                lemma_left_keeps_order(s.waiting, slot, first, second);
                let rest = left(s.waiting, slot);
                let (i, j) = choose|i: int, j: int|
                    0 <= i < j < rest.len() && (#[trigger] rest[i]).0 == first && (
                    #[trigger] rest[j]).0 == second;
                lemma_place(rest, i);
                lemma_place(rest, j);
                assert(last.waiting[i] == rest[i]);
                assert(last.waiting[j] == rest[j]);
            },
            _ => {},
        }
    }
    law_wf_kept(state, events);
    let (i, j) = choose|i: int, j: int|
        0 <= i < j < last.waiting.len() && (#[trigger] last.waiting[i]).0 == first && (
        #[trigger] last.waiting[j]).0 == second;
    lemma_place(last.waiting, i);
    lemma_place(last.waiting, j);
}

/// Where a future leaves its waker, what stays is the same waker.
proof fn lemma_left_wakers(waiting: Seq<(usize, Waiter)>, slot: Option<usize>, key: usize)
    requires
        waiting_wf(waiting),
        has_key(left(waiting, slot), key),
    ensures
        has_key(waiting, key),
        left(waiting, slot)[place_of(left(waiting, slot), key)].1.waker
            == waiting[place_of(waiting, key)].1.waker,
{
    let rest = left(waiting, slot);
    lemma_left(waiting, slot);
    if slot == Some(key) {
        let place = place_of(waiting, key);
        if rest.len() < waiting.len() {
            lemma_removed(waiting, place);
        }
        assert(rest[place].0 == key);
        lemma_place(rest, place);
    }
}

/// A new waker comes behind all that stay, whatever key it gets.
pub proof fn law_new_waker_is_last(
    state: StateView,
    slot: Option<usize>,
    key: usize,
    waker: Waker,
    other: usize,
)
    requires
        has_key(left(state.waiting, slot), other),
    ensures
        waits_before(state.watch(slot, key, waker).waiting, other, key),
{
    let rest = left(state.waiting, slot);
    let after = state.watch(slot, key, waker).waiting;
    let i = place_of(rest, other);
    assert(after[i].0 == other);
    assert(after[rest.len() as int].0 == key);
}

/// The states of several sources after the event at one of them.
pub open spec fn next_at(states: Map<nat, StateView>, source: nat, event: Event) -> Map<
    nat,
    StateView,
> {
    states.insert(source, next(states[source], event))
}

/// The states of several sources after a history of events, each at one of them.
pub open spec fn after_all(states: Map<nat, StateView>, history: Seq<(nat, Event)>) -> Map<
    nat,
    StateView,
>
    decreases history.len(),
{
    if history.len() == 0 {
        states
    } else {
        next_at(after_all(states, history.drop_last()), history.last().0, history.last().1)
    }
}

/// The events of a history that happen at one source.
pub open spec fn events_at(history: Seq<(nat, Event)>, source: nat) -> Seq<Event>
    decreases history.len(),
{
    if history.len() == 0 {
        Seq::empty()
    } else if history.last().0 == source {
        events_at(history.drop_last(), source).push(history.last().1)
    } else {
        events_at(history.drop_last(), source)
    }
}

/// Sources do not affect one another: what becomes of a source follows from the events at that
/// source alone, so one that is cancelled leaves the others as they are.
pub proof fn law_sources_are_independent(
    states: Map<nat, StateView>,
    history: Seq<(nat, Event)>,
    source: nat,
)
    requires
        states.contains_key(source),
    ensures
        after_all(states, history).contains_key(source),
        after_all(states, history)[source] == after(states[source], events_at(history, source)),
    decreases history.len(),
{
    if history.len() > 0 {
        let earlier = history.drop_last();
        law_sources_are_independent(states, earlier, source);
        if history.last().0 == source {
            let events = events_at(history, source);
            assert(events.drop_last() =~= events_at(earlier, source));
        }
    }
}

} // verus!
