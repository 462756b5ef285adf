use vstd::prelude::*;

use crate::action::Action;
use crate::callback::Callback;
use crate::event::{admits, lemma_wf_next, Event};
use crate::inner::kept::{moves, Kept};
use crate::inner::Inner;
use crate::keyed::{has_key, lemma_place, lemma_pushed, lemma_removed, place_of};
use crate::laws::{
    after, callback_of, law_called_in_registration_order, law_cancelled_iff_cancel,
    law_stored_is_called, law_stored_until_released_or_cancelled, law_wf_kept, possible, spares,
};
use crate::state::StateView;
use crate::waiting::{left, lemma_joined, lemma_left, lemma_watched, unknown};

verus! {

/// A history that is cut in two leads to the same state, by way of the state at the cut.
proof fn lemma_cut(state: StateView, events: Seq<Event>, at: int)
    requires
        0 <= at <= events.len(),
        possible(state, events),
    ensures
        possible(state, events.take(at)),
        possible(after(state, events.take(at)), events.skip(at)),
        after(state, events) == after(after(state, events.take(at)), events.skip(at)),
    decreases events.len(),
{
    if at == events.len() {
        assert(events.take(at) =~= events);
        assert(events.skip(at) =~= Seq::<Event>::empty());
    } else {
        let earlier = events.drop_last();
        lemma_cut(state, earlier, at);
        assert(earlier.take(at) =~= events.take(at));
        assert(events.skip(at).drop_last() =~= earlier.skip(at));
        assert(events.skip(at).last() == events.last());
    }
}

/// The callback that was registered as the event with the number `i` was not given up since.
pub open spec fn lives(log: Seq<Event>, i: int, key: usize, callback: Callback) -> bool {
    &&& 0 <= i < log.len()
    &&& log[i] == Event::Register(key, callback)
    &&& forall|j: int| i < j < log.len() ==> #[trigger] log[j] != Event::Release(key)
}

/// Nothing is lost between operations: a state that an operation finds is what its log makes of a
/// new state, so two operations that find the same log find the same state, and one that finds the
/// log that another has left finds the very state that the other has left.
pub proof fn law_log_tells_the_state(
    inner: Inner,
    found: Kept,
    left: Kept,
    other: Inner,
    found_next: Kept,
    left_next: Kept,
)
    requires
        inner.exchanged(found, left),
        other.exchanged(found_next, left_next),
    ensures
        found@ == after(StateView::initial(), found.log()),
        left@ == after(StateView::initial(), left.log()),
        found_next.log() == left.log() ==> found_next@ == left@,
        found_next.log() == found.log() ==> found_next@ == found@,
{
}

/// An operation forgets nothing: the log that it leaves begins with the log that it found, and has
/// at most one event more.
pub proof fn law_log_only_grows(inner: Inner, found: Kept, left: Kept)
    requires
        inner.exchanged(found, left),
    ensures
        found.log().len() <= left.log().len() <= found.log().len() + 1,
        forall|i: int|
            0 <= i < found.log().len() ==> #[trigger] left.log()[i] == found.log()[i],
        left.log().len() == found.log().len() ==> left@ == found@,
{
}

/// A state is found cancelled if and only if a source has cancelled before.
pub proof fn law_found_cancelled_iff_cancelled(inner: Inner, found: Kept, left: Kept)
    requires
        inner.exchanged(found, left),
    ensures
        found@.cancelled <==> found.log().contains(Event::Cancel),
        left@.cancelled <==> left.log().contains(Event::Cancel),
{
    law_cancelled_iff_cancel(StateView::initial(), found.log());
    law_cancelled_iff_cancel(StateView::initial(), left.log());
}

/// Before the cancellation, no event of the log is one.
proof fn lemma_not_cancelled(log: Seq<Event>, at: int)
    requires
        possible(StateView::initial(), log),
        !after(StateView::initial(), log).cancelled,
        0 <= at <= log.len(),
    ensures
        forall|j: int| 0 <= j < log.len() ==> #[trigger] log[j] != Event::Cancel,
        !after(StateView::initial(), log.take(at)).cancelled,
{
    law_cancelled_iff_cancel(StateView::initial(), log);
    law_cancelled_iff_cancel(StateView::initial(), log.take(at));
    assert forall|j: int| 0 <= j < log.len() implies #[trigger] log[j] != Event::Cancel by {
        if log[j] == Event::Cancel {
            assert(log.contains(Event::Cancel));
        }
    }
    if log.take(at).contains(Event::Cancel) {
        let j = log.take(at).index_of(Event::Cancel);
        assert(log[j] == Event::Cancel);
    }
}

/// Every callback that was ever registered on a state and not given up since is called by the
/// cancellation that finds the state, at exactly one place.
pub proof fn law_every_live_callback_is_called(
    found: Kept,
    i: int,
    key: usize,
    callback: Callback,
)
    requires
        found.told(),
        !found@.cancelled,
        lives(found.log(), i, key, callback),
    ensures
        ({
            let place = place_of(found@.callbacks, key);
            &&& 0 <= place < found@.callbacks.len()
            &&& found@.callbacks[place] == (key, callback)
            &&& found@.cancel_actions()[place] == Action::Run(callback)
            &&& forall|k: int|
                0 <= k < found@.callbacks.len() && (#[trigger] found@.callbacks[k]).0 == key ==> k
                    == place
        }),
{
    let log = found.log();
    let rest = log.skip(i + 1);
    let first = log.take(i + 1);
    let before = after(StateView::initial(), log.take(i));
    lemma_cut(StateView::initial(), log, i + 1);
    assert(first.drop_last() =~= log.take(i));
    lemma_not_cancelled(log, i);
    law_wf_kept(StateView::initial(), Seq::empty());
    law_wf_kept(StateView::initial(), log.take(i));
    assert(first.last() == Event::Register(key, callback));
    assert(after(StateView::initial(), first) == before.register(key, callback));
    assert forall|j: int| 0 <= j < rest.len() implies spares(#[trigger] rest[j], key) by {
        assert(rest[j] == log[i + 1 + j]);
    }
    law_stored_is_called(before, key, callback, rest);
    lemma_stays(before, key, callback, rest);
}

/// What is stored under the key of a new callback is that callback, until it is given up.
proof fn lemma_stays(
    state: StateView,
    key: usize,
    callback: Callback,
    events: Seq<Event>,
)
    requires
        state.wf(),
        !state.cancelled,
        admits(state, Event::Register(key, callback)),
        possible(state.register(key, callback), events),
        forall|i: int| 0 <= i < events.len() ==> spares(#[trigger] events[i], key),
    ensures
        after(state.register(key, callback), events).has_key(key),
        callback_of(after(state.register(key, callback), events), key) == callback,
{
    let registered = state.register(key, callback);
    lemma_pushed(state.callbacks, (key, callback));
    lemma_wf_next(state, Event::Register(key, callback));
    law_stored_until_released_or_cancelled(registered, events, key);
}

/// The cancellation calls nothing else: each callback that it asks for was registered on the state
/// and not given up since.
pub proof fn law_only_live_callbacks_are_called(found: Kept, place: int)
    requires
        found.told(),
        !found@.cancelled,
        0 <= place < found@.callbacks.len(),
    ensures
        found@.cancel_actions()[place] == Action::Run(found@.callbacks[place].1),
        exists|i: int| #[trigger]
            lives(found.log(), i, found@.callbacks[place].0, found@.callbacks[place].1),
{
    lemma_stored_lives(found.log(), place);
}

/// What a history has stored was registered in it and not given up since.
proof fn lemma_stored_lives(log: Seq<Event>, place: int)
    requires
        possible(StateView::initial(), log),
        0 <= place < after(StateView::initial(), log).callbacks.len(),
    ensures
        ({
            let (key, callback) = after(StateView::initial(), log).callbacks[place];
            exists|i: int| #[trigger] lives(log, i, key, callback)
        }),
    decreases log.len(),
{
    let now = after(StateView::initial(), log);
    let (key, callback) = now.callbacks[place];
    if log.len() > 0 {
        let earlier = log.drop_last();
        let before = after(StateView::initial(), earlier);
        let event = log.last();
        law_wf_kept(StateView::initial(), Seq::empty());
        law_wf_kept(StateView::initial(), earlier);
        if !before.cancelled && event is Register && place == before.callbacks.len() {
            assert(lives(log, log.len() - 1, key, callback));
        } else {
            let at = match event {
                Event::Release(other) => if !before.cancelled && place >= place_of(
                    before.callbacks,
                    other,
                ) {
                    place + 1
                } else {
                    place
                },
                _ => place,
            };
            assert(before.callbacks[at] == (key, callback));
            lemma_stored_lives(earlier, at);
            let i = choose|i: int| #[trigger] lives(earlier, i, key, callback);
            if event == Event::Release(key) && !before.cancelled {
                lemma_place(before.callbacks, at);
                assert(false);
            }
            assert(log[i] == earlier[i]);
            assert forall|j: int| i < j < log.len() implies #[trigger] log[j] != Event::Release(
                key,
            ) by {
                if j < earlier.len() {
                    assert(earlier[j] == log[j]);
                }
            }
            assert(lives(log, i, key, callback));
        }
    }
}

/// Of two callbacks that were registered on a state and not given up since, the cancellation that
/// finds the state calls the one first that was registered first.
pub proof fn law_live_callbacks_are_called_in_order(
    found: Kept,
    i: int,
    first: usize,
    one: Callback,
    j: int,
    second: usize,
    two: Callback,
)
    requires
        found.told(),
        !found@.cancelled,
        lives(found.log(), i, first, one),
        lives(found.log(), j, second, two),
        i < j,
    ensures
        place_of(found@.callbacks, first) < place_of(found@.callbacks, second),
{
    let log = found.log();
    let at_first = after(StateView::initial(), log.take(i));
    let at_second = after(StateView::initial(), log.take(j));
    let rest = log.skip(j + 1);
    law_every_live_callback_is_called(found, i, first, one);
    law_every_live_callback_is_called(found, j, second, two);
    lemma_cut(StateView::initial(), log, j + 1);
    lemma_cut(StateView::initial(), log, j);
    lemma_cut(StateView::initial(), log, i);
    lemma_not_cancelled(log, i);
    lemma_not_cancelled(log, j);
    law_wf_kept(StateView::initial(), Seq::empty());
    law_wf_kept(StateView::initial(), log.take(i));
    law_wf_kept(StateView::initial(), log.take(j));
    // The first callback is stored when the second is registered.
    let until = log.take(j);
    let between = until.skip(i + 1);
    lemma_cut(StateView::initial(), until, i + 1);
    assert(until.take(i + 1).drop_last() =~= log.take(i));
    assert(until.take(i + 1).last() == Event::Register(first, one));
    assert forall|k: int| 0 <= k < between.len() implies spares(#[trigger] between[k], first) by {
        assert(between[k] == log[i + 1 + k]);
    }
    lemma_stays(at_first, first, one, between);
    assert(at_second.has_key(first));
    // Both stay from then on.
    assert(log.take(j + 1).drop_last() =~= log.take(j));
    assert(log.take(j + 1).last() == Event::Register(second, two));
    assert forall|k: int| 0 <= k < rest.len() implies spares(#[trigger] rest[k], first) && spares(
        rest[k],
        second,
    ) by {
        assert(rest[k] == log[j + 1 + k]);
    }
    law_called_in_registration_order(at_second, first, second, two, rest);
    let (a, b) = choose|a: int, b: int|
        #![trigger found@.cancel_actions()[a], found@.cancel_actions()[b]]
        {
            &&& 0 <= a < b < found@.callbacks.len()
            &&& found@.callbacks[a].0 == first
            &&& found@.cancel_actions()[a] == Action::Run(callback_of(at_second, first))
            &&& found@.callbacks[b].0 == second
            &&& found@.cancel_actions()[b] == Action::Run(two)
        };
    lemma_place(found@.callbacks, a);
    lemma_place(found@.callbacks, b);
}

/// Registering leaves every callback that was stored where it was, and puts the new one behind
/// them; it leaves the waiting tasks alone and does not cancel.
pub proof fn law_register_adds_one(found: Kept, left: Kept, key: usize, callback: Callback)
    requires
        found.told(),
        !found@.cancelled,
        found.leads_to(Some(Event::Register(key, callback)), left),
    ensures
        left@.callbacks.len() == found@.callbacks.len() + 1,
        forall|i: int|
            0 <= i < found@.callbacks.len() ==> #[trigger] left@.callbacks[i]
                == found@.callbacks[i],
        left@.callbacks.last() == (key, callback),
        left@.waiting == found@.waiting,
        !left@.cancelled,
{
}

/// Giving a registration up takes its callback away and leaves every other one stored, under its
/// key and in the same order; it leaves the waiting tasks alone and does not cancel.
pub proof fn law_release_takes_one(found: Kept, later: Kept, key: usize, one: int, two: int)
    requires
        found.told(),
        found@.has_key(key),
        found.leads_to(Some(Event::Release(key)), later),
        0 <= one < two < found@.callbacks.len(),
        found@.callbacks[one].0 != key,
        found@.callbacks[two].0 != key,
    ensures
        !later@.has_key(key),
        later@.callbacks.len() == found@.callbacks.len() - 1,
        exists|i: int, j: int|
            0 <= i < j < later@.callbacks.len() && #[trigger] later@.callbacks[i]
                == found@.callbacks[one] && #[trigger] later@.callbacks[j]
                == found@.callbacks[two],
        later@.waiting == found@.waiting,
        !later@.cancelled,
{
    let place = place_of(found@.callbacks, key);
    lemma_removed(found@.callbacks, place);
    let i = if one < place { one } else { one - 1 };
    let j = if two < place { two } else { two - 1 };
    assert(later@.callbacks[i] == found@.callbacks[one]);
    assert(later@.callbacks[j] == found@.callbacks[two]);
}

/// Polling a future takes no waker away that another future waits through: a waker that the polled
/// future did not wait through stays, and so does one that more futures wait through. Polling
/// leaves the callbacks alone and does not cancel.
pub proof fn law_poll_keeps_the_other_wakers(
    found: Kept,
    later: Kept,
    event: Option<Event>,
    slot: Option<usize>,
    key: usize,
)
    requires
        found.told(),
        found.leads_to(event, later),
        moves(event, slot),
        has_key(found@.waiting, key),
        slot != Some(key) || found@.waiting[place_of(found@.waiting, key)].1.futures > 1,
    ensures
        has_key(later@.waiting, key),
        later@.waiting[place_of(later@.waiting, key)].1.waker == found@.waiting[place_of(
            found@.waiting,
            key,
        )].1.waker,
        later@.callbacks == found@.callbacks,
        later@.cancelled == found@.cancelled,
{
    if event is Some && !found@.cancelled {
        let waiting = found@.waiting;
        let rest = left(waiting, slot);
        lemma_left(waiting, slot);
        let place = place_of(waiting, key);
        if slot == Some(key) {
            assert(rest[place].0 == key);
            lemma_place(rest, place);
        }
        match event->0 {
            Event::Join(_, to) => {
                lemma_joined(rest, to);
            },
            Event::Watch(_, to, asked, copy) => {
                assert(unknown(rest, asked));
                lemma_watched(rest, to, asked, copy);
                let i = place_of(rest, key);
                assert(later@.waiting[i] == rest[i]);
                lemma_place(later@.waiting, i);
            },
            _ => {},
        }
    }
}

/// Looking changes nothing, and tells what the log tells: that the state is cancelled if and only
/// if a source has cancelled it before.
pub proof fn law_looking_is_pure(inner: Inner, found: Kept, fields: (bool, usize, usize))
    requires
        inner.looked(found, fields),
    ensures
        inner.put_back(found),
        fields.0 <==> found.log().contains(Event::Cancel),
        fields.0 ==> fields.1 == 0 && fields.2 == 0,
{
    law_cancelled_iff_cancel(StateView::initial(), found.log());
}

/// A cancellation that follows another, whatever has happened between, asks for nothing.
pub proof fn law_second_cancel_asks_for_nothing(found: Kept)
    requires
        found.told(),
        found.log().contains(Event::Cancel),
    ensures
        found@.cancel_actions() == Seq::<Action>::empty(),
        found@.cancel() == found@,
{
    law_cancelled_iff_cancel(StateView::initial(), found.log());
}

} // verus!
