use core::task::Waker;
use vstd::prelude::*;

use crate::action::Action;
use crate::callback::Callback;
use crate::event::{admits, lemma_poll_is_event, lemma_wf_next, next, Event};
use crate::keyed::{has_key, lemma_place, lemma_pushed, lemma_removed, lemma_updated, place_of};
use crate::state::{Progress, StateView};
use crate::waiting::{
    answered, joined, known_at, left, lemma_joined, lemma_left, told_apart, waiting_wf, watched,
    Waiter,
};

verus! {

/// A future that waits for the cancellation, or has not been polled yet.
pub struct Wait {
    /// The key of the waker that the future waits through, if it waits.
    pub slot: Option<usize>,
    /// The waker that the future was polled with last, if it was polled.
    pub asked: Option<Waker>,
}

/// A shared state together with every future that was made of its tokens.
pub struct World {
    pub state: StateView,
    pub waits: Seq<Wait>,
}

/// What can happen to a state and its futures.
pub enum Move {
    /// A future is made.
    Create,
    /// The future with this number is polled with the waker; the state that the poll leaves, the
    /// key that the future waits through then, and what the poll found.
    Poll(int, Waker, StateView, Option<usize>, Progress),
    /// The source cancels.
    Cancel,
    /// A callback is registered under a key.
    Register(usize, Callback),
    /// The registration with a key is given up.
    Release(usize),
}

/// The number of futures that wait through the waker under `key`.
pub open spec fn count(waits: Seq<Wait>, key: usize) -> nat
    decreases waits.len(),
{
    if waits.len() == 0 {
        0
    } else {
        count(waits.drop_last(), key) + if waits.last().slot == Some(key) {
            1nat
        } else {
            0nat
        }
    }
}

/// Waking `kept` wakes a future that was polled with `asked`: `kept` is a clone of it, or was said
/// to wake the same task.
pub open spec fn speaks_for(kept: Waker, asked: Waker) -> bool {
    answered(kept, asked, true) || cloned(asked, kept)
}

/// The future waits through one of the wakers, one that speaks for the waker of its last poll.
pub open spec fn waits_well(waiting: Seq<(usize, Waiter)>, wait: Wait) -> bool {
    wait.slot matches Some(key) ==> {
        &&& has_key(waiting, key)
        &&& wait.asked matches Some(asked) && speaks_for(
            waiting[place_of(waiting, key)].1.waker,
            asked,
        )
    }
}

/// The number of futures that wait through the waker at `place` is right.
pub open spec fn counted(waiting: Seq<(usize, Waiter)>, waits: Seq<Wait>, place: int) -> bool {
    let (key, waiter) = waiting[place];
    waiter.futures == u64::MAX || waiter.futures == count(waits, key)
}

/// Every future that waits does so through a waker that speaks for that of its last poll, and as
/// many futures as are counted wait through each waker.
pub open spec fn matched(waiting: Seq<(usize, Waiter)>, waits: Seq<Wait>) -> bool {
    &&& forall|f: int| 0 <= f < waits.len() ==> waits_well(waiting, #[trigger] waits[f])
    &&& forall|i: int| 0 <= i < waiting.len() ==> #[trigger] counted(waiting, waits, i)
}

impl World {
    /// A new source, of whose tokens no future was made yet.
    pub open spec fn initial() -> Self {
        World { state: StateView::initial(), waits: Seq::empty() }
    }

    /// What holds of a state and its futures whatever happens.
    pub open spec fn wf(self) -> bool {
        &&& self.state.wf()
        &&& !self.state.cancelled ==> matched(self.state.waiting, self.waits)
    }

    /// Whether the move can be made.
    pub open spec fn allows(self, m: Move) -> bool {
        match m {
            Move::Create => true,
            Move::Poll(f, waker, polled, new_slot, progress) => {
                &&& 0 <= f < self.waits.len()
                &&& self.state.polled(self.waits[f].slot, waker, polled, new_slot, progress)
            },
            Move::Cancel => true,
            Move::Register(key, callback) => admits(self.state, Event::Register(key, callback)),
            Move::Release(key) => admits(self.state, Event::Release(key)),
        }
    }

    /// What the move leads to.
    pub open spec fn made(self, m: Move) -> Self {
        match m {
            Move::Create => World {
                waits: self.waits.push(Wait { slot: None, asked: None }),
                ..self
            },
            Move::Poll(f, waker, polled, new_slot, _) => World {
                state: polled,
                waits: self.waits.update(f, Wait { slot: new_slot, asked: Some(waker) }),
            },
            Move::Cancel => World { state: next(self.state, Event::Cancel), ..self },
            Move::Register(key, callback) => World {
                state: next(self.state, Event::Register(key, callback)),
                ..self
            },
            Move::Release(key) => World { state: next(self.state, Event::Release(key)), ..self },
        }
    }
}

/// What a history of moves leads to.
pub open spec fn after_moves(world: World, moves: Seq<Move>) -> World
    decreases moves.len(),
{
    if moves.len() == 0 {
        world
    } else {
        after_moves(world, moves.drop_last()).made(moves.last())
    }
}

/// Whether each move of a history can be made where it is.
pub open spec fn allowed(world: World, moves: Seq<Move>) -> bool
    decreases moves.len(),
{
    moves.len() > 0 ==> {
        &&& allowed(world, moves.drop_last())
        &&& after_moves(world, moves.drop_last()).allows(moves.last())
    }
}

/// What one future waits through counts once.
proof fn lemma_count_updated(waits: Seq<Wait>, f: int, wait: Wait, key: usize)
    requires
        0 <= f < waits.len(),
    ensures
        count(waits.update(f, wait), key) + (if waits[f].slot == Some(key) {
            1int
        } else {
            0int
        }) == count(waits, key) + (if wait.slot == Some(key) {
            1int
        } else {
            0int
        }),
    decreases waits.len(),
{
    let after = waits.update(f, wait);
    if f == waits.len() - 1 {
        assert(after.drop_last() =~= waits.drop_last());
    } else {
        assert(after.drop_last() =~= waits.drop_last().update(f, wait));
        lemma_count_updated(waits.drop_last(), f, wait, key);
    }
}

/// If the count is not zero, a future waits through the waker, and the other way round.
proof fn lemma_counted_waits(waits: Seq<Wait>, key: usize)
    ensures
        count(waits, key) > 0 <==> exists|f: int|
            0 <= f < waits.len() && (#[trigger] waits[f]).slot == Some(key),
    decreases waits.len(),
{
    if waits.len() > 0 {
        let earlier = waits.drop_last();
        lemma_counted_waits(earlier, key);
        if waits.last().slot == Some(key) {
            assert(waits[waits.len() - 1].slot == Some(key));
        }
        if count(earlier, key) > 0 {
            let f = choose|f: int| 0 <= f < earlier.len() && (#[trigger] earlier[f]).slot == Some(key);
            assert(waits[f].slot == Some(key));
        }
        if exists|f: int| 0 <= f < waits.len() && (#[trigger] waits[f]).slot == Some(key) {
            let f = choose|f: int| 0 <= f < waits.len() && (#[trigger] waits[f]).slot == Some(key);
            if f < earlier.len() {
                assert(earlier[f].slot == Some(key));
            }
        }
    }
}

/// A future that leaves its waker leaves the others matched.
proof fn lemma_leave_matched(waiting: Seq<(usize, Waiter)>, waits: Seq<Wait>, f: int)
    requires
        waiting_wf(waiting),
        matched(waiting, waits),
        0 <= f < waits.len(),
    ensures
        matched(
            left(waiting, waits[f].slot),
            waits.update(f, Wait { slot: None, asked: waits[f].asked }),
        ),
{
    let slot = waits[f].slot;
    let idle = Wait { slot: None, asked: waits[f].asked };
    let rest = left(waiting, slot);
    let others = waits.update(f, idle);
    lemma_left(waiting, slot);
    assert forall|key: usize| #[trigger] count(others, key) == count(waits, key) - (if slot == Some(
        key,
    ) {
        1int
    } else {
        0int
    }) by {
        lemma_count_updated(waits, f, idle, key);
    }
    if slot is None {
        assert(rest == waiting);
        assert forall|i: int| 0 <= i < rest.len() implies #[trigger] counted(rest, others, i) by {
            assert(counted(waiting, waits, i));
        }
        assert forall|g: int| 0 <= g < others.len() implies waits_well(rest, #[trigger] others[g]) by {
            assert(waits_well(waiting, waits[g]));
        }
    } else {
        let key = slot->0;
        assert(waits_well(waiting, waits[f]));
        let place = place_of(waiting, key);
        let waiter = waiting[place].1;
        assert(counted(waiting, waits, place));
        if waiter.futures == 1 {
            lemma_removed(waiting, place);
            assert forall|i: int| 0 <= i < rest.len() implies #[trigger] counted(
                rest,
                others,
                i,
            ) by {
                let i0 = if i < place { i } else { i + 1 };
                assert(counted(waiting, waits, i0));
                assert(rest[i] == waiting[i0]);
                assert(waiting[i0].0 != waiting[place].0);
            }
        } else {
            if waiter.futures != u64::MAX {
                lemma_updated(
                    waiting,
                    place,
                    Waiter { futures: (waiter.futures - 1) as u64, ..waiter },
                );
            }
            assert forall|i: int| 0 <= i < rest.len() implies #[trigger] counted(
                rest,
                others,
                i,
            ) by {
                assert(counted(waiting, waits, i));
                if i != place {
                    lemma_place(waiting, i);
                }
            }
        }
        assert forall|g: int| 0 <= g < others.len() implies waits_well(rest, #[trigger] others[g]) by {
            if g != f {
                assert(others[g] == waits[g]);
                assert(waits_well(waiting, waits[g]));
                if waits[g].slot == Some(key) {
                    lemma_counted_waits(others, key);
                    assert(others[g].slot == Some(key));
                }
            }
        }
    }
}

/// A future that does not wait and comes to wait through a waker that is kept stays matched.
proof fn lemma_join_matched(
    waiting: Seq<(usize, Waiter)>,
    waits: Seq<Wait>,
    f: int,
    key: usize,
    asked: Waker,
)
    requires
        waiting_wf(waiting),
        matched(waiting, waits),
        0 <= f < waits.len(),
        waits[f].slot is None,
        has_key(waiting, key),
        speaks_for(waiting[place_of(waiting, key)].1.waker, asked),
    ensures
        matched(
            joined(waiting, key),
            waits.update(f, Wait { slot: Some(key), asked: Some(asked) }),
        ),
{
    let wait = Wait { slot: Some(key), asked: Some(asked) };
    let after = joined(waiting, key);
    let others = waits.update(f, wait);
    let place = place_of(waiting, key);
    lemma_joined(waiting, key);
    assert forall|i: int| 0 <= i < after.len() implies #[trigger] counted(after, others, i) by {
        assert(counted(waiting, waits, i));
        lemma_place(waiting, i);
        lemma_count_updated(waits, f, wait, waiting[i].0);
    }
    assert forall|g: int| 0 <= g < others.len() implies waits_well(after, #[trigger] others[g]) by {
        if g != f {
            assert(others[g] == waits[g]);
            assert(waits_well(waiting, waits[g]));
        }
    }
}

/// A future that does not wait and comes to wait through a new waker stays matched.
proof fn lemma_watch_matched(
    waiting: Seq<(usize, Waiter)>,
    waits: Seq<Wait>,
    f: int,
    key: usize,
    asked: Waker,
    copy: Waker,
)
    requires
        waiting_wf(waiting),
        matched(waiting, waits),
        0 <= f < waits.len(),
        waits[f].slot is None,
        !has_key(waiting, key),
        cloned(asked, copy),
    ensures
        matched(
            watched(waiting, key, copy),
            waits.update(f, Wait { slot: Some(key), asked: Some(asked) }),
        ),
{
    let wait = Wait { slot: Some(key), asked: Some(asked) };
    let after = watched(waiting, key, copy);
    let others = waits.update(f, wait);
    lemma_pushed(waiting, (key, Waiter { waker: copy, futures: 1 }));
    assert forall|i: int| 0 <= i < after.len() implies #[trigger] counted(after, others, i) by {
        lemma_count_updated(waits, f, wait, after[i].0);
        if i < waiting.len() {
            assert(counted(waiting, waits, i));
            lemma_place(waiting, i);
        } else {
            lemma_counted_waits(waits, key);
            if count(waits, key) > 0 {
                let g = choose|g: int| 0 <= g < waits.len() && (#[trigger] waits[g]).slot == Some(key);
                assert(waits_well(waiting, waits[g]));
            }
        }
    }
    assert forall|g: int| 0 <= g < others.len() implies waits_well(after, #[trigger] others[g]) by {
        if g != f {
            assert(others[g] == waits[g]);
            assert(waits_well(waiting, waits[g]));
        }
    }
}

/// A poll of the future with the number `f` keeps the futures matched.
proof fn lemma_poll_matched(
    state: StateView,
    waits: Seq<Wait>,
    f: int,
    waker: Waker,
    polled: StateView,
    new_slot: Option<usize>,
)
    requires
        state.wf(),
        !state.cancelled,
        matched(state.waiting, waits),
        0 <= f < waits.len(),
        state.polled(waits[f].slot, waker, polled, new_slot, Progress::Pending),
    ensures
        matched(polled.waiting, waits.update(f, Wait { slot: new_slot, asked: Some(waker) })),
{
    let slot = waits[f].slot;
    let key = new_slot->0;
    let wait = Wait { slot: new_slot, asked: Some(waker) };
    let after = waits.update(f, wait);
    let rest = left(state.waiting, slot);
    let idle = Wait { slot: None, asked: waits[f].asked };
    let others = waits.update(f, idle);
    lemma_left(state.waiting, slot);
    lemma_leave_matched(state.waiting, waits, f);
    assert(others.update(f, wait) =~= after);
    if state.finds(slot, waker, polled, key) {
        let place = choose|place: int| #[trigger]
            known_at(state.waiting, waker, place) && state.waiting[place].0 == key;
        lemma_place(state.waiting, place);
        if slot == Some(key) {
            assert forall|i: int| 0 <= i < polled.waiting.len() implies #[trigger] counted(
                polled.waiting,
                after,
                i,
            ) by {
                assert(counted(state.waiting, waits, i));
                lemma_count_updated(waits, f, wait, state.waiting[i].0);
            }
            assert forall|g: int| 0 <= g < after.len() implies waits_well(
                polled.waiting,
                #[trigger] after[g],
            ) by {
                if g != f {
                    assert(after[g] == waits[g]);
                    assert(waits_well(state.waiting, waits[g]));
                }
            }
        } else {
            lemma_join_matched(rest, others, f, key, waker);
        }
    } else {
        let copy = choose|copy: Waker| #[trigger]
            cloned(waker, copy) && polled == state.watch(slot, key, copy);
        lemma_watch_matched(rest, others, f, key, waker, copy);
    }
}

/// One move keeps what holds of a state and its futures.
proof fn lemma_move_keeps(world: World, m: Move)
    requires
        world.wf(),
        world.allows(m),
    ensures
        world.made(m).wf(),
{
    let after = world.made(m);
    match m {
        Move::Create => {
            if !world.state.cancelled {
                assert(after.waits.drop_last() =~= world.waits);
                assert forall|i: int| 0 <= i < after.state.waiting.len() implies #[trigger] counted(
                    after.state.waiting,
                    after.waits,
                    i,
                ) by {
                    assert(counted(world.state.waiting, world.waits, i));
                }
                assert forall|g: int| 0 <= g < after.waits.len() implies waits_well(
                    after.state.waiting,
                    #[trigger] after.waits[g],
                ) by {
                    if g < world.waits.len() {
                        assert(waits_well(world.state.waiting, world.waits[g]));
                    }
                }
            }
        },
        Move::Poll(f, waker, polled, new_slot, progress) => {
            let slot = world.waits[f].slot;
            lemma_poll_is_event(world.state, slot, waker, polled, new_slot, progress);
            if !world.state.cancelled {
                let key = new_slot->0;
                if !(slot == new_slot && polled == world.state) {
                    if admits(world.state, Event::Join(slot, key)) && polled == next(
                        world.state,
                        Event::Join(slot, key),
                    ) {
                        lemma_wf_next(world.state, Event::Join(slot, key));
                    } else {
                        let copy = choose|copy: Waker| #[trigger]
                            admits(world.state, Event::Watch(slot, key, waker, copy)) && polled
                                == next(world.state, Event::Watch(slot, key, waker, copy));
                        lemma_wf_next(world.state, Event::Watch(slot, key, waker, copy));
                    }
                }
                lemma_poll_matched(world.state, world.waits, f, waker, polled, new_slot);
            }
        },
        Move::Cancel => {
            lemma_wf_next(world.state, Event::Cancel);
        },
        Move::Register(key, callback) => {
            lemma_wf_next(world.state, Event::Register(key, callback));
        },
        Move::Release(key) => {
            lemma_wf_next(world.state, Event::Release(key));
        },
    }
}

/// Whatever is done to a new source and to the futures of its tokens, every future that waits does
/// so through one of the wakers that are kept, one that speaks for the waker of its last poll, and
/// as many futures as are counted wait through each of them.
pub proof fn law_futures_matched(moves: Seq<Move>)
    requires
        allowed(World::initial(), moves),
    ensures
        after_moves(World::initial(), moves).wf(),
    decreases moves.len(),
{
    if moves.len() > 0 {
        law_futures_matched(moves.drop_last());
        lemma_move_keeps(after_moves(World::initial(), moves.drop_last()), moves.last());
    }
}

/// A poll that is pending leaves the future waiting.
pub proof fn law_pending_future_waits(
    world: World,
    f: int,
    waker: Waker,
    polled: StateView,
    new_slot: Option<usize>,
)
    requires
        world.wf(),
        world.allows(Move::Poll(f, waker, polled, new_slot, Progress::Pending)),
    ensures
        ({
            let after = world.made(Move::Poll(f, waker, polled, new_slot, Progress::Pending));
            &&& !after.state.cancelled
            &&& after.waits[f] == (Wait { slot: new_slot, asked: Some(waker) })
            &&& new_slot is Some
            &&& has_key(after.state.waiting, new_slot->0)
        }),
{
    let m = Move::Poll(f, waker, polled, new_slot, Progress::Pending);
    lemma_move_keeps(world, m);
    assert(waits_well(world.made(m).state.waiting, world.made(m).waits[f]));
}

/// Neither a cancellation nor a poll of the future with the number `f`.
pub open spec fn leaves_alone(m: Move, f: int) -> bool {
    match m {
        Move::Poll(g, _, _, _, _) => g != f,
        Move::Cancel => false,
        _ => true,
    }
}

/// A future that waits does so until it is polled again or the source cancels, whatever else
/// happens.
pub proof fn law_future_waits_until_cancelled(world: World, moves: Seq<Move>, f: int)
    requires
        world.wf(),
        !world.state.cancelled,
        0 <= f < world.waits.len(),
        allowed(world, moves),
        forall|i: int| 0 <= i < moves.len() ==> leaves_alone(#[trigger] moves[i], f),
    ensures
        after_moves(world, moves).wf(),
        !after_moves(world, moves).state.cancelled,
        f < after_moves(world, moves).waits.len(),
        after_moves(world, moves).waits[f] == world.waits[f],
    decreases moves.len(),
{
    if moves.len() > 0 {
        let earlier = moves.drop_last();
        assert forall|i: int| 0 <= i < earlier.len() implies leaves_alone(
            #[trigger] earlier[i],
            f,
        ) by {
            assert(earlier[i] == moves[i]);
        }
        law_future_waits_until_cancelled(world, earlier, f);
        lemma_move_keeps(after_moves(world, earlier), moves.last());
        assert(leaves_alone(moves[moves.len() - 1], f));
    }
}

/// A future that waits is woken exactly once by the cancellation: it asks to wake the waker that
/// the future waits through, which speaks for the waker of its last poll, and it asks for that at
/// one place only. A later cancellation asks for nothing.
pub proof fn law_future_is_woken_once(world: World, f: int)
    requires
        world.wf(),
        !world.state.cancelled,
        0 <= f < world.waits.len(),
        world.waits[f].slot is Some,
    ensures
        ({
            let state = world.state;
            let key = world.waits[f].slot->0;
            let place = place_of(state.waiting, key);
            &&& 0 <= place < state.waiting.len()
            &&& world.waits[f].asked matches Some(asked) && speaks_for(
                state.waiting[place].1.waker,
                asked,
            )
            &&& state.cancel_actions()[state.callbacks.len() + place] == Action::Wake(
                state.waiting[place].1.waker,
            )
            &&& forall|i: int|
                0 <= i < state.waiting.len() && (#[trigger] state.waiting[i]).0 == key ==> i
                    == place
            &&& state.cancel().cancel_actions() == Seq::<Action>::empty()
        }),
{
    assert(waits_well(world.state.waiting, world.waits[f]));
    let state = world.state;
    let key = world.waits[f].slot->0;
    assert forall|i: int|
        0 <= i < state.waiting.len() && (#[trigger] state.waiting[i]).0 == key implies i
        == place_of(state.waiting, key) by {
        lemma_place(state.waiting, i);
    }
}

/// The cancellation wakes no task for nothing: for each waker that it asks to wake, a future waits
/// through it, was polled last with a waker that it speaks for, and waits through no other. Only a
/// waker that as many futures as can be counted have waited through is kept regardless.
pub proof fn law_only_waiting_are_woken(world: World, place: int)
    requires
        world.wf(),
        !world.state.cancelled,
        0 <= place < world.state.waiting.len(),
        world.state.waiting[place].1.futures < u64::MAX,
    ensures
        exists|f: int|
            #![trigger world.waits[f]]
            {
                &&& 0 <= f < world.waits.len()
                &&& world.waits[f].slot == Some(world.state.waiting[place].0)
                &&& world.waits[f].asked matches Some(asked) && speaks_for(
                    world.state.waiting[place].1.waker,
                    asked,
                )
            },
{
    let waiting = world.state.waiting;
    let key = waiting[place].0;
    assert(counted(waiting, world.waits, place));
    lemma_counted_waits(world.waits, key);
    let f = choose|f: int| 0 <= f < world.waits.len() && (#[trigger] world.waits[f]).slot == Some(key);
    assert(waits_well(waiting, world.waits[f]));
    lemma_place(waiting, place);
}

/// A future that is polled with the waker of another task no longer waits through the one that it
/// waited through: that waker is kept only if another future waits through it.
pub proof fn law_polled_future_leaves(
    world: World,
    f: int,
    waker: Waker,
    polled: StateView,
    new_slot: Option<usize>,
    place: int,
)
    requires
        world.wf(),
        world.allows(Move::Poll(f, waker, polled, new_slot, Progress::Pending)),
        0 <= place < polled.waiting.len(),
        new_slot != Some(polled.waiting[place].0),
        polled.waiting[place].1.futures < u64::MAX,
    ensures
        exists|g: int|
            #![trigger world.waits[g]]
            {
                &&& 0 <= g < world.waits.len()
                &&& g != f
                &&& world.waits[g].slot == Some(polled.waiting[place].0)
            },
{
    let m = Move::Poll(f, waker, polled, new_slot, Progress::Pending);
    let after = world.made(m);
    lemma_move_keeps(world, m);
    law_only_waiting_are_woken(after, place);
    let g = choose|g: int|
        #![trigger after.waits[g]]
        {
            &&& 0 <= g < after.waits.len()
            &&& after.waits[g].slot == Some(after.state.waiting[place].0)
            &&& after.waits[g].asked matches Some(asked) && speaks_for(
                after.state.waiting[place].1.waker,
                asked,
            )
        };
    assert(after.waits[g] == world.waits[g]);
}

/// The wakers of the first list are those that the second begins with, under the same keys.
pub open spec fn begins_with(
    longer: Seq<(usize, Waiter)>,
    waiting: Seq<(usize, Waiter)>,
) -> bool {
    &&& waiting.len() <= longer.len()
    &&& forall|i: int|
        #![trigger longer[i]]
        #![trigger waiting[i]]
        0 <= i < waiting.len() ==> longer[i].0 == waiting[i].0 && longer[i].1.waker
            == waiting[i].1.waker
}

/// The move takes no waker away: it is no cancellation, and if it is a poll, the future did not
/// wait yet or the poll changes nothing.
pub open spec fn takes_none(world: World, m: Move) -> bool {
    match m {
        Move::Poll(f, _, polled, _, _) => world.waits[f].slot is None || polled == world.state,
        Move::Cancel => false,
        _ => true,
    }
}

/// No move of a history takes a waker away.
pub open spec fn take_none(world: World, moves: Seq<Move>) -> bool
    decreases moves.len(),
{
    moves.len() > 0 ==> {
        &&& take_none(world, moves.drop_last())
        &&& takes_none(after_moves(world, moves.drop_last()), moves.last())
    }
}

/// Where every future is polled with the wakers of one task only, each waker is woken exactly
/// once, in the order of the first pending poll with it: the wakers that are kept stay where they
/// are, new ones come behind them, and the cancellation asks for them in this order.
pub proof fn law_wakers_keep_their_places(world: World, moves: Seq<Move>)
    requires
        world.wf(),
        !world.state.cancelled,
        allowed(world, moves),
        take_none(world, moves),
    ensures
        ({
            let last = after_moves(world, moves);
            &&& last.wf()
            &&& !last.state.cancelled
            &&& begins_with(last.state.waiting, world.state.waiting)
            &&& last.state.cancel_actions().len() == last.state.callbacks.len()
                + last.state.waiting.len()
            &&& forall|i: int|
                0 <= i < world.state.waiting.len()
                    ==> #[trigger] last.state.cancel_actions()[last.state.callbacks.len() + i]
                    == Action::Wake(world.state.waiting[i].1.waker)
        }),
    decreases moves.len(),
{
    if moves.len() > 0 {
        let earlier = moves.drop_last();
        law_wakers_keep_their_places(world, earlier);
        let before = after_moves(world, earlier);
        let last = after_moves(world, moves);
        lemma_move_keeps(before, moves.last());
        match moves.last() {
            Move::Poll(f, waker, polled, new_slot, progress) => {
                let slot = before.waits[f].slot;
                if polled != before.state {
                    let key = new_slot->0;
                    assert(left(before.state.waiting, slot) == before.state.waiting);
                    if before.state.finds(slot, waker, polled, key) {
                        let place = choose|place: int| #[trigger]
                            known_at(before.state.waiting, waker, place)
                                && before.state.waiting[place].0 == key;
                        lemma_place(before.state.waiting, place);
                        lemma_joined(before.state.waiting, key);
                        assert forall|i: int| 0 <= i < before.state.waiting.len() implies (
                        #[trigger] polled.waiting[i]).0 == before.state.waiting[i].0 by {}
                    }
                }
            },
            _ => {},
        }
        assert(begins_with(last.state.waiting, before.state.waiting));
    }
}

/// `Waker::will_wake` answers by the relation `same`, which is an equivalence and which a clone
/// keeps.
pub open spec fn answers_by(same: spec_fn(Waker, Waker) -> bool) -> bool {
    &&& forall|a: Waker| #[trigger] same(a, a)
    &&& forall|a: Waker, b: Waker| #[trigger] same(a, b) ==> same(b, a)
    &&& forall|a: Waker, b: Waker, c: Waker| #[trigger]
        same(a, b) && #[trigger] same(b, c) ==> same(a, c)
    &&& forall|a: Waker, b: Waker, answer: bool| #[trigger]
        answered(a, b, answer) ==> answer == same(a, b)
    &&& forall|a: Waker, b: Waker| #[trigger] cloned(a, b) ==> same(a, b)
}

/// Where `Waker::will_wake` answers by an equivalence that a clone keeps, no two of the wakers that
/// are kept wake the same task, and exactly one of them wakes the task that a waiting future was
/// polled for last.
pub proof fn law_one_waker_for_each_task(
    world: World,
    f: int,
    same: spec_fn(Waker, Waker) -> bool,
)
    requires
        answers_by(same),
        world.wf(),
        !world.state.cancelled,
        0 <= f < world.waits.len(),
        world.waits[f].slot is Some,
    ensures
        ({
            let waiting = world.state.waiting;
            let place = place_of(waiting, world.waits[f].slot->0);
            &&& forall|i: int, j: int|
                0 <= i < waiting.len() && 0 <= j < waiting.len() && i != j ==> !#[trigger] same(
                    waiting[i].1.waker,
                    waiting[j].1.waker,
                )
            &&& 0 <= place < waiting.len()
            &&& world.waits[f].asked matches Some(asked) && forall|i: int|
                0 <= i < waiting.len() ==> (#[trigger] same(waiting[i].1.waker, asked) <==> i
                    == place)
        }),
{
    let waiting = world.state.waiting;
    assert forall|i: int, j: int|
        0 <= i < waiting.len() && 0 <= j < waiting.len() && i != j implies !#[trigger] same(
        waiting[i].1.waker,
        waiting[j].1.waker,
    ) by {
        if i < j {
            lemma_told_apart(waiting, i, j, same);
        } else {
            lemma_told_apart(waiting, j, i, same);
        }
    }
    assert(waits_well(waiting, world.waits[f]));
    let place = place_of(waiting, world.waits[f].slot->0);
    let asked = world.waits[f].asked->0;
    assert(same(waiting[place].1.waker, asked));
    assert forall|i: int| 0 <= i < waiting.len() implies (#[trigger] same(waiting[i].1.waker, asked)
        <==> i == place) by {
        if same(waiting[i].1.waker, asked) && i != place {
            assert(same(asked, waiting[place].1.waker));
            assert(same(waiting[i].1.waker, waiting[place].1.waker));
        }
    }
}

/// A waker that was told apart from an earlier one does not wake the same task.
proof fn lemma_told_apart(
    waiting: Seq<(usize, Waiter)>,
    i: int,
    j: int,
    same: spec_fn(Waker, Waker) -> bool,
)
    requires
        answers_by(same),
        waiting_wf(waiting),
        0 <= i < j < waiting.len(),
    ensures
        !same(waiting[i].1.waker, waiting[j].1.waker),
{
    assert(told_apart(waiting, j));
    let asked = choose|asked: Waker| #[trigger]
        cloned(asked, waiting[j].1.waker) && forall|k: int|
            0 <= k < j ==> answered((#[trigger] waiting[k]).1.waker, asked, false);
    assert(answered(waiting[i].1.waker, asked, false));
    assert(same(asked, waiting[j].1.waker));
    if same(waiting[i].1.waker, waiting[j].1.waker) {
        assert(same(waiting[j].1.waker, asked));
        assert(same(waiting[i].1.waker, asked));
    }
}

} // verus!
