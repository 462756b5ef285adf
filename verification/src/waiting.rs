use core::task::Waker;
use vstd::prelude::*;

use crate::keyed::{
    has_key, keys_distinct, lemma_place, lemma_pushed, lemma_removed, lemma_updated, place_of,
};

verus! {

/// A waker of a waiting task, and the number of futures that wait through it.
///
/// The number stops at the largest `u64`; a waker that so many futures wait through is kept.
pub struct Waiter {
    pub waker: Waker,
    pub futures: u64,
}

/// `Waker::will_wake` of `kept` was asked about `other` and gave this answer.
pub open spec fn answered(kept: Waker, other: Waker, same: bool) -> bool {
    call_ensures(Waker::will_wake, (&kept, &other), same)
}

/// The first waker that is said to wake the same task as `waker` is the one at `place`.
pub open spec fn known_at(waiting: Seq<(usize, Waiter)>, waker: Waker, place: int) -> bool {
    &&& 0 <= place < waiting.len()
    &&& answered(waiting[place].1.waker, waker, true)
    &&& forall|i: int|
        0 <= i < place ==> answered((#[trigger] waiting[i]).1.waker, waker, false)
}

/// Every waker is said not to wake the task that `waker` wakes.
pub open spec fn unknown(waiting: Seq<(usize, Waiter)>, waker: Waker) -> bool {
    forall|i: int|
        0 <= i < waiting.len() ==> answered((#[trigger] waiting[i]).1.waker, waker, false)
}

/// The waker that the one at `place` is a clone of was told apart from every waker before it.
pub open spec fn told_apart(waiting: Seq<(usize, Waiter)>, place: int) -> bool {
    exists|asked: Waker| #[trigger]
        cloned(asked, waiting[place].1.waker) && forall|i: int|
            0 <= i < place ==> answered((#[trigger] waiting[i]).1.waker, asked, false)
}

/// What always holds of the waiting tasks: each key belongs to one waker, at least one future
/// waits through each waker, and each waker was told apart from those before it.
pub open spec fn waiting_wf(waiting: Seq<(usize, Waiter)>) -> bool {
    &&& keys_distinct(waiting)
    &&& forall|i: int| 0 <= i < waiting.len() ==> (#[trigger] waiting[i]).1.futures >= 1
    &&& forall|i: int| 0 <= i < waiting.len() ==> #[trigger] told_apart(waiting, i)
}

/// The waiting tasks after a future that waited through the waker under the key `slot`, if there
/// is one, has left it: the waker goes with the last future.
pub open spec fn left(waiting: Seq<(usize, Waiter)>, slot: Option<usize>) -> Seq<(usize, Waiter)> {
    match slot {
        Some(key) if has_key(waiting, key) => {
            let place = place_of(waiting, key);
            let waiter = waiting[place].1;
            if waiter.futures == u64::MAX {
                waiting
            } else if waiter.futures == 1 {
                waiting.remove(place)
            } else {
                waiting.update(place, (key, Waiter { futures: (waiter.futures - 1) as u64, ..waiter }))
            }
        },
        _ => waiting,
    }
}

/// The waiting tasks after one more future waits through the waker under `key`.
pub open spec fn joined(waiting: Seq<(usize, Waiter)>, key: usize) -> Seq<(usize, Waiter)> {
    let place = place_of(waiting, key);
    let waiter = waiting[place].1;
    if waiter.futures == u64::MAX {
        waiting
    } else {
        waiting.update(place, (key, Waiter { futures: (waiter.futures + 1) as u64, ..waiter }))
    }
}

/// The waiting tasks after a first future waits through `waker`, which is kept under `key`.
pub open spec fn watched(waiting: Seq<(usize, Waiter)>, key: usize, waker: Waker) -> Seq<
    (usize, Waiter),
> {
    waiting.push((key, Waiter { waker, futures: 1 }))
}

/// Changing how many futures wait through the waker at `place` leaves the wakers told apart.
proof fn lemma_recounted(waiting: Seq<(usize, Waiter)>, place: int, futures: u64)
    requires
        waiting_wf(waiting),
        0 <= place < waiting.len(),
        futures >= 1,
    ensures
        waiting_wf(
            waiting.update(place, (waiting[place].0, Waiter { futures, ..waiting[place].1 })),
        ),
{
    let value = Waiter { futures, ..waiting[place].1 };
    let after = waiting.update(place, (waiting[place].0, value));
    lemma_updated(waiting, place, value);
    assert forall|j: int| 0 <= j < after.len() implies #[trigger] told_apart(after, j) by {
        assert(told_apart(waiting, j));
        let asked = choose|asked: Waker| #[trigger]
            cloned(asked, waiting[j].1.waker) && forall|i: int|
                0 <= i < j ==> answered((#[trigger] waiting[i]).1.waker, asked, false);
        assert(cloned(asked, after[j].1.waker));
        assert forall|i: int| 0 <= i < j implies answered(
            (#[trigger] after[i]).1.waker,
            asked,
            false,
        ) by {
            assert(answered(waiting[i].1.waker, asked, false));
        }
    }
}

/// Leaving keeps what always holds, takes no key away but `slot`, and no waker either.
pub proof fn lemma_left(waiting: Seq<(usize, Waiter)>, slot: Option<usize>)
    requires
        waiting_wf(waiting),
    ensures
        waiting_wf(left(waiting, slot)),
        forall|key: usize| #[trigger]
            has_key(left(waiting, slot), key) ==> has_key(waiting, key),
        forall|key: usize| #[trigger]
            has_key(waiting, key) && slot != Some(key) ==> has_key(left(waiting, slot), key)
                && left(waiting, slot)[place_of(left(waiting, slot), key)]
                == waiting[place_of(waiting, key)],
        forall|waker: Waker| unknown(waiting, waker) ==> #[trigger]
            unknown(left(waiting, slot), waker),
{
    let after = left(waiting, slot);
    if slot is Some && has_key(waiting, slot->0) {
        let place = place_of(waiting, slot->0);
        let waiter = waiting[place].1;
        if waiter.futures == 1 {
            lemma_removed(waiting, place);
            assert forall|i: int| 0 <= i < after.len() implies (
            #[trigger] after[i]).1.futures >= 1 by {
                let i0 = if i < place { i } else { i + 1 };
                assert(after[i] == waiting[i0]);
            }
            assert forall|j: int| 0 <= j < after.len() implies #[trigger] told_apart(after, j) by {
                let j0 = if j < place { j } else { j + 1 };
                assert(told_apart(waiting, j0));
                let asked = choose|asked: Waker| #[trigger]
                    cloned(asked, waiting[j0].1.waker) && forall|i: int|
                        0 <= i < j0 ==> answered((#[trigger] waiting[i]).1.waker, asked, false);
                assert(cloned(asked, after[j].1.waker));
                assert forall|i: int| 0 <= i < j implies answered(
                    (#[trigger] after[i]).1.waker,
                    asked,
                    false,
                ) by {
                    let i0 = if i < place { i } else { i + 1 };
                    assert(answered(waiting[i0].1.waker, asked, false));
                }
            }
            assert forall|waker: Waker| unknown(waiting, waker) implies #[trigger] unknown(
                after,
                waker,
            ) by {
                assert forall|i: int| 0 <= i < after.len() implies answered(
                    (#[trigger] after[i]).1.waker,
                    waker,
                    false,
                ) by {
                    let i0 = if i < place { i } else { i + 1 };
                    assert(answered(waiting[i0].1.waker, waker, false));
                }
            }
        } else if waiter.futures != u64::MAX {
            let futures = (waiter.futures - 1) as u64;
            lemma_recounted(waiting, place, futures);
            lemma_updated(waiting, place, Waiter { futures, ..waiter });
            assert forall|waker: Waker| unknown(waiting, waker) implies #[trigger] unknown(
                after,
                waker,
            ) by {
                assert forall|i: int| 0 <= i < after.len() implies answered(
                    (#[trigger] after[i]).1.waker,
                    waker,
                    false,
                ) by {
                    assert(answered(waiting[i].1.waker, waker, false));
                }
            }
        }
    }
}

/// Joining keeps what always holds, and every key and waker.
pub proof fn lemma_joined(waiting: Seq<(usize, Waiter)>, key: usize)
    requires
        waiting_wf(waiting),
        has_key(waiting, key),
    ensures
        waiting_wf(joined(waiting, key)),
        joined(waiting, key).len() == waiting.len(),
        forall|other: usize| #[trigger]
            has_key(joined(waiting, key), other) <==> has_key(waiting, other),
        forall|other: usize|
            has_key(waiting, other) ==> #[trigger] place_of(joined(waiting, key), other)
                == place_of(waiting, other),
        forall|i: int|
            0 <= i < waiting.len() ==> (#[trigger] joined(waiting, key)[i]).1.waker
                == waiting[i].1.waker,
{
    let place = place_of(waiting, key);
    let waiter = waiting[place].1;
    if waiter.futures != u64::MAX {
        let futures = (waiter.futures + 1) as u64;
        lemma_recounted(waiting, place, futures);
        lemma_updated(waiting, place, Waiter { futures, ..waiter });
    }
}

/// Adding a clone of a waker that was told apart from all that are kept keeps what always holds.
pub proof fn lemma_watched(waiting: Seq<(usize, Waiter)>, key: usize, asked: Waker, waker: Waker)
    requires
        waiting_wf(waiting),
        !has_key(waiting, key),
        unknown(waiting, asked),
        cloned(asked, waker),
    ensures
        waiting_wf(watched(waiting, key, waker)),
{
    let entry = (key, Waiter { waker, futures: 1 });
    let after = watched(waiting, key, waker);
    lemma_pushed(waiting, entry);
    assert forall|j: int| 0 <= j < after.len() implies #[trigger] told_apart(after, j) by {
        if j < waiting.len() {
            assert(told_apart(waiting, j));
            let before = choose|before: Waker| #[trigger]
                cloned(before, waiting[j].1.waker) && forall|i: int|
                    0 <= i < j ==> answered((#[trigger] waiting[i]).1.waker, before, false);
            assert(cloned(before, after[j].1.waker));
            assert forall|i: int| 0 <= i < j implies answered(
                (#[trigger] after[i]).1.waker,
                before,
                false,
            ) by {
                assert(answered(waiting[i].1.waker, before, false));
            }
        } else {
            assert(cloned(asked, after[j].1.waker));
            assert forall|i: int| 0 <= i < j implies answered(
                (#[trigger] after[i]).1.waker,
                asked,
                false,
            ) by {
                assert(answered(waiting[i].1.waker, asked, false));
            }
        }
    }
}

/// The waiting tasks: a list of wakers, each under a key that stays the same while it is kept.
pub struct Waiting {
    entries: Vec<(usize, Waiter)>,
}

impl View for Waiting {
    type V = Seq<(usize, Waiter)>;

    /// The keys and wakers, in the order in which they came.
    closed spec fn view(&self) -> Seq<(usize, Waiter)> {
        self.entries@
    }
}

impl Waiting {
    /// No waiting task.
    pub fn new() -> (waiting: Self)
        ensures
            waiting@ == Seq::<(usize, Waiter)>::empty(),
    {
        Waiting { entries: Vec::new() }
    }

    /// The number of wakers.
    pub fn len(&self) -> (len: usize)
        ensures
            len == self@.len(),
    {
        self.entries.len()
    }

    /// The key of the first waker that is said to wake the same task as `waker`.
    pub fn find(&self, waker: &Waker) -> (found: Option<usize>)
        ensures
            found matches Some(key) ==> exists|place: int| #[trigger]
                known_at(self@, *waker, place) && self@[place].0 == key,
            found is None ==> unknown(self@, *waker),
    {
        let mut i: usize = 0;
        while i < self.entries.len()
            invariant
                i <= self.entries@.len(),
                forall|j: int|
                    0 <= j < i ==> answered((#[trigger] self.entries@[j]).1.waker, *waker, false),
            decreases self.entries@.len() - i,
        {
            if self.entries[i].1.waker.will_wake(waker) {
                assert(known_at(self@, *waker, i as int));
                return Some(self.entries[i].0);
            }
            i += 1;
        }
        None
    }

    /// The place of the waker under `key`.
    fn position(&self, key: usize) -> (place: Option<usize>)
        ensures
            place is Some <==> has_key(self@, key),
            place matches Some(i) ==> i < self@.len() && self@[i as int].0 == key,
    {
        let mut i: usize = 0;
        while i < self.entries.len()
            invariant
                i <= self.entries@.len(),
                forall|j: int| 0 <= j < i ==> (#[trigger] self.entries@[j]).0 != key,
            decreases self.entries@.len() - i,
        {
            if self.entries[i].0 == key {
                return Some(i);
            }
            i += 1;
        }
        None
    }

    /// Lets a future leave the waker under the key `slot`, if there is one. Returns the waker if
    /// it goes with the future.
    pub fn leave(&mut self, slot: Option<usize>) -> (gone: Option<Waker>)
        requires
            waiting_wf(old(self)@),
        ensures
            final(self)@ == left(old(self)@, slot),
            gone is Some <==> final(self)@.len() < old(self)@.len(),
            gone matches Some(waker) ==> waker == old(self)@[place_of(old(self)@, slot->0)].1.waker,
    {
        let key = match slot {
            Some(key) => key,
            None => {
                return None;
            },
        };
        let place = match self.position(key) {
            Some(place) => place,
            None => {
                return None;
            },
        };
        proof {
            lemma_place(self@, place as int);
        }
        let futures = self.entries[place].1.futures;
        if futures == u64::MAX {
            None
        } else if futures == 1 {
            let entry = self.entries.remove(place);
            Some(entry.1.waker)
        } else {
            self.recount(place, futures - 1);
            None
        }
    }

    /// Changes the number of futures that wait through the waker at `place`.
    fn recount(&mut self, place: usize, futures: u64)
        requires
            place < old(self)@.len(),
        ensures
            final(self)@ == old(self)@.update(
                place as int,
                (
                    old(self)@[place as int].0,
                    Waiter { futures, ..old(self)@[place as int].1 },
                ),
            ),
    {
        self.entries[place].1.futures = futures;
    }

    /// Lets one more future wait through the waker under `key`.
    pub fn join(&mut self, key: usize)
        requires
            waiting_wf(old(self)@),
            has_key(old(self)@, key),
        ensures
            final(self)@ == joined(old(self)@, key),
    {
        let place = self.position(key).unwrap();
        proof {
            lemma_place(self@, place as int);
        }
        let futures = self.entries[place].1.futures;
        if futures < u64::MAX {
            self.recount(place, futures + 1);
        }
    }

    /// Keeps a waker for a first future, under a key that is not in use.
    pub fn watch(&mut self, waker: Waker) -> (key: usize)
        requires
            waiting_wf(old(self)@),
        ensures
            !has_key(old(self)@, key),
            final(self)@ == watched(old(self)@, key, waker),
    {
        let key = self.fresh();
        self.entries.push((key, Waiter { waker, futures: 1 }));
        key
    }

    /// The smallest key that is not in use.
    fn fresh(&self) -> (key: usize)
        requires
            waiting_wf(self@),
        ensures
            !has_key(self@, key),
    {
        let mut key: usize = 0;
        while self.position(key).is_some()
            invariant
                waiting_wf(self@),
                forall|k: usize| k < key ==> #[trigger] has_key(self@, k),
                key <= self.entries.len(),
            decreases self.entries@.len() - key,
        {
            proof {
                lemma_keys_needed(self@, (key + 1) as nat);
            }
            key += 1;
        }
        key
    }

    /// Takes every waker out, in the order in which they came.
    pub fn drain(&mut self) -> (wakers: Vec<Waker>)
        ensures
            final(self)@ == Seq::<(usize, Waiter)>::empty(),
            wakers@.len() == old(self)@.len(),
            forall|i: int|
                0 <= i < wakers@.len() ==> #[trigger] wakers@[i] == old(self)@[i].1.waker,
    {
        let mut entries: Vec<(usize, Waiter)> = Vec::new();
        core::mem::swap(&mut entries, &mut self.entries);
        let ghost all = entries@;
        let mut wakers: Vec<Waker> = Vec::new();
        for entry in it: entries
            invariant
                it.seq() == all,
                wakers@.len() == it.index(),
                forall|i: int| 0 <= i < wakers@.len() ==> #[trigger] wakers@[i] == all[i].1.waker,
        {
            wakers.push(entry.1.waker);
        }
        wakers
    }
}

/// Where the first `count` keys are all in use, there are as many entries.
proof fn lemma_keys_needed(entries: Seq<(usize, Waiter)>, count: nat)
    requires
        keys_distinct(entries),
        count <= usize::MAX + 1,
        forall|k: usize| k < count ==> #[trigger] has_key(entries, k),
    ensures
        count <= entries.len(),
    decreases count,
{
    if count > 0 {
        let last = (count - 1) as usize;
        assert(has_key(entries, last));
        let place = place_of(entries, last);
        lemma_removed(entries, place);
        lemma_keys_needed(entries.remove(place), (count - 1) as nat);
    }
}

} // verus!
