use slab::Slab;
use vstd::prelude::*;

use crate::callback::Callback;
use crate::keyed::{has_key, keys_distinct, place_of};

verus! {

/// The slab of the `slab` crate: storage that hands out a stable key for each item.
#[verifier::external_type_specification]
#[verifier::external_body]
#[verifier::reject_recursive_types(T)]
pub struct ExSlab<T>(slab::Slab<T>);

/// The callbacks that a slab holds, by their keys.
pub uninterp spec fn slab_items(slab: slab::Slab<Callback>) -> Map<usize, Callback>;

/// `Slab::new`: a new slab holds nothing.
#[verifier::external_body]
fn slab_new() -> (slab: Slab<Callback>)
    ensures
        slab_items(slab).dom() == Set::<usize>::empty(),
{
    Slab::new()
}

/// `Slab::insert`: stores the callback under a key that was vacant and returns the key; what is
/// stored under other keys stays as it was. Which of the vacant keys is taken is left open.
#[verifier::external_body]
fn slab_insert(slab: &mut Slab<Callback>, callback: Callback) -> (key: usize)
    ensures
        !slab_items(*old(slab)).contains_key(key),
        slab_items(*final(slab)) == slab_items(*old(slab)).insert(key, callback),
{
    slab.insert(callback)
}

/// `Slab::remove`: takes out and returns what is stored under the key; what is stored under other
/// keys stays as it was. The call panics on a vacant key, so the key has to be an occupied one.
#[verifier::external_body]
fn slab_remove(slab: &mut Slab<Callback>, key: usize) -> (callback: Callback)
    requires
        slab_items(*old(slab)).contains_key(key),
    ensures
        callback == slab_items(*old(slab))[key],
        slab_items(*final(slab)) == slab_items(*old(slab)).remove(key),
{
    slab.remove(key)
}

/// `Slab::contains`: whether something is stored under the key.
#[verifier::external_body]
fn slab_contains(slab: &Slab<Callback>, key: usize) -> (found: bool)
    ensures
        found == slab_items(*slab).contains_key(key),
{
    slab.contains(key)
}

/// `Slab::len`: the number of items that are stored.
#[verifier::external_body]
fn slab_len(slab: &Slab<Callback>) -> (len: usize)
    ensures
        len == slab_items(*slab).dom().len(),
{
    slab.len()
}

/// The right to one stored callback: the key that it is stored under.
///
/// `Callbacks::insert` alone makes one, and `Callbacks::remove` takes it back, so that no other
/// callback than one's own can be removed, and that but once.
pub struct Key {
    key: usize,
}

impl Key {
    /// The key as a number.
    pub closed spec fn number(&self) -> usize {
        self.key
    }

    /// The key as a number.
    pub fn value(&self) -> (key: usize)
        ensures
            key == self.number(),
    {
        self.key
    }
}

/// The callbacks that are registered, each under a key that stays the same until it is removed.
///
/// They are stored in a slab, which uses a key again once it is vacant, so the order of the keys
/// is not that of the registrations. `order` keeps the latter: it lists the keys in the order in
/// which the callbacks were registered.
pub struct Callbacks {
    slab: Slab<Callback>,
    order: Vec<usize>,
}

impl View for Callbacks {
    type V = Seq<(usize, Callback)>;

    /// The keys and callbacks, in registration order.
    closed spec fn view(&self) -> Seq<(usize, Callback)> {
        Seq::new(self.order@.len(), |i: int| (self.order@[i], slab_items(self.slab)[self.order@[i]]))
    }
}

impl Callbacks {
    /// The keys that are listed are the keys that are stored, each listed once.
    pub closed spec fn wf(&self) -> bool {
        &&& self.order@.no_duplicates()
        &&& forall|key: usize| #[trigger]
            slab_items(self.slab).contains_key(key) <==> self.order@.contains(key)
    }

    /// A key is listed if and only if one of the entries has it.
    proof fn lemma_listed(&self, key: usize)
        ensures
            self.order@.contains(key) <==> has_key(self@, key),
    {
        if self.order@.contains(key) {
            assert(self@[self.order@.index_of(key)].0 == key);
        }
        if has_key(self@, key) {
            assert(self.order@[place_of(self@, key)] == key);
        }
    }

    /// The entries have distinct keys.
    pub proof fn lemma_keys_distinct(&self)
        requires
            self.wf(),
        ensures
            keys_distinct(self@),
    {
    }

    /// A collection without callbacks.
    pub fn new() -> (callbacks: Self)
        ensures
            callbacks.wf(),
            callbacks@ == Seq::<(usize, Callback)>::empty(),
    {
        Callbacks { slab: slab_new(), order: Vec::new() }
    }

    /// Adds a callback behind the others, under a key that none of them has.
    pub fn insert(&mut self, callback: Callback) -> (key: Key)
        requires
            old(self).wf(),
        ensures
            final(self).wf(),
            !has_key(old(self)@, key.number()),
            final(self)@ == old(self)@.push((key.number(), callback)),
    {
        let key = slab_insert(&mut self.slab, callback);
        self.order.push(key);
        proof {
            let before = old(self).order@;
            let after = self.order@;
            old(self).lemma_listed(key);
            assert forall|k: usize| #[trigger]
                slab_items(self.slab).contains_key(k) <==> after.contains(k) by {
                if before.contains(k) {
                    assert(after[before.index_of(k)] == k);
                }
                if k == key {
                    assert(after[before.len() as int] == k);
                }
                if after.contains(k) && k != key {
                    assert(before[after.index_of(k)] == k);
                }
                assert(slab_items(old(self).slab).contains_key(k) <==> before.contains(k));
            }
            assert forall|i: int| 0 <= i < before.len() implies #[trigger] self@[i] == old(
                self,
            )@[i] by {
                assert(before.contains(before[i]));
                assert(slab_items(old(self).slab).contains_key(before[i]));
            }
            assert(self@ =~= old(self)@.push((key, callback)));
        }
        Key { key }
    }

    /// Whether a callback is registered under `key`.
    pub fn contains(&self, key: &Key) -> (found: bool)
        requires
            self.wf(),
        ensures
            found == has_key(self@, key.number()),
    {
        proof {
            self.lemma_listed(key.key);
        }
        slab_contains(&self.slab, key.key)
    }

    /// Removes the callback that is registered under `key` and returns it. The others keep their
    /// keys and their order.
    pub fn remove(&mut self, key: Key) -> (callback: Callback)
        requires
            old(self).wf(),
            has_key(old(self)@, key.number()),
        ensures
            final(self).wf(),
            callback == old(self)@[place_of(old(self)@, key.number())].1,
            final(self)@ == old(self)@.remove(place_of(old(self)@, key.number())),
    {
        let key = key.key;
        proof {
            self.lemma_listed(key);
        }
        let mut place: usize = 0;
        while self.order[place] != key
            invariant
                self.order@.contains(key),
                place < self.order.len(),
                forall|i: int| 0 <= i < place ==> self.order@[i] != key,
                self == old(self),
            decreases self.order@.len() - place,
        {
            proof {
                assert(self.order@.index_of(key) > place);
            }
            place += 1;
        }
        assert(place_of(self@, key) == place) by {
            assert(self@[place as int].0 == key);
            self.lemma_keys_distinct();
        }
        self.order.remove(place);
        let callback = slab_remove(&mut self.slab, key);
        proof {
            let before = old(self).order@;
            let after = self.order@;
            assert forall|k: usize| #[trigger]
                slab_items(self.slab).contains_key(k) <==> after.contains(k) by {
                lemma_contains_removed(before, place as int, k);
                assert(slab_items(old(self).slab).contains_key(k) <==> before.contains(k));
            }
            assert forall|i: int, j: int| 0 <= i < j < after.len() implies after[i] != after[j] by {
                let i0 = if i < place { i } else { i + 1 };
                let j0 = if j < place { j } else { j + 1 };
                assert(before[i0] != before[j0]);
            }
            assert(self@ =~= old(self)@.remove(place as int));
        }
        callback
    }

    /// Takes every callback out, in registration order.
    pub fn drain(&mut self) -> (callbacks: Vec<Callback>)
        requires
            old(self).wf(),
        ensures
            final(self).wf(),
            final(self)@ == Seq::<(usize, Callback)>::empty(),
            callbacks@.len() == old(self)@.len(),
            forall|i: int| 0 <= i < callbacks@.len() ==> #[trigger] callbacks@[i] == old(self)@[i].1,
    {
        let mut callbacks: Vec<Callback> = Vec::new();
        let mut order: Vec<usize> = Vec::new();
        core::mem::swap(&mut order, &mut self.order);
        let ghost items = slab_items(self.slab);
        let mut next: usize = 0;
        assert(order@.skip(0) =~= order@);
        while next < order.len()
            invariant
                next <= order@.len(),
                order@ == old(self).order@,
                order@.no_duplicates(),
                items == slab_items(old(self).slab),
                forall|key: usize| #[trigger] items.contains_key(key) <==> order@.contains(key),
                self.order@ == Seq::<usize>::empty(),
                forall|key: usize| #[trigger]
                    slab_items(self.slab).contains_key(key) <==> order@.skip(
                        next as int,
                    ).contains(key),
                forall|key: usize| #[trigger]
                    slab_items(self.slab).contains_key(key) ==> slab_items(self.slab)[key]
                        == items[key],
                callbacks@.len() == next,
                forall|i: int| 0 <= i < next ==> #[trigger] callbacks@[i] == items[order@[i]],
            decreases order@.len() - next,
        {
            let key = order[next];
            let ghost rest = order@.skip(next as int);
            proof {
                assert(rest[0] == key);
                assert(slab_items(self.slab).contains_key(key));
                assert forall|k: usize| order@.skip(next + 1).contains(k) <==> #[trigger] rest.contains(
                    k,
                ) && k != key by {
                    lemma_contains_removed(rest, 0, k);
                    assert(rest.remove(0) =~= order@.skip(next + 1));
                }
            }
            callbacks.push(slab_remove(&mut self.slab, key));
            next += 1;
        }
        callbacks
    }

    /// The number of registered callbacks.
    pub fn len(&self) -> (len: usize)
        requires
            self.wf(),
        ensures
            len == self@.len(),
    {
        proof {
            self.order@.unique_seq_to_set();
            assert forall|key: usize| #[trigger]
                slab_items(self.slab).dom().contains(key) <==> self.order@.to_set().contains(
                    key,
                ) by {
                assert(slab_items(self.slab).contains_key(key) <==> self.order@.contains(key));
            }
            assert(slab_items(self.slab).dom() =~= self.order@.to_set());
        }
        slab_len(&self.slab)
    }
}

/// Taking the key at `place` out of a list of distinct keys takes that key away, and no other.
proof fn lemma_contains_removed(keys: Seq<usize>, place: int, key: usize)
    requires
        keys.no_duplicates(),
        0 <= place < keys.len(),
    ensures
        keys.remove(place).contains(key) <==> keys.contains(key) && key != keys[place],
{
    let after = keys.remove(place);
    if after.contains(key) {
        let i = after.index_of(key);
        let i0 = if i < place { i } else { i + 1 };
        assert(keys[i0] == key);
    }
    if keys.contains(key) && key != keys[place] {
        let i0 = keys.index_of(key);
        let i = if i0 < place { i0 } else { i0 - 1 };
        assert(after[i] == key);
    }
}

} // verus!
