use vstd::prelude::*;

verus! {

/// Whether `key` is the key of one of the entries.
pub open spec fn has_key<T>(entries: Seq<(usize, T)>, key: usize) -> bool {
    exists|i: int| 0 <= i < entries.len() && (#[trigger] entries[i]).0 == key
}

/// The place of the entry with the key `key`.
pub open spec fn place_of<T>(entries: Seq<(usize, T)>, key: usize) -> int
    recommends
        has_key(entries, key),
{
    choose|i: int| 0 <= i < entries.len() && (#[trigger] entries[i]).0 == key
}

/// No two entries have the same key.
pub open spec fn keys_distinct<T>(entries: Seq<(usize, T)>) -> bool {
    forall|i: int, j: int|
        0 <= i < j < entries.len() ==> (#[trigger] entries[i]).0 != (#[trigger] entries[j]).0
}

/// The entry at `place` is the one that its key is found at.
pub proof fn lemma_place<T>(entries: Seq<(usize, T)>, place: int)
    requires
        keys_distinct(entries),
        0 <= place < entries.len(),
    ensures
        has_key(entries, entries[place].0),
        place_of(entries, entries[place].0) == place,
{
    let found = place_of(entries, entries[place].0);
    assert(entries[found].0 == entries[place].0);
}

/// Adding an entry with a new key keeps the keys distinct and adds that key, and no other.
pub proof fn lemma_pushed<T>(entries: Seq<(usize, T)>, entry: (usize, T))
    requires
        keys_distinct(entries),
        !has_key(entries, entry.0),
    ensures
        keys_distinct(entries.push(entry)),
        forall|key: usize| #[trigger]
            has_key(entries.push(entry), key) <==> has_key(entries, key) || key == entry.0,
        forall|key: usize|
            has_key(entries, key) ==> #[trigger] place_of(entries.push(entry), key) == place_of(
                entries,
                key,
            ),
        place_of(entries.push(entry), entry.0) == entries.len(),
{
    let after = entries.push(entry);
    assert forall|i: int, j: int| 0 <= i < j < after.len() implies (#[trigger] after[i]).0 != (
    #[trigger] after[j]).0 by {
        assert(entries[i].0 == after[i].0);
        if j < entries.len() {
            assert(entries[j].0 == after[j].0);
        }
    }
    assert forall|key: usize| #[trigger]
        has_key(after, key) <==> has_key(entries, key) || key == entry.0 by {
        if has_key(entries, key) {
            assert(after[place_of(entries, key)].0 == key);
        }
        if key == entry.0 {
            assert(after[entries.len() as int].0 == key);
        }
        if has_key(after, key) && key != entry.0 {
            assert(entries[place_of(after, key)].0 == key);
        }
    }
    assert forall|key: usize| has_key(entries, key) implies #[trigger] place_of(after, key)
        == place_of(entries, key) by {
        let i = place_of(entries, key);
        assert(after[i] == entries[i]);
        lemma_place(after, i);
    }
    lemma_place(after, entries.len() as int);
}

/// Taking the entry at `place` out keeps the keys distinct and takes its key away, and no other.
/// What the other keys stand for stays as it is.
pub proof fn lemma_removed<T>(entries: Seq<(usize, T)>, place: int)
    requires
        keys_distinct(entries),
        0 <= place < entries.len(),
    ensures
        keys_distinct(entries.remove(place)),
        forall|key: usize| #[trigger]
            has_key(entries.remove(place), key) <==> has_key(entries, key) && key
                != entries[place].0,
        forall|key: usize|
            has_key(entries, key) && key != entries[place].0 ==> entries.remove(
                place,
            )[#[trigger] place_of(entries.remove(place), key)] == entries[place_of(entries, key)],
{
    let after = entries.remove(place);
    assert forall|i: int, j: int| 0 <= i < j < after.len() implies (#[trigger] after[i]).0 != (
    #[trigger] after[j]).0 by {
        let i0 = if i < place { i } else { i + 1 };
        let j0 = if j < place { j } else { j + 1 };
        assert(entries[i0].0 != entries[j0].0);
    }
    assert forall|key: usize| #[trigger]
        has_key(after, key) <==> has_key(entries, key) && key != entries[place].0 by {
        if has_key(after, key) {
            let i = place_of(after, key);
            let i0 = if i < place { i } else { i + 1 };
            assert(entries[i0].0 == key);
            assert(entries[i0].0 != entries[place].0);
        }
        if has_key(entries, key) && key != entries[place].0 {
            let i0 = place_of(entries, key);
            let i = if i0 < place { i0 } else { i0 - 1 };
            assert(after[i].0 == key);
        }
    }
    assert forall|key: usize| has_key(entries, key) && key != entries[place].0 implies after[
    #[trigger] place_of(after, key)] == entries[place_of(entries, key)] by {
        let i0 = place_of(entries, key);
        let i = if i0 < place { i0 } else { i0 - 1 };
        assert(after[i] == entries[i0]);
        lemma_place(after, i);
    }
}

/// Changing what the key at `place` stands for keeps every key at its place.
pub proof fn lemma_updated<T>(entries: Seq<(usize, T)>, place: int, value: T)
    requires
        keys_distinct(entries),
        0 <= place < entries.len(),
    ensures
        keys_distinct(entries.update(place, (entries[place].0, value))),
        forall|key: usize| #[trigger]
            has_key(entries.update(place, (entries[place].0, value)), key) <==> has_key(
                entries,
                key,
            ),
        forall|key: usize|
            has_key(entries, key) ==> #[trigger] place_of(
                entries.update(place, (entries[place].0, value)),
                key,
            ) == place_of(entries, key),
{
    let after = entries.update(place, (entries[place].0, value));
    assert forall|i: int| 0 <= i < entries.len() implies (#[trigger] after[i]).0
        == entries[i].0 by {}
    assert forall|key: usize| #[trigger] has_key(after, key) <==> has_key(entries, key) by {
        if has_key(entries, key) {
            assert(after[place_of(entries, key)].0 == key);
        }
        if has_key(after, key) {
            assert(entries[place_of(after, key)].0 == key);
        }
    }
    assert forall|key: usize| has_key(entries, key) implies #[trigger] place_of(after, key)
        == place_of(entries, key) by {
        let i = place_of(entries, key);
        assert(after[i].0 == key);
        lemma_place(after, i);
    }
}

} // verus!
