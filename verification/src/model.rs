//! The store as mathematics: a sequence of entries in which no key stands
//! twice, and the mapping from keys to values that it is.

use vstd::prelude::*;
use crate::format::{storable, Entry};

verus! {

/// Some entry of `entries` has the key `key`.
pub open spec fn has_key(entries: Seq<Entry>, key: Seq<char>) -> bool {
    exists|i: int| 0 <= i < entries.len() && (#[trigger] entries[i]).key == key
}

/// No two entries of `entries` have the same key.
pub open spec fn distinct_keys(entries: Seq<Entry>) -> bool {
    forall|i: int, j: int|
        0 <= i < j < entries.len() ==> (#[trigger] entries[i]).key != (#[trigger] entries[j]).key
}

/// What a store may hold: entries that can be stored and read back, no key
/// twice.
pub open spec fn well_formed(entries: Seq<Entry>) -> bool {
    &&& distinct_keys(entries)
    &&& forall|i: int| 0 <= i < entries.len() ==> storable(#[trigger] entries[i])
}

/// `e` stands in `entries`, and no other entry of `entries` has its key.
pub open spec fn sole_entry(entries: Seq<Entry>, e: Entry) -> bool {
    exists|i: int|
        0 <= i < entries.len() && #[trigger] entries[i] == e && forall|j: int|
            0 <= j < entries.len() && j != i ==> (#[trigger] entries[j]).key != e.key
}

/// Where the sole entry `e` of `entries` stands.
pub open spec fn sole_index(entries: Seq<Entry>, e: Entry) -> int {
    choose|i: int|
        0 <= i < entries.len() && #[trigger] entries[i] == e && forall|j: int|
            0 <= j < entries.len() && j != i ==> (#[trigger] entries[j]).key != e.key
}

/// `entries` after `e` is put into it: `e` takes the place of the entries
/// that have its key; where there is none, it goes to the end.
pub open spec fn put(entries: Seq<Entry>, e: Entry) -> Seq<Entry> {
    if has_key(entries, e.key) {
        entries.map_values(
            |x: Entry|
                if x.key == e.key {
                    e
                } else {
                    x
                },
        )
    } else {
        entries.push(e)
    }
}

/// The mapping that `entries` is: each key with the value of the last entry
/// that has it.
pub open spec fn mapping_of(entries: Seq<Entry>) -> Map<Seq<char>, Seq<char>>
    decreases entries.len(),
{
    if entries.len() == 0 {
        Map::empty()
    } else {
        mapping_of(entries.drop_last()).insert(entries.last().key, entries.last().value)
    }
}

/// The keys of `mapping_of(entries)` are the keys of the entries, and there
/// are finitely many.
pub proof fn lemma_mapping_keys(entries: Seq<Entry>)
    ensures
        mapping_of(entries).dom().finite(),
        forall|k: Seq<char>| #[trigger] mapping_of(entries).contains_key(k) <==> has_key(entries, k),
    decreases entries.len(),
{
    if entries.len() > 0 {
        let front = entries.drop_last();
        lemma_mapping_keys(front);
        assert forall|k: Seq<char>| #[trigger]
            mapping_of(entries).contains_key(k) <==> has_key(entries, k) by {
            if has_key(entries, k) {
                let i = choose|i: int| 0 <= i < entries.len() && (#[trigger] entries[i]).key == k;
                if i < front.len() {
                    assert(front[i].key == k);
                }
            }
            if mapping_of(entries).contains_key(k) && k != entries.last().key {
                let i = choose|i: int| 0 <= i < front.len() && (#[trigger] front[i]).key == k;
                assert(entries[i].key == k);
            } else if k == entries.last().key {
                assert(entries[entries.len() - 1].key == k);
            }
        }
    }
}

/// The last entry with a key gives that key's value.
pub proof fn lemma_mapping_value(entries: Seq<Entry>, i: int)
    requires
        0 <= i < entries.len(),
        forall|j: int| i < j < entries.len() ==> (#[trigger] entries[j]).key != entries[i].key,
    ensures
        mapping_of(entries).contains_key(entries[i].key),
        mapping_of(entries)[entries[i].key] == entries[i].value,
    decreases entries.len(),
{
    if i < entries.len() - 1 {
        let front = entries.drop_last();
        assert(entries[entries.len() - 1].key != entries[i].key);
        assert forall|j: int| i < j < front.len() implies (#[trigger] front[j]).key
            != front[i].key by {
            assert(entries[j].key != entries[i].key);
        }
        lemma_mapping_value(front, i);
    }
}

/// Where no key stands twice, the mapping has as many keys as there are
/// entries.
pub proof fn lemma_mapping_len(entries: Seq<Entry>)
    requires
        distinct_keys(entries),
    ensures
        mapping_of(entries).len() == entries.len(),
    decreases entries.len(),
{
    if entries.len() > 0 {
        let front = entries.drop_last();
        lemma_mapping_len(front);
        lemma_mapping_keys(front);
        if has_key(front, entries.last().key) {
            let i = choose|i: int|
                0 <= i < front.len() && (#[trigger] front[i]).key == entries.last().key;
            assert(entries[i].key == entries[entries.len() - 1].key);
        }
    }
}

/// Putting an entry into a store whose keys are distinct keeps them
/// distinct, keeps or adds one entry, and is `insert` on the mapping.
pub proof fn lemma_put(entries: Seq<Entry>, e: Entry)
    requires
        distinct_keys(entries),
    ensures
        distinct_keys(put(entries, e)),
        put(entries, e).len() == entries.len() + if has_key(entries, e.key) { 0int } else { 1 },
        mapping_of(put(entries, e)) == mapping_of(entries).insert(e.key, e.value),
        sole_entry(put(entries, e), e),
        forall|i: int| 0 <= i < put(entries, e).len() ==> #[trigger] put(entries, e)[i] == e || (i
            < entries.len() && put(entries, e)[i] == entries[i]),
{
    let after = put(entries, e);
    if has_key(entries, e.key) {
        let at = choose|i: int| 0 <= i < entries.len() && (#[trigger] entries[i]).key == e.key;
        assert forall|i: int| 0 <= i < after.len() implies (#[trigger] after[i]).key
            == entries[i].key by {}
        assert(distinct_keys(after)) by {
            assert forall|i: int, j: int| 0 <= i < j < after.len() implies (#[trigger] after[i]).key
                != (#[trigger] after[j]).key by {
                assert(entries[i].key != entries[j].key);
            }
        }
        assert(after[at] == e);
        assert(sole_entry(after, e)) by {
            assert forall|j: int| 0 <= j < after.len() && j != at implies (#[trigger] after[j]).key
                != e.key by {
                if j < at {
                    assert(entries[j].key != entries[at].key);
                } else {
                    assert(entries[at].key != entries[j].key);
                }
            }
        }
    } else {
        assert(distinct_keys(after)) by {
            assert forall|i: int, j: int| 0 <= i < j < after.len() implies (#[trigger] after[i]).key
                != (#[trigger] after[j]).key by {
                if j < entries.len() {
                    assert(entries[i].key != entries[j].key);
                } else {
                    assert(entries[i].key != e.key);
                }
            }
        }
        assert(after[after.len() - 1] == e);
        assert(sole_entry(after, e)) by {
            assert forall|j: int|
                0 <= j < after.len() && j != after.len() - 1 implies (#[trigger] after[j]).key
                != e.key by {
                assert(entries[j].key != e.key);
            }
        }
    }
    lemma_mapping_keys(entries);
    lemma_mapping_keys(after);
    let left = mapping_of(after);
    let right = mapping_of(entries).insert(e.key, e.value);
    assert forall|k: Seq<char>| left.contains_key(k) <==> right.contains_key(k) by {
        if has_key(after, k) {
            let i = choose|i: int| 0 <= i < after.len() && (#[trigger] after[i]).key == k;
            if after[i] != e {
                assert(entries[i].key == k);
            }
        }
        if has_key(entries, k) {
            let i = choose|i: int| 0 <= i < entries.len() && (#[trigger] entries[i]).key == k;
            assert(after[i].key == k);
        }
        if k == e.key {
            let i = choose|i: int| 0 <= i < after.len() && after[i] == e;
            assert(after[i].key == k);
        }
    }
    assert forall|k: Seq<char>| left.contains_key(k) implies left[k] == right[k] by {
        let i = choose|i: int| 0 <= i < after.len() && (#[trigger] after[i]).key == k;
        assert forall|j: int| i < j < after.len() implies (#[trigger] after[j]).key
            != after[i].key by {}
        lemma_mapping_value(after, i);
        if k != e.key {
            assert(after[i] == entries[i]);
            assert forall|j: int| i < j < entries.len() implies (#[trigger] entries[j]).key
                != entries[i].key by {}
            lemma_mapping_value(entries, i);
        }
    }
    assert(left =~= right);
}

} // verus!
