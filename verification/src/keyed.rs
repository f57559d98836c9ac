//! Lists of entries with distinct keys, as maps.

use vstd::prelude::*;

verus! {

/// The map that a list of entries stands for; a later entry hides an earlier one with its key.
pub open spec fn entry_map<K, V>(entries: Seq<(K, V)>) -> Map<K, V>
    decreases entries.len(),
{
    if entries.len() == 0 {
        Map::empty()
    } else {
        entry_map(entries.drop_last()).insert(entries.last().0, entries.last().1)
    }
}

/// Whether no key stands twice.
pub open spec fn distinct_keys<K, V>(entries: Seq<(K, V)>) -> bool {
    forall|i: int, j: int|
        0 <= i < j < entries.len() ==> (#[trigger] entries[i]).0 != (#[trigger] entries[j]).0
}

/// A key is in the map just where an entry has it.
pub proof fn lemma_entry_map_dom<K, V>(entries: Seq<(K, V)>, key: K)
    ensures
        entry_map(entries).dom().contains(key) <==> exists|i: int|
            0 <= i < entries.len() && (#[trigger] entries[i]).0 == key,
    decreases entries.len(),
{
    if entries.len() > 0 {
        let front = entries.drop_last();
        lemma_entry_map_dom(front, key);
        if entry_map(entries).dom().contains(key) {
            if key == entries.last().0 {
                assert(entries[entries.len() - 1].0 == key);
            } else {
                let i = choose|i: int| 0 <= i < front.len() && (#[trigger] front[i]).0 == key;
                assert(entries[i].0 == key);
            }
        }
        if exists|i: int| 0 <= i < entries.len() && (#[trigger] entries[i]).0 == key {
            let i = choose|i: int| 0 <= i < entries.len() && (#[trigger] entries[i]).0 == key;
            if i < front.len() {
                assert(front[i].0 == key);
            }
        }
    }
}

/// With distinct keys, the map holds every entry.
pub proof fn lemma_entry_map_get<K, V>(entries: Seq<(K, V)>, i: int)
    requires
        distinct_keys(entries),
        0 <= i < entries.len(),
    ensures
        entry_map(entries).dom().contains(entries[i].0),
        entry_map(entries)[entries[i].0] == entries[i].1,
    decreases entries.len(),
{
    let front = entries.drop_last();
    if i < front.len() {
        assert(distinct_keys(front));
        lemma_entry_map_get(front, i);
        assert(entries[i].0 != entries[entries.len() - 1].0);
    }
}

/// With distinct keys, the map has as many keys as there are entries, and they are finite.
pub proof fn lemma_entry_map_len<K, V>(entries: Seq<(K, V)>)
    requires
        distinct_keys(entries),
    ensures
        entry_map(entries).dom().finite(),
        entry_map(entries).dom().len() == entries.len(),
    decreases entries.len(),
{
    if entries.len() > 0 {
        let front = entries.drop_last();
        assert(distinct_keys(front));
        lemma_entry_map_len(front);
        lemma_entry_map_dom(front, entries.last().0);
        assert(entry_map(entries).dom() =~= entry_map(front).dom().insert(entries.last().0));
    }
}

/// Replacing the value of an entry replaces the value in the map.
pub proof fn lemma_entry_map_update<K, V>(entries: Seq<(K, V)>, i: int, value: V)
    requires
        distinct_keys(entries),
        0 <= i < entries.len(),
    ensures
        distinct_keys(entries.update(i, (entries[i].0, value))),
        entry_map(entries.update(i, (entries[i].0, value))) == entry_map(entries).insert(
            entries[i].0,
            value,
        ),
    decreases entries.len(),
{
    let after = entries.update(i, (entries[i].0, value));
    assert forall|a: int, b: int| 0 <= a < b < after.len() implies (#[trigger] after[a]).0 != (
    #[trigger] after[b]).0 by {
        assert(entries[a].0 != entries[b].0);
    }
    let front = entries.drop_last();
    if i < front.len() {
        assert(distinct_keys(front));
        lemma_entry_map_update(front, i, value);
        assert(after.drop_last() =~= front.update(i, (front[i].0, value)));
        assert(entries[i].0 != entries[entries.len() - 1].0);
        assert(entry_map(after) =~= entry_map(entries).insert(entries[i].0, value));
    } else {
        assert(after.drop_last() =~= front);
        assert(entry_map(after) =~= entry_map(entries).insert(entries[i].0, value));
    }
}

/// Taking an entry out takes its key out of the map.
pub proof fn lemma_entry_map_remove<K, V>(entries: Seq<(K, V)>, i: int)
    requires
        distinct_keys(entries),
        0 <= i < entries.len(),
    ensures
        distinct_keys(entries.remove(i)),
        entry_map(entries.remove(i)) == entry_map(entries).remove(entries[i].0),
    decreases entries.len(),
{
    let after = entries.remove(i);
    assert forall|a: int, b: int| 0 <= a < b < after.len() implies (#[trigger] after[a]).0 != (
    #[trigger] after[b]).0 by {
        let a0 = if a < i {
            a
        } else {
            a + 1
        };
        let b0 = if b < i {
            b
        } else {
            b + 1
        };
        assert(entries[a0].0 != entries[b0].0);
    }
    let front = entries.drop_last();
    assert(distinct_keys(front));
    if i < front.len() {
        lemma_entry_map_remove(front, i);
        assert(after.drop_last() =~= front.remove(i));
        assert(after.last() == entries.last());
        assert(entries[i].0 != entries[entries.len() - 1].0);
        assert(entry_map(after) =~= entry_map(entries).remove(entries[i].0));
    } else {
        assert(after =~= front);
        lemma_entry_map_dom(front, entries[i].0);
        assert(entry_map(after) =~= entry_map(entries).remove(entries[i].0));
    }
}

/// Appending an entry with a new key puts it into the map.
pub proof fn lemma_entry_map_push<K, V>(entries: Seq<(K, V)>, key: K, value: V)
    requires
        distinct_keys(entries),
        forall|i: int| 0 <= i < entries.len() ==> (#[trigger] entries[i]).0 != key,
    ensures
        distinct_keys(entries.push((key, value))),
        entry_map(entries.push((key, value))) == entry_map(entries).insert(key, value),
{
    let after = entries.push((key, value));
    assert forall|a: int, b: int| 0 <= a < b < after.len() implies (#[trigger] after[a]).0 != (
    #[trigger] after[b]).0 by {
        assert(after[a] == entries[a]);
        if b < entries.len() {
            assert(after[b] == entries[b]);
        }
    }
    assert(after.drop_last() =~= entries);
}

/// Where an entry with a new key is put does not matter to the map.
pub proof fn lemma_entry_map_insert<K, V>(
    entries: Seq<(K, V)>,
    at: int,
    entry: (K, V),
)
    requires
        distinct_keys(entries),
        0 <= at <= entries.len(),
        !entry_map(entries).dom().contains(entry.0),
    ensures
        distinct_keys(entries.insert(at, entry)),
        entry_map(entries.insert(at, entry)) == entry_map(entries).insert(entry.0, entry.1),
    decreases entries.len(),
{
    let after = entries.insert(at, entry);
    assert forall|k: int| 0 <= k < entries.len() implies (#[trigger] entries[k]).0 != entry.0 by {
        lemma_entry_map_dom(entries, entry.0);
    }
    assert forall|a: int, b: int| 0 <= a < b < after.len() implies (#[trigger] after[a]).0 != (
    #[trigger] after[b]).0 by {
        let a0 = if a < at {
            a
        } else {
            a - 1
        };
        let b0 = if b < at {
            b
        } else {
            b - 1
        };
        if a != at && b != at {
            assert(entries[a0].0 != entries[b0].0);
        } else if a == at {
            assert(entries[b0].0 != entry.0);
        } else {
            assert(entries[a0].0 != entry.0);
        }
    }
    if at == entries.len() {
        assert(after =~= entries.push(entry));
        assert(after.drop_last() =~= entries);
    } else {
        let front = entries.drop_last();
        assert(distinct_keys(front));
        lemma_entry_map_dom(front, entry.0);
        if entry_map(front).dom().contains(entry.0) {
            let k = choose|k: int| 0 <= k < front.len() && (#[trigger] front[k]).0 == entry.0;
            assert(entries[k].0 == entry.0);
        }
        lemma_entry_map_insert(front, at, entry);
        assert(after.drop_last() =~= front.insert(at, entry));
        assert(after.last() == entries.last());
        assert(entries[entries.len() - 1].0 != entry.0);
        assert(entry_map(after) =~= entry_map(entries).insert(entry.0, entry.1));
    }
}

} // verus!
