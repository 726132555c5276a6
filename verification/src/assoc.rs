use vstd::prelude::*;

verus! {

/// Association lists with string keys, read by first match: the lookup
/// scans from the front, and the containers built on this never hold
/// the same key twice.
pub open spec fn lookup_entries<V>(entries: Seq<(Seq<char>, V)>, k: Seq<char>) -> Option<V>
    decreases entries.len(),
{
    if entries.len() == 0 {
        None
    } else if entries[0].0 == k {
        Some(entries[0].1)
    } else {
        lookup_entries(entries.skip(1), k)
    }
}

/// The first entry that holds the key decides the lookup.
pub proof fn lemma_lookup_at<V>(entries: Seq<(Seq<char>, V)>, k: Seq<char>, i: int)
    requires
        0 <= i < entries.len(),
        entries[i].0 == k,
        forall|j: int| 0 <= j < i ==> (#[trigger] entries[j]).0 != k,
    ensures
        lookup_entries(entries, k) == Some(entries[i].1),
    decreases i,
{
    if i > 0 {
        assert(forall|j: int|
            0 <= j < entries.skip(1).len() ==> entries.skip(1)[j] == entries[j + 1]);
        lemma_lookup_at(entries.skip(1), k, i - 1);
    }
}

/// With no entry holding the key, the lookup misses.
pub proof fn lemma_lookup_none<V>(entries: Seq<(Seq<char>, V)>, k: Seq<char>)
    requires
        forall|j: int| 0 <= j < entries.len() ==> (#[trigger] entries[j]).0 != k,
    ensures
        lookup_entries(entries, k) is None,
    decreases entries.len(),
{
    if entries.len() > 0 {
        assert(forall|j: int|
            0 <= j < entries.skip(1).len() ==> entries.skip(1)[j] == entries[j + 1]);
        lemma_lookup_none(entries.skip(1), k);
    }
}

/// Appending an entry can only decide keys that missed before.
pub proof fn lemma_lookup_push<V>(entries: Seq<(Seq<char>, V)>, e: (Seq<char>, V), k: Seq<char>)
    ensures
        lookup_entries(entries, k) is Some ==> lookup_entries(entries.push(e), k)
            == lookup_entries(entries, k),
        lookup_entries(entries, k) is None ==> lookup_entries(entries.push(e), k) == if e.0 == k {
            Some(e.1)
        } else {
            None::<V>
        },
    decreases entries.len(),
{
    if entries.len() == 0 {
        assert(entries.push(e)[0] == e);
        assert(entries.push(e).skip(1) =~= Seq::<(Seq<char>, V)>::empty());
        assert(lookup_entries(Seq::<(Seq<char>, V)>::empty(), k) is None);
    } else {
        lemma_lookup_push(entries.skip(1), e, k);
        assert(entries.push(e)[0] == entries[0]);
        assert(entries.push(e).skip(1) =~= entries.skip(1).push(e));
    }
}

/// Updating the first entry that holds a key changes that key alone.
pub proof fn lemma_lookup_update<V>(entries: Seq<(Seq<char>, V)>, i: int, v: V, k2: Seq<char>)
    requires
        0 <= i < entries.len(),
        forall|j: int| 0 <= j < i ==> (#[trigger] entries[j]).0 != entries[i].0,
    ensures
        lookup_entries(entries.update(i, (entries[i].0, v)), k2) == if k2 == entries[i].0 {
            Some(v)
        } else {
            lookup_entries(entries, k2)
        },
    decreases i,
{
    let k = entries[i].0;
    let upd = entries.update(i, (k, v));
    if i == 0 {
        assert(upd[0] == (k, v));
        if k2 != k {
            assert(upd.skip(1) =~= entries.skip(1));
        }
    } else {
        assert(upd[0] == entries[0]);
        assert(entries[0].0 != k);
        if k2 == entries[0].0 {
        } else {
            assert(forall|j: int|
                0 <= j < entries.skip(1).len() ==> entries.skip(1)[j] == entries[j + 1]);
            lemma_lookup_update(entries.skip(1), i - 1, v, k2);
            assert(upd.skip(1) =~= entries.skip(1).update(i - 1, (k, v)));
        }
    }
}

} // verus!
