//! Sequences of key/value pairs used as maps: the last pair for a key is the
//! one that counts, and an update replaces that pair in place.
use vstd::prelude::*;

verus! {

/// The keys of `pairs`, in order.
pub open spec fn keys_of<V>(pairs: Seq<(Seq<char>, V)>) -> Seq<Seq<char>> {
    pairs.map_values(|p: (Seq<char>, V)| p.0)
}

/// Index of the last pair whose key is `k`, or -1.
pub open spec fn last_index_of<V>(pairs: Seq<(Seq<char>, V)>, k: Seq<char>) -> int
    decreases pairs.len(),
{
    if pairs.len() == 0 {
        -1
    } else if pairs.last().0 == k {
        pairs.len() - 1
    } else {
        last_index_of(pairs.drop_last(), k)
    }
}

/// The value of the last pair whose key is `k`.
pub open spec fn lookup<V>(pairs: Seq<(Seq<char>, V)>, k: Seq<char>) -> Option<V>
    decreases pairs.len(),
{
    if pairs.len() == 0 {
        None
    } else if pairs.last().0 == k {
        Some(pairs.last().1)
    } else {
        lookup(pairs.drop_last(), k)
    }
}

/// `pairs` with the value for `k` replaced, or `(k, v)` appended when `k`
/// has no pair yet.
pub open spec fn upsert<V>(pairs: Seq<(Seq<char>, V)>, k: Seq<char>, v: V) -> Seq<(Seq<char>, V)> {
    let i = last_index_of(pairs, k);
    if i >= 0 {
        pairs.update(i, (k, v))
    } else {
        pairs.push((k, v))
    }
}

pub proof fn lemma_last_index_of<V>(pairs: Seq<(Seq<char>, V)>, k: Seq<char>)
    ensures
        -1 <= last_index_of(pairs, k) < pairs.len(),
        last_index_of(pairs, k) >= 0 ==> pairs[last_index_of(pairs, k)].0 == k
            && lookup(pairs, k) == Some(pairs[last_index_of(pairs, k)].1),
        last_index_of(pairs, k) < 0 <==> lookup(pairs, k) is None,
        lookup(pairs, k) is None <==> !keys_of(pairs).contains(k),
        forall|j: int| last_index_of(pairs, k) < j < pairs.len() ==> pairs[j].0 != k,
    decreases pairs.len(),
{
    if pairs.len() > 0 {
        lemma_last_index_of(pairs.drop_last(), k);
        if pairs.last().0 != k {
            if keys_of(pairs).contains(k) {
                let j = choose|j: int| 0 <= j < pairs.len() && keys_of(pairs)[j] == k;
                assert(keys_of(pairs.drop_last())[j] == k);
            }
        } else {
            assert(keys_of(pairs)[pairs.len() - 1] == k);
        }
        assert forall|j: int| last_index_of(pairs, k) < j < pairs.len() implies pairs[j].0 != k by {
            if j < pairs.len() - 1 {
                assert(pairs[j] == pairs.drop_last()[j]);
            }
        }
        if keys_of(pairs.drop_last()).contains(k) {
            let j = choose|j: int| 0 <= j < pairs.len() - 1 && keys_of(pairs.drop_last())[j] == k;
            assert(keys_of(pairs)[j] == k);
        }
    }
}

/// The last pair for `k` is at `i` when `pairs[i]` has key `k` and no later
/// pair has it (`i == -1`: no pair has it).
pub proof fn lemma_last_index_at<V>(pairs: Seq<(Seq<char>, V)>, k: Seq<char>, i: int)
    requires
        -1 <= i < pairs.len(),
        i >= 0 ==> pairs[i].0 == k,
        forall|j: int| i < j < pairs.len() ==> pairs[j].0 != k,
    ensures
        last_index_of(pairs, k) == i,
    decreases pairs.len(),
{
    if pairs.len() > 0 && i < pairs.len() - 1 {
        assert forall|j: int| i < j < pairs.len() - 1 implies pairs.drop_last()[j].0 != k by {
            assert(pairs.drop_last()[j] == pairs[j]);
        }
        assert(pairs.last() == pairs[pairs.len() - 1]);
        lemma_last_index_at(pairs.drop_last(), k, i);
    }
}

/// After an update the key maps to the new value and every other key keeps
/// its value.
pub proof fn lemma_upsert<V>(pairs: Seq<(Seq<char>, V)>, k: Seq<char>, v: V, j: Seq<char>)
    ensures
        lookup(upsert(pairs, k, v), j) == (if j == k { Some(v) } else { lookup(pairs, j) }),
        keys_of(upsert(pairs, k, v)).contains(j) <==> (j == k || keys_of(pairs).contains(j)),
    decreases pairs.len(),
{
    lemma_last_index_of(pairs, k);
    lemma_last_index_of(pairs, j);
    lemma_last_index_of(upsert(pairs, k, v), j);
    let i = last_index_of(pairs, k);
    if i < 0 {
        assert(upsert(pairs, k, v).drop_last() =~= pairs);
    } else if i == pairs.len() - 1 {
        assert(upsert(pairs, k, v).drop_last() =~= pairs.drop_last());
    } else {
        lemma_upsert(pairs.drop_last(), k, v, j);
        lemma_last_index_of(pairs.drop_last(), k);
        assert(upsert(pairs, k, v).drop_last() =~= upsert(pairs.drop_last(), k, v));
    }
}

/// An update keeps the keys free of repeats.
pub proof fn lemma_upsert_no_duplicates<V>(pairs: Seq<(Seq<char>, V)>, k: Seq<char>, v: V)
    requires
        keys_of(pairs).no_duplicates(),
    ensures
        keys_of(upsert(pairs, k, v)).no_duplicates(),
{
    lemma_last_index_of(pairs, k);
    let i = last_index_of(pairs, k);
    if i >= 0 {
        assert(keys_of(upsert(pairs, k, v)) =~= keys_of(pairs));
    } else {
        assert(keys_of(upsert(pairs, k, v)) =~= keys_of(pairs).push(k));
    }
}

} // verus!
