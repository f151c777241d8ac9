//! Rows with equal keys, brought together.
use crate::exec::hash::{
    first_seen, int_members, int_set_insert, int_set_len, lemma_first_seen_distinct, new_int_set,
    occurrences, text_lists, KeyIndex, TextIndex,
};
use crate::text::texts;
use ahash::AHashSet;
use vstd::prelude::*;

verus! {

/// Whether each key has the number of its place among the distinct keys.
pub open spec fn numbered<K>(seen: Seq<K>, keys: Seq<K>, ids: Seq<usize>) -> bool {
    &&& ids.len() == keys.len()
    &&& forall|j: int|
        0 <= j < ids.len() ==> (#[trigger] ids[j]) < seen.len() && seen[ids[j] as int] == keys[j]
}

/// How often each distinct key appears, in the order of first appearance.
pub open spec fn tallied<K>(keys: Seq<K>) -> Seq<u64> {
    Seq::new(first_seen(keys).len(), |g: int| occurrences(keys, first_seen(keys)[g]) as u64)
}

/// The sum of the values that stand with a key.
pub open spec fn sum_at<K>(keys: Seq<K>, vals: Seq<i64>, key: K) -> int
    decreases keys.len(),
{
    if keys.len() == 0 {
        0
    } else {
        sum_at(keys.drop_last(), vals, key) + if keys.last() == key {
            vals[keys.len() - 1] as int
        } else {
            0
        }
    }
}

/// The different values that stand with a key.
pub open spec fn distinct_at<K, V>(keys: Seq<K>, vals: Seq<V>, key: K) -> Set<V>
    decreases keys.len(),
{
    if keys.len() == 0 {
        Set::empty()
    } else if keys.last() == key {
        distinct_at(keys.drop_last(), vals, key).insert(vals[keys.len() - 1])
    } else {
        distinct_at(keys.drop_last(), vals, key)
    }
}

/// There are no more different values than keys.
pub proof fn lemma_distinct_at<K, V>(keys: Seq<K>, vals: Seq<V>, key: K)
    ensures
        distinct_at(keys, vals, key).finite(),
        distinct_at(keys, vals, key).len() <= keys.len(),
    decreases keys.len(),
{
    if keys.len() > 0 {
        lemma_distinct_at(keys.drop_last(), vals, key);
    }
}

/// A value stands with a key if and only if it does so in some place.
pub proof fn law_distinct_at<K, V>(keys: Seq<K>, vals: Seq<V>, key: K, v: V)
    requires
        keys.len() == vals.len(),
    ensures
        distinct_at(keys, vals, key).contains(v) <==> exists|j: int|
            0 <= j < keys.len() && #[trigger] keys[j] == key && vals[j] == v,
    decreases keys.len(),
{
    if keys.len() > 0 {
        let front = keys.drop_last();
        let short = vals.drop_last();
        law_distinct_at(front, short, key, v);
        lemma_distinct_prefix(front, short, vals, key);
        if distinct_at(keys, vals, key).contains(v) {
            if distinct_at(front, vals, key).contains(v) {
                let j = choose|j: int|
                    0 <= j < front.len() && #[trigger] front[j] == key && short[j] == v;
                assert(keys[j] == key && vals[j] == v);
            } else {
                assert(keys[keys.len() - 1] == key && vals[keys.len() - 1] == v);
            }
        }
        if exists|j: int| 0 <= j < keys.len() && #[trigger] keys[j] == key && vals[j] == v {
            let j = choose|j: int|
                0 <= j < keys.len() && #[trigger] keys[j] == key && vals[j] == v;
            if j < front.len() {
                assert(front[j] == key && short[j] == v);
            }
        }
    }
}

proof fn lemma_distinct_prefix<K, V>(keys: Seq<K>, a: Seq<V>, b: Seq<V>, key: K)
    requires
        forall|j: int| 0 <= j < keys.len() ==> a[j] == b[j],
    ensures
        distinct_at(keys, a, key) == distinct_at(keys, b, key),
    decreases keys.len(),
{
    if keys.len() > 0 {
        lemma_distinct_prefix(keys.drop_last(), a, b, key);
    }
}

/// Numbers integer keys by first appearance.
pub fn group_ints(keys: &Vec<u128>) -> (r: (KeyIndex, Vec<usize>))
    ensures
        r.0.wf(),
        r.0@ == first_seen(keys@),
        numbered(r.0@, keys@, r.1@),
{
    let mut index = KeyIndex::new();
    let mut ids: Vec<usize> = Vec::new();
    let mut i: usize = 0;
    assert(keys@.take(0) =~= Seq::<u128>::empty());
    while i < keys.len()
        invariant
            i <= keys@.len(),
            index.wf(),
            index@ == first_seen(keys@.take(i as int)),
            numbered(index@, keys@.take(i as int), ids@),
        decreases keys@.len() - i,
    {
        let ghost before = index@;
        assert(keys@.take(i + 1).drop_last() =~= keys@.take(i as int));
        let id: usize = index.note(keys[i]);
        ids.push(id);
        proof {
            assert forall|j: int| 0 <= j < ids@.len() implies (#[trigger] ids@[j]) < index@.len()
                && index@[ids@[j] as int] == keys@.take(i + 1)[j] by {
                if j < i {
                    assert(before[ids@[j] as int] == keys@.take(i as int)[j]);
                }
            }
        }
        i = i + 1;
    }
    assert(keys@.take(i as int) =~= keys@);
    (index, ids)
}

/// Numbers keys that are lists of texts by first appearance.
pub fn group_texts(keys: Vec<Vec<String>>) -> (r: (TextIndex, Vec<usize>))
    ensures
        r.0.wf(),
        r.0@ == first_seen(text_lists(keys@)),
        numbered(r.0@, text_lists(keys@), r.1@),
{
    let ghost all = text_lists(keys@);
    let mut index = TextIndex::new();
    let mut ids: Vec<usize> = Vec::new();
    let mut i: usize = 0;
    assert(all.take(0) =~= Seq::<Seq<Seq<char>>>::empty());
    while i < keys.len()
        invariant
            i <= keys@.len(),
            all == text_lists(keys@),
            index.wf(),
            index@ == first_seen(all.take(i as int)),
            numbered(index@, all.take(i as int), ids@),
        decreases keys@.len() - i,
    {
        let ghost before = index@;
        assert(all.take(i + 1).drop_last() =~= all.take(i as int));
        assert(all.take(i + 1).last() == texts(keys@[i as int]@));
        let key = crate::exec::hash::copy_texts(&keys[i]);
        let id: usize = index.note(key);
        ids.push(id);
        proof {
            assert forall|j: int| 0 <= j < ids@.len() implies (#[trigger] ids@[j]) < index@.len()
                && index@[ids@[j] as int] == all.take(i + 1)[j] by {
                if j < i {
                    assert(before[ids@[j] as int] == all.take(i as int)[j]);
                }
            }
        }
        i = i + 1;
    }
    assert(all.take(i as int) =~= all);
    (index, ids)
}

/// How often each of the numbered keys appears.
pub fn count_groups<K>(
    n: usize,
    ids: &Vec<usize>,
    Ghost(seen): Ghost<Seq<K>>,
    Ghost(keys): Ghost<Seq<K>>,
) -> (counts: Vec<u64>)
    requires
        n == seen.len(),
        seen.no_duplicates(),
        numbered(seen, keys, ids@),
    ensures
        counts@ == Seq::new(n as nat, |g: int| occurrences(keys, seen[g]) as u64),
        forall|g: int| 0 <= g < n ==> #[trigger] counts@[g] == occurrences(keys, seen[g]),
{
    let mut counts: Vec<u64> = Vec::new();
    let mut g: usize = 0;
    while g < n
        invariant
            g <= n,
            counts@ =~= Seq::new(g as nat, |k: int| 0u64),
        decreases n - g,
    {
        counts.push(0);
        g = g + 1;
    }
    let mut i: usize = 0;
    while i < ids.len()
        invariant
            i <= ids@.len(),
            n == seen.len(),
            seen.no_duplicates(),
            numbered(seen, keys, ids@),
            counts@.len() == n,
            forall|g: int|
                0 <= g < n ==> #[trigger] counts@[g] == occurrences(keys.take(i as int), seen[g])
                    && counts@[g] <= i,
        decreases ids@.len() - i,
    {
        let id: usize = ids[i];
        let c: u64 = counts[id];
        assert(counts@[id as int] <= i);
        counts.set(id, c + 1);
        proof {
            assert(keys.take(i + 1).drop_last() =~= keys.take(i as int));
            assert(keys.take(i + 1).last() == seen[id as int]);
        }
        i = i + 1;
    }
    assert(keys.take(i as int) =~= keys);
    counts
}

/// The sum of the values that stand with each of the numbered keys.
pub fn sum_groups<K>(
    n: usize,
    ids: &Vec<usize>,
    vals: &Vec<i64>,
    Ghost(seen): Ghost<Seq<K>>,
    Ghost(keys): Ghost<Seq<K>>,
) -> (sums: Vec<i128>)
    requires
        n == seen.len(),
        seen.no_duplicates(),
        numbered(seen, keys, ids@),
        vals@.len() == ids@.len(),
    ensures
        sums@.len() == n,
        forall|g: int| 0 <= g < n ==> #[trigger] sums@[g] == sum_at(keys, vals@, seen[g]),
        forall|g: int|
            0 <= g < n ==> #[trigger] sums@[g] >= -0x7fff_ffff_ffff_ffff_ffff_ffff_ffff_ffff,
{
    let mut sums: Vec<i128> = Vec::new();
    let mut g: usize = 0;
    while g < n
        invariant
            g <= n,
            sums@ =~= Seq::new(g as nat, |k: int| 0i128),
        decreases n - g,
    {
        sums.push(0);
        g = g + 1;
    }
    let total: usize = ids.len();
    let mut i: usize = 0;
    while i < ids.len()
        invariant
            i <= ids@.len(),
            total == ids@.len(),
            n == seen.len(),
            seen.no_duplicates(),
            numbered(seen, keys, ids@),
            vals@.len() == ids@.len(),
            sums@.len() == n,
            forall|g: int|
                0 <= g < n ==> #[trigger] sums@[g] == sum_at(keys.take(i as int), vals@, seen[g]),
            forall|g: int|
                0 <= g < n ==> -0x8000_0000_0000_0000 * i <= #[trigger] sums@[g]
                    <= 0x8000_0000_0000_0000 * i,
        decreases ids@.len() - i,
    {
        let id: usize = ids[i];
        let s: i128 = sums[id];
        assert(-0x8000_0000_0000_0000 * i <= sums@[id as int] <= 0x8000_0000_0000_0000 * i);
        sums.set(id, s + vals[i] as i128);
        proof {
            assert(keys.take(i + 1).drop_last() =~= keys.take(i as int));
            assert(keys.take(i + 1).last() == seen[id as int]);
        }
        i = i + 1;
    }
    assert(keys.take(i as int) =~= keys);
    sums
}

/// How many different values stand with each of the numbered keys.
pub fn distinct_groups<K>(
    n: usize,
    ids: &Vec<usize>,
    vals: &Vec<i64>,
    Ghost(seen): Ghost<Seq<K>>,
    Ghost(keys): Ghost<Seq<K>>,
) -> (counts: Vec<u64>)
    requires
        n == seen.len(),
        seen.no_duplicates(),
        numbered(seen, keys, ids@),
        vals@.len() == ids@.len(),
    ensures
        counts@ == Seq::new(n as nat, |g: int| distinct_at(keys, vals@, seen[g]).len() as u64),
        forall|g: int|
            0 <= g < n ==> #[trigger] counts@[g] == distinct_at(keys, vals@, seen[g]).len(),
{
    let mut sets: Vec<AHashSet<i64>> = Vec::new();
    let mut g: usize = 0;
    while g < n
        invariant
            g <= n,
            sets@.len() == g,
            forall|k: int| 0 <= k < g ==> int_members(#[trigger] sets@[k]) == Set::<i64>::empty(),
        decreases n - g,
    {
        sets.push(new_int_set());
        g = g + 1;
    }
    let mut i: usize = 0;
    while i < ids.len()
        invariant
            i <= ids@.len(),
            n == seen.len(),
            seen.no_duplicates(),
            numbered(seen, keys, ids@),
            vals@.len() == ids@.len(),
            sets@.len() == n,
            forall|g: int|
                0 <= g < n ==> int_members(#[trigger] sets@[g]) == distinct_at(
                    keys.take(i as int),
                    vals@,
                    seen[g],
                ),
        decreases ids@.len() - i,
    {
        let id: usize = ids[i];
        let v: i64 = vals[i];
        let ghost before = sets@;
        let slot = &mut sets[id];
        int_set_insert(slot, v);
        proof {
            assert(keys.take(i + 1).drop_last() =~= keys.take(i as int));
            assert(keys.take(i + 1).last() == seen[id as int]);
            assert forall|g: int| 0 <= g < n implies int_members(#[trigger] sets@[g])
                == distinct_at(keys.take(i + 1), vals@, seen[g]) by {
                if g != id {
                    assert(sets@[g] == before[g]);
                    assert(seen[g] != seen[id as int]);
                }
            }
        }
        i = i + 1;
    }
    assert(keys.take(i as int) =~= keys);
    let mut counts: Vec<u64> = Vec::new();
    let mut k: usize = 0;
    while k < n
        invariant
            k <= n == sets@.len(),
            n == seen.len(),
            forall|g: int|
                0 <= g < n ==> int_members(#[trigger] sets@[g]) == distinct_at(
                    keys,
                    vals@,
                    seen[g],
                ),
            counts@.len() == k,
            forall|g: int|
                0 <= g < k ==> #[trigger] counts@[g] == distinct_at(keys, vals@, seen[g]).len(),
        decreases n - k,
    {
        assert(int_members(sets@[k as int]) == distinct_at(keys, vals@, seen[k as int]));
        counts.push(int_set_len(&sets[k]) as u64);
        k = k + 1;
    }
    assert(counts@ =~= Seq::new(n as nat, |g: int| distinct_at(keys, vals@, seen[g]).len() as u64));
    counts
}

/// The distinct integer keys and how often each appears.
pub fn count_ints(keys: &Vec<u128>) -> (r: (KeyIndex, Vec<u64>))
    ensures
        r.0.wf(),
        r.0@ == first_seen(keys@),
        r.1@ == tallied(keys@),
{
    let (index, ids) = group_ints(keys);
    proof {
        lemma_first_seen_distinct(keys@);
    }
    let counts = count_groups::<u128>(index.len(), &ids, Ghost(index@), Ghost(keys@));
    (index, counts)
}

/// The distinct keys that are lists of texts and how often each appears.
pub fn count_texts(keys: Vec<Vec<String>>) -> (r: (TextIndex, Vec<u64>))
    ensures
        r.0.wf(),
        r.0@ == first_seen(text_lists(keys@)),
        r.1@ == tallied(text_lists(keys@)),
{
    let ghost all = text_lists(keys@);
    let (index, ids) = group_texts(keys);
    proof {
        lemma_first_seen_distinct(all);
    }
    let counts = count_groups::<Seq<Seq<char>>>(index.len(), &ids, Ghost(index@), Ghost(all));
    (index, counts)
}

} // verus!
