//! Counting by sorting: equal keys come to stand together and are counted in
//! runs.
use crate::exec::agg_heap::{by_count, top, top_counts};
use crate::exec::hash::{occurrences, lemma_occurrences};
use rayon::slice::ParallelSliceMut;
use std::cmp::Ordering;
use vstd::prelude::*;
use vstd::relations::{sorted_by, total_ordering};
use vstd::seq_lib::lemma_sorted_unique;

verus! {

/// From this many keys on, sorting is done in parallel.
pub const SORT_PARALLEL_THRESHOLD: usize = 250_000;

/// A key that can be counted in runs.
pub trait RunKey: Sized {
    /// Whether a key comes before another or is the same.
    spec fn leq(self, other: Self) -> bool;

    /// The order is total.
    proof fn lemma_order(a: Self, b: Self, c: Self)
        ensures
            a.leq(a),
            a.leq(b) || b.leq(a),
            a.leq(b) && b.leq(a) ==> a == b,
            a.leq(b) && b.leq(c) ==> a.leq(c),
    ;

    /// A copy of the key.
    fn duplicate(&self) -> (r: Self)
        ensures
            r == *self,
    ;

    /// Whether two keys are the same.
    fn same(&self, other: &Self) -> (r: bool)
        ensures
            r == (*self == *other),
    ;
}

impl RunKey for u128 {
    open spec fn leq(self, other: Self) -> bool {
        self <= other
    }

    proof fn lemma_order(a: Self, b: Self, c: Self) {
    }

    fn duplicate(&self) -> (r: Self) {
        *self
    }

    fn same(&self, other: &Self) -> (r: bool) {
        *self == *other
    }
}

impl RunKey for (i64, i64, u64) {
    open spec fn leq(self, other: Self) -> bool {
        self.0 < other.0 || (self.0 == other.0 && (self.1 < other.1 || (self.1 == other.1 && self.2
            <= other.2)))
    }

    proof fn lemma_order(a: Self, b: Self, c: Self) {
    }

    fn duplicate(&self) -> (r: Self) {
        (self.0, self.1, self.2)
    }

    fn same(&self, other: &Self) -> (r: bool) {
        self.0 == other.0 && self.1 == other.1 && self.2 == other.2
    }
}

impl RunKey for usize {
    open spec fn leq(self, other: Self) -> bool {
        self <= other
    }

    proof fn lemma_order(a: Self, b: Self, c: Self) {
    }

    fn duplicate(&self) -> (r: Self) {
        *self
    }

    fn same(&self, other: &Self) -> (r: bool) {
        *self == *other
    }
}

/// The order of keys, as a relation.
pub open spec fn key_order<K: RunKey>() -> spec_fn(K, K) -> bool {
    |a: K, b: K| a.leq(b)
}

/// The order of keys is a total order.
pub proof fn lemma_key_order<K: RunKey>()
    ensures
        total_ordering(key_order::<K>()),
{
    let leq = key_order::<K>();
    assert forall|a: K, b: K, c: K| #[trigger] leq(a, b) && #[trigger] leq(b, c) implies leq(a, c) by {
        K::lemma_order(a, b, c);
    }
    assert forall|a: K, b: K| #[trigger] leq(a, b) && #[trigger] leq(b, a) implies a == b by {
        K::lemma_order(a, b, a);
    }
    assert forall|a: K, b: K| #[trigger] leq(a, b) || #[trigger] leq(b, a) by {
        K::lemma_order(a, b, a);
    }
    assert forall|a: K| #[trigger] leq(a, a) by {
        K::lemma_order(a, a, a);
    }
    assert(vstd::relations::transitive(leq));
    assert(vstd::relations::antisymmetric(leq));
    assert(vstd::relations::strongly_connected(leq));
    assert(vstd::relations::reflexive(leq));
}

/// Keys in ascending order.
pub open spec fn sorted_keys<K: RunKey>(keys: Seq<K>) -> Seq<K> {
    keys.sort_by(key_order::<K>())
}

/// The runs of equal keys, each with its length.
pub open spec fn runs<K>(keys: Seq<K>) -> Seq<(K, u64)>
    decreases keys.len(),
{
    if keys.len() == 0 {
        Seq::empty()
    } else {
        let r = runs(keys.drop_last());
        if r.len() > 0 && r.last().0 == keys.last() {
            r.update(r.len() - 1, (keys.last(), (r.last().1 + 1) as u64))
        } else {
            r.push((keys.last(), 1u64))
        }
    }
}

/// The lengths of runs.
pub open spec fn run_counts<K>(r: Seq<(K, u64)>) -> Seq<u64> {
    Seq::new(r.len(), |i: int| r[i].1)
}

/// The keys of runs.
pub open spec fn run_keys<K>(r: Seq<(K, u64)>) -> Seq<K> {
    Seq::new(r.len(), |i: int| r[i].0)
}

/// The longest runs, longest first.
pub open spec fn top_runs<K>(r: Seq<(K, u64)>, limit: usize, offset: usize) -> Seq<(K, u64)> {
    let t = top(by_count(run_counts(r)), r.len(), limit, offset);
    Seq::new(t.len(), |i: int| r[t[i] as int])
}

/// No run is longer than the sequence, and there are no more runs than keys.
proof fn lemma_runs_bounded<K>(keys: Seq<K>)
    requires
        keys.len() <= u64::MAX,
    ensures
        runs(keys).len() <= keys.len(),
        forall|i: int| 0 <= i < runs(keys).len() ==> #[trigger] runs(keys)[i].1 <= keys.len(),
        keys.len() > 0 ==> runs(keys).len() > 0 && runs(keys).last().0 == keys.last(),
    decreases keys.len(),
{
    if keys.len() > 0 {
        lemma_runs_bounded(keys.drop_last());
        let r = runs(keys.drop_last());
        if r.len() > 0 {
            assert(r[r.len() - 1].1 <= keys.len() - 1);
        }
    }
}

/// In sorted keys every run is one distinct key, ascending, with the number of
/// times that the key occurs.
pub proof fn law_runs_count<K: RunKey>(keys: Seq<K>)
    requires
        keys.len() <= u64::MAX,
        sorted_by(keys, key_order::<K>()),
    ensures
        forall|i: int| 0 <= i < runs(keys).len() ==> (#[trigger] runs(keys)[i]).1 == occurrences(
            keys,
            runs(keys)[i].0,
        ),
        forall|i: int, j: int|
            0 <= i < j < runs(keys).len() ==> (#[trigger] runs(keys)[i]).0.leq(
                (#[trigger] runs(keys)[j]).0,
            ) && runs(keys)[i].0 != runs(keys)[j].0,
        forall|k: K| keys.contains(k) ==> exists|i: int|
            0 <= i < runs(keys).len() && (#[trigger] runs(keys)[i]).0 == k,
    decreases keys.len(),
{
    lemma_runs_bounded(keys);
    if keys.len() > 0 {
        let front = keys.drop_last();
        let leq = key_order::<K>();
        assert forall|i: int, j: int| 0 <= i < j < front.len() implies #[trigger] leq(
            front[i],
            front[j],
        ) by {
            assert(leq(keys[i], keys[j]));
        }
        law_runs_count(front);
        lemma_runs_bounded(front);
        let r = runs(front);
        let now = runs(keys);
        let k = keys.last();
        assert forall|i: int| 0 <= i < r.len() implies (#[trigger] r[i]).0.leq(k) by {
            lemma_occurrences(front, r[i].0);
            let h = front.len() - 1;
            if r.len() - 1 > i {
                assert(r[i].0.leq(r[r.len() - 1].0));
            }
            K::lemma_order(r[i].0, front[h], k);
            assert(leq(keys[h], keys[h + 1]));
        }
        if r.len() > 0 && r.last().0 == k {
            assert forall|i: int| 0 <= i < now.len() implies (#[trigger] now[i]).1 == occurrences(
                keys,
                now[i].0,
            ) by {
                if i < r.len() - 1 {
                    assert(r[i].0 != r[r.len() - 1].0);
                }
            }
        } else {
            if r.len() > 0 {
                let h = front.len() - 1;
                assert(leq(keys[h], keys[h + 1]));
            }
            assert forall|i: int| 0 <= i < r.len() implies (#[trigger] r[i]).0 != k by {
                if r[i].0 == k {
                    assert(r[r.len() - 1].0.leq(k));
                    if i < r.len() - 1 {
                        assert(r[i].0.leq(r[r.len() - 1].0));
                        K::lemma_order(k, r[r.len() - 1].0, k);
                    }
                }
            }
            if front.contains(k) {
                let i = choose|i: int| 0 <= i < r.len() && (#[trigger] r[i]).0 == k;
                assert(r[i].0 != k);
            }
            lemma_occurrences(front, k);
            assert forall|i: int| 0 <= i < now.len() implies (#[trigger] now[i]).1 == occurrences(
                keys,
                now[i].0,
            ) by {
                if i < r.len() {
                    assert(r[i].0 != k);
                }
            }
        }
        assert forall|x: K| keys.contains(x) implies exists|i: int|
            0 <= i < now.len() && (#[trigger] now[i]).0 == x by {
            let j = choose|j: int| 0 <= j < keys.len() && keys[j] == x;
            if j < front.len() {
                assert(front[j] == x);
                assert(front.contains(x));
                let i = choose|i: int| 0 <= i < r.len() && (#[trigger] r[i]).0 == x;
                assert(now[i].0 == x);
            } else {
                assert(now[now.len() - 1].0 == x);
            }
        }
    }
}

/// The runs of equal keys.
pub fn count_runs<K: RunKey>(keys: &Vec<K>) -> (r: Vec<(K, u64)>)
    ensures
        r@ == runs(keys@),
{
    let mut r: Vec<(K, u64)> = Vec::new();
    let total: usize = keys.len();
    let mut i: usize = 0;
    assert(keys@.take(0) =~= Seq::<K>::empty());
    while i < keys.len()
        invariant
            i <= keys@.len(),
            total == keys@.len(),
            r@ == runs(keys@.take(i as int)),
        decreases keys@.len() - i,
    {
        let k: K = keys[i].duplicate();
        assert(keys@.take(i + 1).drop_last() =~= keys@.take(i as int));
        proof {
            lemma_runs_bounded(keys@.take(i as int));
        }
        let n: usize = r.len();
        if n > 0 && r[n - 1].0.same(&k) {
            let c: u64 = r[n - 1].1;
            assert(r@[n - 1].1 <= i);
            r.set(n - 1, (k, c + 1));
        } else {
            r.push((k, 1u64));
        }
        i = i + 1;
    }
    assert(keys@.take(i as int) =~= keys@);
    r
}

/// The keys that occur most often in sorted keys, with their counts: most
/// frequent first, and among equal counts the smaller key first.
pub fn topk_from_sorted_keys<K: RunKey>(sorted: &Vec<K>, limit: usize, offset: usize) -> (out: Vec<
    (K, u64),
>)
    requires
        sorted_by(sorted@, key_order::<K>()),
    ensures
        out@ == top_runs(runs(sorted@), limit, offset),
{
    let r = count_runs(sorted);
    let mut counts: Vec<u64> = Vec::new();
    let mut i: usize = 0;
    while i < r.len()
        invariant
            i <= r@.len(),
            counts@ =~= run_counts(r@.take(i as int)),
        decreases r@.len() - i,
    {
        counts.push(r[i].1);
        i = i + 1;
    }
    assert(r@.take(i as int) =~= r@);
    let t = top_counts(&counts, limit, offset);
    let mut out: Vec<(K, u64)> = Vec::new();
    let mut j: usize = 0;
    while j < t.len()
        invariant
            j <= t@.len(),
            counts@.len() == r@.len(),
            forall|k: int| 0 <= k < t@.len() ==> #[trigger] t@[k] < counts@.len(),
            out@ =~= Seq::new(j as nat, |k: int| r@[t@[k] as int]),
        decreases t@.len() - j,
    {
        assert(t@[j as int] < counts@.len());
        let e: &(K, u64) = &r[t[j]];
        out.push((e.0.duplicate(), e.1));
        j = j + 1;
    }
    out
}

/// `slice::sort_unstable` on integers: ascending, the same integers.
#[verifier::external_body]
fn sort_ints(v: &mut Vec<u128>)
    ensures
        final(v)@.to_multiset() == old(v)@.to_multiset(),
        sorted_by(final(v)@, key_order::<u128>()),
{
    v.sort_unstable();
}

/// `rayon::slice::ParallelSliceMut::par_sort_unstable` on integers: ascending,
/// the same integers.
#[verifier::external_body]
fn par_sort_ints(v: &mut Vec<u128>)
    ensures
        final(v)@.to_multiset() == old(v)@.to_multiset(),
        sorted_by(final(v)@, key_order::<u128>()),
{
    v.par_sort_unstable();
}

/// `slice::sort_unstable` on triples of integers: ascending by the first, then
/// the second, then the third member, the same triples.
#[verifier::external_body]
fn sort_triples(v: &mut Vec<(i64, i64, u64)>)
    ensures
        final(v)@.to_multiset() == old(v)@.to_multiset(),
        sorted_by(final(v)@, key_order::<(i64, i64, u64)>()),
{
    v.sort_unstable();
}

/// `rayon::slice::ParallelSliceMut::par_sort_unstable` on triples of integers:
/// ascending by the first, then the second, then the third member, the same
/// triples.
#[verifier::external_body]
fn par_sort_triples(v: &mut Vec<(i64, i64, u64)>)
    ensures
        final(v)@.to_multiset() == old(v)@.to_multiset(),
        sorted_by(final(v)@, key_order::<(i64, i64, u64)>()),
{
    v.par_sort_unstable();
}

/// Copies keys and sorts the copy.
pub fn copy_and_sort(keys: &Vec<u128>) -> (v: Vec<u128>)
    ensures
        v@ == sorted_keys(keys@),
        sorted_by(v@, key_order::<u128>()),
{
    let mut v: Vec<u128> = vstd::slice::slice_to_vec(keys.as_slice());
    if v.len() >= SORT_PARALLEL_THRESHOLD {
        par_sort_ints(&mut v);
    } else {
        sort_ints(&mut v);
    }
    proof {
        let leq = key_order::<u128>();
        lemma_key_order::<u128>();
        keys@.lemma_sort_by_ensures(leq);
        lemma_sorted_unique(v@, keys@.sort_by(leq), leq);
    }
    v
}

/// Sorts triples.
pub fn sorted_triples(keys: Vec<(i64, i64, u64)>) -> (v: Vec<(i64, i64, u64)>)
    ensures
        v@ == sorted_keys(keys@),
        sorted_by(v@, key_order::<(i64, i64, u64)>()),
{
    let ghost given = keys@;
    let mut v: Vec<(i64, i64, u64)> = keys;
    if v.len() >= SORT_PARALLEL_THRESHOLD {
        par_sort_triples(&mut v);
    } else {
        sort_triples(&mut v);
    }
    proof {
        let leq = key_order::<(i64, i64, u64)>();
        lemma_key_order::<(i64, i64, u64)>();
        given.lemma_sort_by_ensures(leq);
        lemma_sorted_unique(v@, given.sort_by(leq), leq);
    }
    v
}

/// The most frequent keys, with their counts.
pub fn sorted_topk_u128(keys: &Vec<u128>, limit: usize, offset: usize) -> (out: Vec<(u128, u64)>)
    ensures
        out@ == top_runs(runs(sorted_keys(keys@)), limit, offset),
{
    let v = copy_and_sort(keys);
    topk_from_sorted_keys(&v, limit, offset)
}

/// An address as it is sorted: without a sign.
pub open spec fn unsigned_ip(ip: i32) -> u128 {
    if ip >= 0 {
        ip as u128
    } else {
        (ip + 0x1_0000_0000) as u128
    }
}

/// Addresses as they are sorted.
pub open spec fn unsigned_ips(ips: Seq<i32>) -> Seq<u128> {
    Seq::new(ips.len(), |i: int| unsigned_ip(ips[i]))
}

/// The most frequent addresses, each without its sign, with their counts.
pub fn sorted_topk_i32(ips: &[i32], limit: usize, offset: usize) -> (out: Vec<(u32, u64)>)
    ensures
        out@ == Seq::new(
            top_runs(runs(sorted_keys(unsigned_ips(ips@))), limit, offset).len(),
            |i: int|
                {
                    let e = top_runs(runs(sorted_keys(unsigned_ips(ips@))), limit, offset)[i];
                    (e.0 as u32, e.1)
                },
        ),
{
    let mut keys: Vec<u128> = Vec::new();
    let mut i: usize = 0;
    while i < ips.len()
        invariant
            i <= ips@.len(),
            keys@ =~= unsigned_ips(ips@.take(i as int)),
        decreases ips@.len() - i,
    {
        let ip: i32 = ips[i];
        let wide: i64 = ip as i64;
        let k: u128 = if ip >= 0 {
            wide as u128
        } else {
            (wide + 0x1_0000_0000) as u128
        };
        keys.push(k);
        i = i + 1;
    }
    assert(ips@.take(i as int) =~= ips@);
    let t = sorted_topk_u128(&keys, limit, offset);
    let mut out: Vec<(u32, u64)> = Vec::new();
    let mut j: usize = 0;
    while j < t.len()
        invariant
            j <= t@.len(),
            out@ =~= Seq::new(j as nat, |k: int| (t@[k].0 as u32, t@[k].1)),
        decreases t@.len() - j,
    {
        let e: (u128, u64) = t[j];
        out.push((e.0 as u32, e.1));
        j = j + 1;
    }
    out
}

/// The most frequent triples of a user, a minute and a phrase number, with their
/// counts: most frequent first, and among equal counts the smaller triple first.
pub fn sorted_topk_user_minute_phrase(
    keys: Vec<(i64, i64, u64)>,
    limit: usize,
    offset: usize,
) -> (out: Vec<((i64, i64, u64), u64)>)
    ensures
        out@ == top_runs(runs(sorted_keys(keys@)), limit, offset),
{
    let v = sorted_triples(keys);
    topk_from_sorted_keys(&v, limit, offset)
}

/// Pairs of a user and a phrase number, as triples with nothing between.
pub open spec fn widened(pairs: Seq<(i64, u64)>) -> Seq<(i64, i64, u64)> {
    Seq::new(pairs.len(), |i: int| (pairs[i].0, 0i64, pairs[i].1))
}

/// The most frequent pairs of a user and a phrase number, with their counts:
/// most frequent first, and among equal counts the smaller pair first.
pub fn sorted_topk_user_phrase(pairs: &Vec<(i64, u64)>, limit: usize, offset: usize) -> (out: Vec<
    ((i64, u64), u64),
>)
    ensures
        out@ == Seq::new(
            top_runs(runs(sorted_keys(widened(pairs@))), limit, offset).len(),
            |i: int|
                {
                    let e = top_runs(runs(sorted_keys(widened(pairs@))), limit, offset)[i];
                    ((e.0.0, e.0.2), e.1)
                },
        ),
{
    let mut keys: Vec<(i64, i64, u64)> = Vec::new();
    let mut i: usize = 0;
    while i < pairs.len()
        invariant
            i <= pairs@.len(),
            keys@ =~= widened(pairs@.take(i as int)),
        decreases pairs@.len() - i,
    {
        let p: (i64, u64) = pairs[i];
        keys.push((p.0, 0i64, p.1));
        i = i + 1;
    }
    assert(pairs@.take(i as int) =~= pairs@);
    let t = sorted_topk_user_minute_phrase(keys, limit, offset);
    let mut out: Vec<((i64, u64), u64)> = Vec::new();
    let mut j: usize = 0;
    while j < t.len()
        invariant
            j <= t@.len(),
            out@ =~= Seq::new(j as nat, |k: int| ((t@[k].0.0, t@[k].0.2), t@[k].1)),
        decreases t@.len() - j,
    {
        let e: ((i64, i64, u64), u64) = t[j];
        out.push(((e.0.0, e.0.2), e.1));
        j = j + 1;
    }
    out
}

/// A key number and a user, as one number: the key decides, then the user.
pub open spec fn key_and_user(key: u64, user: i64) -> u128 {
    (key * 0x1_0000_0000_0000_0000 + (user + 0x8000_0000_0000_0000)) as u128
}

/// Pairs of a key number and a user, as numbers.
pub open spec fn keys_and_users(pairs: Seq<(u64, i64)>) -> Seq<u128> {
    Seq::new(pairs.len(), |i: int| key_and_user(pairs[i].0, pairs[i].1))
}

/// The key number in a pair that was made one number.
pub open spec fn key_part(k: u128) -> u64 {
    (k / 0x1_0000_0000_0000_0000) as u64
}

/// The key numbers of pairs that were made numbers.
pub open spec fn key_parts(keys: Seq<u128>) -> Seq<u128> {
    Seq::new(keys.len(), |i: int| key_part(keys[i]) as u128)
}

/// For each key number, ascending, how many different users occur with it.
pub open spec fn distinct_per_key(pairs: Seq<(u64, i64)>) -> Seq<(u128, u64)> {
    runs(key_parts(run_keys(runs(sorted_keys(keys_and_users(pairs))))))
}

/// A pair can be taken out of the number that it was made.
pub proof fn law_key_and_user(key: u64, user: i64)
    ensures
        key_part(key_and_user(key, user)) == key,
        key_and_user(key, user) % 0x1_0000_0000_0000_0000 == user + 0x8000_0000_0000_0000,
{
}

/// How many different users occur with each key number, ascending by key number.
pub fn distinct_count_per_hash_sorted(pairs: &Vec<(u64, i64)>) -> (out: Vec<(u64, u64)>)
    ensures
        out@ == Seq::new(
            distinct_per_key(pairs@).len(),
            |i: int| (distinct_per_key(pairs@)[i].0 as u64, distinct_per_key(pairs@)[i].1),
        ),
{
    let mut keys: Vec<u128> = Vec::new();
    let mut i: usize = 0;
    while i < pairs.len()
        invariant
            i <= pairs@.len(),
            keys@ =~= keys_and_users(pairs@.take(i as int)),
        decreases pairs@.len() - i,
    {
        let p: (u64, i64) = pairs[i];
        let user: i128 = p.1 as i128 + 0x8000_0000_0000_0000i128;
        keys.push(p.0 as u128 * 0x1_0000_0000_0000_0000u128 + user as u128);
        i = i + 1;
    }
    assert(pairs@.take(i as int) =~= pairs@);
    let sorted = copy_and_sort(&keys);
    let once = count_runs(&sorted);
    let mut firsts: Vec<u128> = Vec::new();
    let mut j: usize = 0;
    while j < once.len()
        invariant
            j <= once@.len(),
            firsts@ =~= key_parts(run_keys(once@.take(j as int))),
        decreases once@.len() - j,
    {
        let e: (u128, u64) = once[j];
        let k: u128 = e.0 / 0x1_0000_0000_0000_0000u128;
        assert(k == key_part(e.0));
        firsts.push(k);
        j = j + 1;
    }
    assert(once@.take(j as int) =~= once@);
    let per = count_runs(&firsts);
    let mut out: Vec<(u64, u64)> = Vec::new();
    let mut m: usize = 0;
    while m < per.len()
        invariant
            m <= per@.len(),
            out@ =~= Seq::new(m as nat, |k: int| (per@[k].0 as u64, per@[k].1)),
        decreases per@.len() - m,
    {
        let e: (u128, u64) = per[m];
        out.push((e.0 as u64, e.1));
        m = m + 1;
    }
    out
}

/// How two keys compare.
pub fn cmp_u128(a: u128, b: u128) -> (r: Ordering)
    ensures
        r is Less <==> a < b,
        r is Equal <==> a == b,
        r is Greater <==> a > b,
{
    if a < b {
        Ordering::Less
    } else if a == b {
        Ordering::Equal
    } else {
        Ordering::Greater
    }
}

} // verus!
