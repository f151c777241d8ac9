//! The best of many items, without sorting them all.
use crate::exec::order::sort_numbers;
use vstd::prelude::*;
use vstd::relations::total_ordering;

verus! {

/// Whether "better than" ranks items: what is better is not also worse, and
/// items that are neither better nor worse than each other rank alike.
pub open spec fn ranks(better: spec_fn(usize, usize) -> bool) -> bool {
    &&& forall|a: usize, b: usize| #[trigger] better(a, b) ==> !better(b, a)
    &&& forall|a: usize, b: usize, c: usize| #[trigger]
        better(a, c) ==> #[trigger] better(a, b) || better(b, c)
}

/// The order of output: better items first, and otherwise earlier items first.
pub open spec fn before(better: spec_fn(usize, usize) -> bool) -> spec_fn(usize, usize) -> bool {
    |a: usize, b: usize| better(a, b) || (!better(b, a) && a <= b)
}

/// Whether an item goes before another does when room is needed: worse items
/// first, and otherwise earlier items first.
pub open spec fn weaker(better: spec_fn(usize, usize) -> bool, a: usize, b: usize) -> bool {
    better(b, a) || (!better(a, b) && a < b)
}

/// Whether the item at a place is the first to go.
pub open spec fn is_weakest(
    better: spec_fn(usize, usize) -> bool,
    kept: Seq<usize>,
    p: int,
) -> bool {
    &&& 0 <= p < kept.len()
    &&& forall|q: int|
        0 <= q < kept.len() && q != p ==> weaker(better, kept[p], #[trigger] kept[q])
}

/// The place of the first item to go.
pub open spec fn weakest(better: spec_fn(usize, usize) -> bool, kept: Seq<usize>) -> int {
    choose|p: int| is_weakest(better, kept, p)
}

/// The items that are kept of the first `n`, when there is room for `room`: an
/// item that finds no room drives out the weakest if it is better.
pub open spec fn kept(better: spec_fn(usize, usize) -> bool, n: nat, room: nat) -> Seq<usize>
    decreases n,
{
    if n == 0 {
        Seq::empty()
    } else {
        let k = kept(better, (n - 1) as nat, room);
        let x = (n - 1) as usize;
        if k.len() < room {
            k.push(x)
        } else if room > 0 && better(x, k[weakest(better, k)]) {
            k.remove(weakest(better, k)).push(x)
        } else {
            k
        }
    }
}

/// The part of a sequence that begins at an offset and has at most a given
/// length.
pub open spec fn window<T>(s: Seq<T>, limit: nat, offset: nat) -> Seq<T> {
    if offset >= s.len() {
        Seq::empty()
    } else {
        s.subrange(offset as int, if offset + limit < s.len() {
            (offset + limit) as int
        } else {
            s.len() as int
        })
    }
}

/// The sum of a limit and an offset, as far as it can be counted.
pub open spec fn room_for(limit: usize, offset: usize) -> nat {
    if limit + offset > usize::MAX {
        usize::MAX as nat
    } else {
        (limit + offset) as nat
    }
}

/// The best items, best first: of `n` items, those that are kept when there is
/// room for limit and offset, in order, from the offset on.
pub open spec fn top(
    better: spec_fn(usize, usize) -> bool,
    n: nat,
    limit: usize,
    offset: usize,
) -> Seq<usize> {
    window(
        kept(better, n, room_for(limit, offset)).sort_by(before(better)),
        limit as nat,
        offset as nat,
    )
}

/// Kept items are distinct and among the items, and no more than there is room for.
pub proof fn lemma_kept(better: spec_fn(usize, usize) -> bool, n: nat, room: nat)
    requires
        ranks(better),
        n <= usize::MAX,
    ensures
        kept(better, n, room).no_duplicates(),
        forall|i: int|
            0 <= i < kept(better, n, room).len() ==> #[trigger] kept(better, n, room)[i] < n,
        kept(better, n, room).len() == if n < room {
            n
        } else {
            room
        },
    decreases n,
{
    if n > 0 {
        let m = (n - 1) as nat;
        lemma_kept(better, m, room);
        let k = kept(better, m, room);
        if k.len() >= room && room > 0 {
            lemma_weakest_exists(better, k);
            let w = weakest(better, k);
            assert(is_weakest(better, k, w));
        }
    }
}

/// Among distinct items there is a weakest one.
proof fn lemma_weakest_exists(better: spec_fn(usize, usize) -> bool, k: Seq<usize>)
    requires
        ranks(better),
        k.len() > 0,
        k.no_duplicates(),
    ensures
        is_weakest(better, k, weakest(better, k)),
    decreases k.len(),
{
    if k.len() == 1 {
        assert(is_weakest(better, k, 0));
    } else {
        let front = k.drop_last();
        lemma_weakest_exists(better, front);
        let p = weakest(better, front);
        let l = k.len() - 1;
        assert(k[p] != k[l]);
        if weaker(better, k[p], k[l]) {
            assert forall|q: int| 0 <= q < k.len() && q != p implies weaker(
                better,
                k[p],
                #[trigger] k[q],
            ) by {
                if q != l {
                    assert(front[q] == k[q]);
                }
            }
            assert(is_weakest(better, k, p));
        } else {
            assert forall|q: int| 0 <= q < k.len() && q != l implies weaker(
                better,
                k[l],
                #[trigger] k[q],
            ) by {
                assert(front[q] == k[q]);
                if q != p {
                    assert(weaker(better, front[p], front[q]));
                }
            }
            assert(is_weakest(better, k, l));
        }
    }
}

/// Only one of several distinct items is the weakest.
proof fn lemma_weakest_unique(better: spec_fn(usize, usize) -> bool, k: Seq<usize>, p: int)
    requires
        ranks(better),
        is_weakest(better, k, p),
    ensures
        p == weakest(better, k),
{
    let w = weakest(better, k);
    assert(is_weakest(better, k, w));
    if w != p {
        assert(weaker(better, k[p], k[w]));
        assert(weaker(better, k[w], k[p]));
    }
}

/// The order of output is a total order.
pub proof fn lemma_before_total(better: spec_fn(usize, usize) -> bool)
    requires
        ranks(better),
    ensures
        total_ordering(before(better)),
{
    let leq = before(better);
    assert forall|x: usize, y: usize, z: usize| #[trigger] leq(x, y) && #[trigger] leq(
        y,
        z,
    ) implies leq(x, z) by {
        if better(z, x) {
            assert(better(z, y) || better(y, x));
        }
        if better(x, y) {
            assert(better(x, z) || better(z, y));
        }
        if better(y, z) {
            assert(better(y, x) || better(x, z));
        }
    }
    assert(vstd::relations::transitive(leq));
    assert forall|x: usize, y: usize| #[trigger] leq(x, y) && #[trigger] leq(y, x) implies x
        == y by {}
    assert(vstd::relations::antisymmetric(leq));
    assert(vstd::relations::reflexive(leq));
    assert(vstd::relations::strongly_connected(leq));
}

/// What is left out is never better than what is kept.
pub proof fn law_kept_not_worse(
    better: spec_fn(usize, usize) -> bool,
    n: nat,
    room: nat,
    out: usize,
    i: int,
)
    requires
        ranks(better),
        n <= usize::MAX,
        out < n,
        !kept(better, n, room).contains(out),
        0 <= i < kept(better, n, room).len(),
    ensures
        !better(out, kept(better, n, room)[i]),
    decreases n,
{
    let m = (n - 1) as nat;
    let k = kept(better, m, room);
    let now = kept(better, n, room);
    let x = m as usize;
    lemma_kept(better, m, room);
    if k.len() < room {
        assert(now[now.len() - 1] == x);
        if k.contains(out) {
            let j = choose|j: int| 0 <= j < k.len() && k[j] == out;
            assert(now[j] == out);
        }
        // Nothing has been left out yet.
        lemma_full(better, m, room);
        assert(out != x);
        assert(k[out as int] == out);
    } else if room > 0 {
        lemma_weakest_exists(better, k);
        let w = weakest(better, k);
        assert(is_weakest(better, k, w));
        if better(x, k[w]) {
            let rest = k.remove(w);
            assert(now[now.len() - 1] == x);
            assert(out != x);
            if k.contains(out) {
                let j = choose|j: int| 0 <= j < k.len() && k[j] == out;
                if j != w {
                    if j < w {
                        assert(now[j] == out);
                    } else {
                        assert(now[j - 1] == out);
                    }
                }
                assert(out == k[w]);
                if i < rest.len() {
                    let o = if i < w {
                        i
                    } else {
                        i + 1
                    };
                    assert(rest[i] == k[o]);
                    assert(weaker(better, k[w], k[o]));
                }
            } else {
                if i < rest.len() {
                    let o = if i < w {
                        i
                    } else {
                        i + 1
                    };
                    assert(rest[i] == k[o]);
                    law_kept_not_worse(better, m, room, out, o);
                } else {
                    law_kept_not_worse(better, m, room, out, w);
                    if better(out, x) {
                        assert(better(out, k[w]) || better(k[w], x));
                    }
                }
            }
        } else {
            if out == x {
                if i != w {
                    assert(weaker(better, k[w], k[i]));
                    if better(x, k[i]) {
                        assert(better(x, k[w]) || better(k[w], k[i]));
                    }
                }
            } else {
                law_kept_not_worse(better, m, room, out, i);
            }
        }
    }
}

/// While there is room, everything is kept.
pub proof fn lemma_full(better: spec_fn(usize, usize) -> bool, n: nat, room: nat)
    requires
        n <= room,
        n <= usize::MAX,
    ensures
        kept(better, n, room) =~= Seq::new(n, |i: int| i as usize),
    decreases n,
{
    if n > 0 {
        lemma_full(better, (n - 1) as nat, room);
    }
}

/// The items that are kept of `n`, by a closure that compares them.
pub fn keep_items<F: Fn(usize, usize) -> bool>(
    n: usize,
    need: usize,
    better: F,
    Ghost(rule): Ghost<spec_fn(usize, usize) -> bool>,
) -> (keep: Vec<usize>)
    requires
        ranks(rule),
        forall|a: usize, b: usize| a < n && b < n ==> #[trigger] better.requires((a, b)),
        forall|a: usize, b: usize, r: bool| better.ensures((a, b), r) ==> r == rule(a, b),
    ensures
        keep@ == kept(rule, n as nat, need as nat),
{
    let mut keep: Vec<usize> = Vec::new();
    let mut w: usize = 0;
    let mut i: usize = 0;
    while i < n
        invariant
            i <= n,
            ranks(rule),
            forall|a: usize, b: usize| a < n && b < n ==> #[trigger] better.requires((a, b)),
            forall|a: usize, b: usize, r: bool| better.ensures((a, b), r) ==> r == rule(a, b),
            keep@ == kept(rule, i as nat, need as nat),
            keep@.len() > 0 && keep@.len() == need ==> is_weakest(rule, keep@, w as int),
        decreases n - i,
    {
        proof {
            lemma_kept(rule, i as nat, need as nat);
        }
        if keep.len() < need {
            keep.push(i);
            if keep.len() == need {
                proof {
                    lemma_kept(rule, (i + 1) as nat, need as nat);
                }
                w = find_weakest(&keep, n, &better, Ghost(rule));
            }
        } else if need > 0 {
            proof {
                lemma_weakest_unique(rule, keep@, w as int);
            }
            if better(i, keep[w]) {
                let _gone: usize = keep.remove(w);
                keep.push(i);
                proof {
                    lemma_kept(rule, (i + 1) as nat, need as nat);
                }
                w = find_weakest(&keep, n, &better, Ghost(rule));
            }
        }
        i = i + 1;
    }
    keep
}

/// The best items of `n`, by a closure that compares them.
pub fn top_items<F: Fn(usize, usize) -> bool>(
    n: usize,
    limit: usize,
    offset: usize,
    better: F,
    Ghost(rule): Ghost<spec_fn(usize, usize) -> bool>,
) -> (out: Vec<usize>)
    requires
        ranks(rule),
        forall|a: usize, b: usize| a < n && b < n ==> #[trigger] better.requires((a, b)),
        forall|a: usize, b: usize, r: bool| better.ensures((a, b), r) ==> r == rule(a, b),
    ensures
        out@ == top(rule, n as nat, limit, offset),
        forall|i: int| 0 <= i < out@.len() ==> #[trigger] out@[i] < n,
{
    let need: usize = if limit <= usize::MAX - offset {
        limit + offset
    } else {
        usize::MAX
    };
    let keep = keep_items(n, need, &better, Ghost(rule));
    proof {
        lemma_kept(rule, n as nat, need as nat);
        lemma_before_total(rule);
    }
    let ghost leq = before(rule);
    let ghost all = keep@;
    let compare = |a: usize, b: usize| -> (r: bool)
        requires
            n > a,
            n > b,
        ensures
            r == leq(a, b),
    {
        better(a, b) || (!better(b, a) && a <= b)
    };
    let sorted = sort_numbers(&keep, compare, Ghost(leq));
    proof {
        lemma_members(all, sorted@, n);
    }
    let mut out: Vec<usize> = Vec::new();
    let mut j: usize = offset;
    while j < sorted.len() && j - offset < limit
        invariant
            offset <= j,
            j <= sorted@.len() || j == offset,
            out@ =~= window(sorted@, (j - offset) as nat, offset as nat),
            j - offset <= limit,
            forall|k: int| 0 <= k < sorted@.len() ==> #[trigger] sorted@[k] < n,
        decreases sorted@.len() - j,
    {
        out.push(sorted[j]);
        j = j + 1;
    }
    assert(out@ =~= window(sorted@, limit as nat, offset as nat));
    out
}

/// The best items are distinct items.
pub proof fn lemma_top(
    better: spec_fn(usize, usize) -> bool,
    n: nat,
    limit: usize,
    offset: usize,
)
    requires
        ranks(better),
        n <= usize::MAX,
    ensures
        forall|i: int|
            0 <= i < top(better, n, limit, offset).len() ==> (#[trigger] top(
                better,
                n,
                limit,
                offset,
            )[i]) < n,
{
    let room = room_for(limit, offset);
    lemma_kept(better, n, room);
    lemma_before_total(better);
    let k = kept(better, n, room);
    k.lemma_sort_by_ensures(before(better));
    let s = k.sort_by(before(better));
    assert forall|i: int| 0 <= i < s.len() implies (#[trigger] s[i]) < n by {
        assert(s.contains(s[i]));
        if !k.contains(s[i]) {
            assert(!s.contains(s[i]));
        }
        let j = choose|j: int| 0 <= j < k.len() && k[j] == s[i];
        assert(k[j] < n);
    }
}

/// Numbers with the same members have the same bound.
pub proof fn lemma_members(a: Seq<usize>, b: Seq<usize>, n: usize)
    requires
        a.to_multiset() == b.to_multiset(),
        forall|i: int| 0 <= i < a.len() ==> #[trigger] a[i] < n,
    ensures
        forall|i: int| 0 <= i < b.len() ==> #[trigger] b[i] < n,
        a.len() == b.len(),
{
    broadcast use vstd::seq_lib::group_to_multiset_ensures;

    assert forall|i: int| 0 <= i < b.len() implies #[trigger] b[i] < n by {
        assert(b.contains(b[i]));
        assert(a.to_multiset().count(b[i]) > 0);
        assert(a.contains(b[i]));
    }
    assert(a.len() == a.to_multiset().len());
    assert(b.len() == b.to_multiset().len());
}

/// The place of the first item to go.
fn find_weakest<F: Fn(usize, usize) -> bool>(
    keep: &Vec<usize>,
    n: usize,
    better: &F,
    Ghost(rule): Ghost<spec_fn(usize, usize) -> bool>,
) -> (w: usize)
    requires
        ranks(rule),
        keep@.len() > 0,
        keep@.no_duplicates(),
        forall|i: int| 0 <= i < keep@.len() ==> #[trigger] keep@[i] < n,
        forall|a: usize, b: usize| a < n && b < n ==> #[trigger] better.requires((a, b)),
        forall|a: usize, b: usize, r: bool| better.ensures((a, b), r) ==> r == rule(a, b),
    ensures
        is_weakest(rule, keep@, w as int),
{
    let mut w: usize = 0;
    let mut i: usize = 1;
    while i < keep.len()
        invariant
            1 <= i <= keep@.len(),
            w < i,
            ranks(rule),
            keep@.no_duplicates(),
            forall|k: int| 0 <= k < keep@.len() ==> #[trigger] keep@[k] < n,
            forall|a: usize, b: usize| a < n && b < n ==> #[trigger] better.requires((a, b)),
            forall|a: usize, b: usize, r: bool| better.ensures((a, b), r) ==> r == rule(a, b),
            forall|q: int|
                0 <= q < i && q != w ==> weaker(rule, keep@[w as int], #[trigger] keep@[q]),
        decreases keep@.len() - i,
    {
        let a: usize = keep[w];
        let b: usize = keep[i];
        assert(a != b);
        if better(a, b) || (!better(b, a) && b < a) {
            assert(weaker(rule, b, a));
            assert forall|q: int| 0 <= q < i implies weaker(rule, b, #[trigger] keep@[q]) by {
                if q != w {
                    assert(weaker(rule, a, keep@[q]));
                }
            }
            w = i;
        }
        i = i + 1;
    }
    w
}

/// Items with larger counts are better.
pub open spec fn by_count(counts: Seq<u64>) -> spec_fn(usize, usize) -> bool {
    |a: usize, b: usize| counts[a as int] > counts[b as int]
}

/// The numbers of the largest counts, largest first.
pub fn top_counts(counts: &Vec<u64>, limit: usize, offset: usize) -> (out: Vec<usize>)
    ensures
        out@ == top(by_count(counts@), counts@.len(), limit, offset),
        forall|i: int| 0 <= i < out@.len() ==> #[trigger] out@[i] < counts@.len(),
{
    let ghost rule = by_count(counts@);
    let n: usize = counts.len();
    let better = |a: usize, b: usize| -> (r: bool)
        requires
            n > a,
            n > b,
        ensures
            r == rule(a, b),
    {
        counts[a] > counts[b]
    };
    top_items(n, limit, offset, better, Ghost(rule))
}

/// The first of two packed integers, with its sign.
pub open spec fn pair_first(key: u128) -> i64 {
    (key >> 64) as i64
}

/// The second of two packed integers, with its sign.
pub open spec fn pair_second(key: u128) -> i64 {
    key as i64
}

/// Whether a packed pair comes before another, by the integers in them.
pub open spec fn pair_less(a: u128, b: u128) -> bool {
    pair_first(a) < pair_first(b) || (pair_first(a) == pair_first(b) && pair_second(a)
        < pair_second(b))
}

/// Items with larger counts are better, and of equal counts the smaller pair.
pub open spec fn by_count_and_pair(counts: Seq<u64>, keys: Seq<u128>) -> spec_fn(
    usize,
    usize,
) -> bool {
    |a: usize, b: usize|
        counts[a as int] > counts[b as int] || (counts[a as int] == counts[b as int] && pair_less(
            keys[a as int],
            keys[b as int],
        ))
}

/// Whether a packed pair comes before another.
pub fn packed_pair_less(a: u128, b: u128) -> (r: bool)
    ensures
        r == pair_less(a, b),
{
    let a1: i64 = (a >> 64) as i64;
    let b1: i64 = (b >> 64) as i64;
    a1 < b1 || (a1 == b1 && (a as i64) < (b as i64))
}

/// The numbers of the largest counts, largest first; among equal counts the
/// smaller packed pair comes first.
pub fn top_counts_u128_key(
    counts: &Vec<u64>,
    keys: &Vec<u128>,
    limit: usize,
    offset: usize,
) -> (out: Vec<usize>)
    requires
        counts@.len() == keys@.len(),
    ensures
        out@ == top(by_count_and_pair(counts@, keys@), counts@.len(), limit, offset),
        forall|i: int| 0 <= i < out@.len() ==> #[trigger] out@[i] < counts@.len(),
{
    let ghost rule = by_count_and_pair(counts@, keys@);
    let n: usize = counts.len();
    let better = |a: usize, b: usize| -> (r: bool)
        requires
            n > a,
            n > b,
        ensures
            r == rule(a, b),
    {
        counts[a] > counts[b] || (counts[a] == counts[b] && packed_pair_less(keys[a], keys[b]))
    };
    top_items(n, limit, offset, better, Ghost(rule))
}

} // verus!
