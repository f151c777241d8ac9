//! What the streaming counts come to while none of them has to go.
use crate::exec::agg_heap::{
    before, kept, law_kept_not_worse, lemma_before_total, lemma_kept, ranks,
    room_for, top, window,
};
use crate::exec::agg_topk::{
    bumped, by_count_and_text, entry_counts, lemma_count_and_text_ranks, picked, streamed,
};
use crate::exec::grouping::tallied;
use crate::exec::hash::{
    first_seen, lemma_first_seen_distinct, lemma_occurrences, lemma_tally_step, noted, tally,
};
use crate::exec::sorting::{all_numbers, lemma_distinct};
use crate::text::{bytes_less, text_less};
use vstd::prelude::*;
use vstd::relations::{sorted_by, total_ordering};
use vstd::utf8::{encode_utf8, encode_utf8_decode_utf8};

verus! {

/// Keys with the numbers of their appearances, in the order in which they first appear.
pub open spec fn counted_keys<K>(keys: Seq<K>) -> Seq<(K, u64)> {
    Seq::new(first_seen(keys).len(), |i: int| (first_seen(keys)[i], tallied(keys)[i]))
}

/// There are no more distinct keys among fewer keys.
proof fn lemma_first_seen_grows<K>(keys: Seq<K>)
    requires
        keys.len() > 0,
    ensures
        first_seen(keys.drop_last()).len() <= first_seen(keys).len(),
{
}

/// One more key changes the counts in one place.
proof fn lemma_bumped<K>(keys: Seq<K>, key: K)
    requires
        keys.len() < u64::MAX,
    ensures
        bumped(counted_keys(keys), key) == counted_keys(keys.push(key)),
{
    let seen = first_seen(keys);
    let entries = counted_keys(keys);
    let more = keys.push(key);
    let now = noted(seen, key);
    lemma_first_seen_distinct(keys);
    lemma_first_seen_distinct(more);
    if seen.contains(key) {
        let i = choose|i: int| 0 <= i < seen.len() && seen[i] == key;
        assert(entries[i].0 == key);
        let j = choose|j: int| 0 <= j < entries.len() && (#[trigger] entries[j]).0 == key;
        assert(seen[j] == key);
        lemma_tally_step(keys, key, j);
        assert forall|k: int| 0 <= k < seen.len() implies #[trigger] entries.update(
            j,
            (key, (entries[j].1 + 1) as u64),
        )[k] == counted_keys(more)[k] by {
            lemma_occurrences(keys, seen[k]);
            assert(tally(more)[k] == tally(keys).update(j, tally(keys)[j] + 1)[k]);
        }
        assert(entries.update(j, (key, (entries[j].1 + 1) as u64)) =~= counted_keys(more));
    } else {
        assert forall|i: int| 0 <= i < entries.len() implies (#[trigger] entries[i]).0 != key by {
            assert(seen.contains(seen[i]));
        }
        lemma_tally_step(keys, key, seen.len() as int);
        assert forall|k: int| 0 <= k < now.len() implies #[trigger] entries.push((key, 1u64))[k]
            == counted_keys(more)[k] by {
            assert(tally(more)[k] == tally(keys).push(1)[k]);
            if k < seen.len() {
                assert(now[k] == seen[k]);
            }
        }
        assert(entries.push((key, 1u64)) =~= counted_keys(more));
    }
}

/// As long as the distinct keys are not too many, none has to go: streaming counts all of
/// them exactly.
pub proof fn law_streaming_is_exact<K>(keys: Seq<K>, limit: usize, offset: usize, factor: usize)
    requires
        keys.len() <= u64::MAX,
        first_seen(keys).len() <= room_for(limit, offset) * factor,
    ensures
        streamed(keys, limit, offset, factor) == counted_keys(keys),
    decreases keys.len(),
{
    if keys.len() == 0 {
        assert(counted_keys(keys) =~= Seq::<(K, u64)>::empty());
    } else {
        lemma_first_seen_grows(keys);
        law_streaming_is_exact(keys.drop_last(), limit, offset, factor);
        lemma_bumped(keys.drop_last(), keys.last());
        assert(keys.drop_last().push(keys.last()) =~= keys);
    }
}

/// Whether of any two different items one is better.
pub open spec fn decides(better: spec_fn(usize, usize) -> bool, n: nat) -> bool {
    forall|a: usize, b: usize| a < n && b < n && a != b ==> #[trigger] better(a, b) || better(b, a)
}

proof fn lemma_sorted_members(s: Seq<usize>, leq: spec_fn(usize, usize) -> bool, x: usize)
    requires
        total_ordering(leq),
    ensures
        s.contains(x) <==> s.sort_by(leq).contains(x),
        s.len() == s.sort_by(leq).len(),
        sorted_by(s.sort_by(leq), leq),
        s.no_duplicates() ==> s.sort_by(leq).no_duplicates(),
{
    broadcast use vstd::seq_lib::group_to_multiset_ensures;

    s.lemma_sort_by_ensures(leq);
    let t = s.sort_by(leq);
    assert(s.to_multiset().count(x) == t.to_multiset().count(x));
    assert(s.len() == s.to_multiset().len());
    assert(t.len() == t.to_multiset().len());
    if s.no_duplicates() {
        lemma_distinct(s, t);
    }
}

/// The kept items, in order, are the first of all items in order.
proof fn lemma_kept_first(better: spec_fn(usize, usize) -> bool, n: nat, room: nat, i: int)
    requires
        ranks(better),
        decides(better, n),
        n <= usize::MAX,
        0 <= i < kept(better, n, room).len(),
    ensures
        kept(better, n, room).sort_by(before(better))[i] == all_numbers(n).sort_by(
            before(better),
        )[i],
    decreases i,
{
    let leq = before(better);
    let k = kept(better, n, room);
    let a = k.sort_by(leq);
    let b = all_numbers(n).sort_by(leq);
    lemma_before_total(better);
    lemma_kept(better, n, room);
    lemma_sorted_members(k, leq, 0);
    lemma_sorted_members(all_numbers(n), leq, 0);
    assert(all_numbers(n).no_duplicates());
    assert forall|j: int| 0 <= j < i implies a[j] == b[j] by {
        lemma_kept_first(better, n, room, j);
    }
    let x = a[i];
    let y = b[i];
    assert(a.contains(x) && b.contains(y));
    lemma_sorted_members(k, leq, x);
    lemma_sorted_members(all_numbers(n), leq, y);
    let kx = choose|j: int| 0 <= j < k.len() && k[j] == x;
    assert(x < n);
    let ny = choose|j: int| 0 <= j < all_numbers(n).len() && all_numbers(n)[j] == y;
    assert(y < n);
    if x != y {
        assert(all_numbers(n)[x as int] == x);
        assert(all_numbers(n).contains(x));
        lemma_sorted_members(all_numbers(n), leq, x);
        let l = choose|l: int| 0 <= l < b.len() && b[l] == x;
        if l < i {
            assert(a[l] == x);
            assert(a[l] != a[i]);
        }
        assert(leq(b[i], b[l]));
        assert(leq(y, x));
        assert(better(x, y) || better(y, x));
        assert(better(y, x));
        lemma_sorted_members(k, leq, y);
        if k.contains(y) {
            let j = choose|j: int| 0 <= j < a.len() && a[j] == y;
            if j < i {
                assert(b[j] == y);
                assert(b[j] != b[i]);
            }
            assert(leq(a[i], a[j]));
            assert(leq(x, y));
            assert(!better(x, y));
        } else {
            law_kept_not_worse(better, n, room, y, kx);
        }
    }
}

/// Where of any two different items one is better, the best items are a part of all items
/// in order.
pub proof fn law_top_is_sorted(
    better: spec_fn(usize, usize) -> bool,
    n: nat,
    limit: usize,
    offset: usize,
)
    requires
        ranks(better),
        decides(better, n),
        n <= usize::MAX,
    ensures
        top(better, n, limit, offset) == window(
            all_numbers(n).sort_by(before(better)),
            limit as nat,
            offset as nat,
        ),
{
    let room = room_for(limit, offset);
    let leq = before(better);
    let k = kept(better, n, room);
    let a = k.sort_by(leq);
    let b = all_numbers(n).sort_by(leq);
    lemma_before_total(better);
    lemma_kept(better, n, room);
    lemma_sorted_members(k, leq, 0);
    lemma_sorted_members(all_numbers(n), leq, 0);
    assert forall|i: int| 0 <= i < a.len() implies a[i] == b[i] by {
        lemma_kept_first(better, n, room, i);
    }
    assert(window(a, limit as nat, offset as nat) =~= window(b, limit as nat, offset as nat));
}

/// Counting keys one after another, while no more than 64 times the limit and the offset
/// of them are different, and asking for the most frequent with ties that differ, gives
/// all keys with their counts in the order of larger counts and then of smaller ties,
/// from the offset on and up to the limit.
pub proof fn law_streaming_topk_is_exact(
    keys: Seq<u128>,
    ties: Seq<Seq<char>>,
    limit: usize,
    offset: usize,
)
    requires
        keys.len() <= u64::MAX,
        first_seen(keys).len() <= usize::MAX,
        first_seen(keys).len() <= 64 * room_for(limit, offset),
        ties.len() == first_seen(keys).len(),
        ties.no_duplicates(),
    ensures
        ({
            let entries = streamed(keys, limit, offset, 64);
            let rule = by_count_and_text(entry_counts(entries), ties);
            &&& entries == counted_keys(keys)
            &&& picked(entries, top(rule, entries.len(), limit, offset)) == picked(
                entries,
                window(
                    all_numbers(entries.len()).sort_by(before(rule)),
                    limit as nat,
                    offset as nat,
                ),
            )
        }),
{
    law_streaming_is_exact(keys, limit, offset, 64);
    let entries = counted_keys(keys);
    let rule = by_count_and_text(entry_counts(entries), ties);
    lemma_count_and_text_ranks(entry_counts(entries), ties);
    assert forall|a: usize, b: usize| a < entries.len() && b < entries.len() && a
        != b implies #[trigger] rule(a, b) || rule(b, a) by {
        lemma_texts_decide(ties[a as int], ties[b as int]);
    }
    law_top_is_sorted(rule, entries.len(), limit, offset);
}

/// Of two different sequences of bytes one is smaller.
proof fn lemma_bytes_decide(a: Seq<u8>, b: Seq<u8>)
    requires
        a != b,
    ensures
        bytes_less(a, b) || bytes_less(b, a),
    decreases a.len(),
{
    if a.len() > 0 && b.len() > 0 && a[0] == b[0] {
        let x = a.skip(1);
        let y = b.skip(1);
        if x == y {
            assert(a =~= seq![a[0]] + x);
            assert(b =~= seq![b[0]] + y);
        }
        lemma_bytes_decide(x, y);
    } else if a.len() == 0 && b.len() == 0 {
        assert(a =~= b);
    }
}

/// Of two different texts one is smaller.
proof fn lemma_texts_decide(a: Seq<char>, b: Seq<char>)
    requires
        a != b,
    ensures
        text_less(a, b) || text_less(b, a),
{
    encode_utf8_decode_utf8(a);
    encode_utf8_decode_utf8(b);
    lemma_bytes_decide(encode_utf8(a), encode_utf8(b));
}

} // verus!
