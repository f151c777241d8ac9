//! The most frequent keys, counted as they come.
use crate::exec::agg_heap::{by_count, room_for, top};
use crate::exec::agg_topk::{by_count_and_text, entry_counts, picked, streamed};
use crate::exec::group_fused_phrase::{entry_texts, frequent_texts, numbers_of};
use crate::exec::group_fused_q40::frequent_keys;
use crate::exec::grouping::tallied;
use crate::exec::hash::{
    first_seen, lemma_first_seen_distinct, lemma_occurrences, occurrences, place,
};
use crate::exec::kernel::all_shown;
use crate::exec::order_laws::arranges;
use crate::exec::plain_rows::{agree, lemma_first_seen_agree, same_place};
use crate::exec::result::{counted, shown};
use crate::exec::top_laws::{is_part, law_frequent_texts, law_most_frequent};
use crate::exec::topk_laws::{counted_keys, law_streaming_is_exact};
use crate::text::text_less;
use vstd::prelude::*;

verus! {

/// A key that was seen is found at the place of its number.
proof fn lemma_place_of<K>(keys: Seq<K>, i: int)
    requires
        0 <= i < keys.len(),
    ensures
        0 <= place(first_seen(keys), keys[i]) < first_seen(keys).len(),
        first_seen(keys)[place(first_seen(keys), keys[i])] == keys[i],
{
    lemma_first_seen_distinct(keys);
    assert(keys.contains(keys[i]));
    assert(first_seen(keys).contains(keys[i]));
}

/// Keys that are alike two by two occur equally often.
proof fn lemma_occurrences_agree<K, L>(a: Seq<K>, b: Seq<L>, n: int, i: int)
    requires
        agree(a, b),
        0 <= n <= a.len(),
        0 <= i < a.len(),
    ensures
        occurrences(a.take(n), a[i]) == occurrences(b.take(n), b[i]),
    decreases n,
{
    if n > 0 {
        lemma_occurrences_agree(a, b, n - 1, i);
        assert(a.take(n).drop_last() =~= a.take(n - 1));
        assert(b.take(n).drop_last() =~= b.take(n - 1));
        assert(a.take(n).last() == a[n - 1]);
        assert(b.take(n).last() == b[n - 1]);
        assert(a[n - 1] == a[i] <==> b[n - 1] == b[i]);
    }
}

/// The numbers of keys are counted as the keys are, in the order in which they were first
/// seen.
proof fn lemma_numbers_counted<K>(keys: Seq<K>)
    requires
        keys.len() <= u64::MAX,
    ensures
        counted_keys(numbers_of(keys)).len() == first_seen(keys).len(),
        first_seen(numbers_of(keys)).len() == first_seen(keys).len(),
        forall|g: int|
            0 <= g < first_seen(keys).len() ==> (#[trigger] counted_keys(numbers_of(keys))[g]).0 == g
                && counted_keys(numbers_of(keys))[g].1 == occurrences(keys, first_seen(keys)[g]),
{
    let nums = numbers_of(keys);
    let seen = first_seen(keys);
    lemma_first_seen_distinct(keys);
    assert forall|i: int, k: int| 0 <= i < keys.len() && 0 <= k < keys.len() implies (
    #[trigger] keys[i] == #[trigger] keys[k] <==> nums[i] == nums[k]) by {
        lemma_place_of(keys, i);
        lemma_place_of(keys, k);
    }
    lemma_first_seen_agree(keys, nums);
    assert forall|g: int| 0 <= g < seen.len() implies (#[trigger] counted_keys(nums)[g]).0 == g
        && counted_keys(nums)[g].1 == occurrences(keys, seen[g]) by {
        assert(same_place(keys, nums, seen[g], first_seen(nums)[g]));
        let i = choose|i: int|
            0 <= i < keys.len() && #[trigger] keys[i] == seen[g] && nums[i] == first_seen(nums)[g];
        lemma_place_of(keys, i);
        assert(place(seen, keys[i]) == g);
        lemma_occurrences_agree(keys, nums, keys.len() as int, i);
        assert(keys.take(keys.len() as int) =~= keys);
        assert(nums.take(keys.len() as int) =~= nums);
        lemma_occurrences(keys, seen[g]);
        assert(tallied(nums)[g] == occurrences(nums, first_seen(nums)[g]));
    }
}

/// Where few enough different keys come, the most frequent of them are shown, each with its
/// parts and how often it came, the more frequent first.
pub proof fn law_frequent_keys(
    keys: Seq<Seq<Seq<char>>>,
    limit: usize,
    offset: usize,
    factor: usize,
) -> (all: Seq<usize>)
    requires
        keys.len() <= u64::MAX,
        first_seen(keys).len() <= usize::MAX,
        first_seen(keys).len() <= room_for(limit, offset) * factor,
    ensures
        arranges(all, first_seen(keys).len()),
        forall|p: int, q: int|
            #![trigger all[p], all[q]]
            0 <= p < q < all.len() ==> occurrences(keys, first_seen(keys)[all[p] as int])
                >= occurrences(keys, first_seen(keys)[all[q] as int]),
        frequent_keys(keys, limit, offset, factor).len() == page_len(all.len(), limit, offset),
        forall|i: int|
            0 <= i < page_len(all.len(), limit, offset) ==> (#[trigger] frequent_keys(
                keys,
                limit,
                offset,
                factor,
            )[i]) == all_shown(first_seen(keys)[all[offset + i] as int]).push(
                counted(
                    occurrences(keys, first_seen(keys)[all[offset + i] as int]) as int,
                ),
            ),
{
    let nums = numbers_of(keys);
    lemma_numbers_counted(keys);
    law_streaming_is_exact(nums, limit, offset, factor);
    let entries = streamed(nums, limit, offset, factor);
    let counts = entry_counts(entries);
    let all = law_most_frequent(counts, limit, offset);
    let best = top(by_count(counts), entries.len(), limit, offset);
    let r = frequent_keys(keys, limit, offset, factor);
    assert(is_part(best, all, limit, offset));
    assert forall|p: int, q: int|
        #![trigger all[p], all[q]]
        0 <= p < q < all.len() implies occurrences(keys, first_seen(keys)[all[p] as int])
        >= occurrences(keys, first_seen(keys)[all[q] as int]) by {
        assert(counts[all[p] as int] == counted_keys(nums)[all[p] as int].1);
        assert(counts[all[q] as int] == counted_keys(nums)[all[q] as int].1);
    }
    assert forall|i: int| 0 <= i < page_len(all.len(), limit, offset) implies (#[trigger] r[i])
        == all_shown(first_seen(keys)[all[offset + i] as int]).push(
        counted(occurrences(keys, first_seen(keys)[all[offset + i] as int]) as int),
    ) by {
        assert(best[i] == all[offset + i]);
        let g = all[offset + i] as int;
        assert(picked(entries, best)[i] == counted_keys(nums)[g]);
    }
    all
}

/// How many of some rows a page has.
pub open spec fn page_len(n: nat, limit: usize, offset: usize) -> int {
    if offset >= n {
        0
    } else if limit <= n - offset {
        limit as int
    } else {
        n - offset
    }
}

/// Where few enough different texts come, the most frequent of them are shown, each with how
/// often it came, the more frequent first, and of those that came equally often the smaller
/// text first where that is asked for.
pub proof fn law_frequent_text_rows(
    keys: Seq<Seq<Seq<char>>>,
    limit: usize,
    offset: usize,
    factor: usize,
    ties: bool,
) -> (all: Seq<usize>)
    requires
        keys.len() <= u64::MAX,
        first_seen(keys).len() <= usize::MAX,
        first_seen(keys).len() <= room_for(limit, offset) * factor,
    ensures
        arranges(all, first_seen(keys).len()),
        forall|p: int, q: int|
            #![trigger all[p], all[q]]
            0 <= p < q < all.len() ==> {
                let (a, b) = (first_seen(keys)[all[p] as int], first_seen(keys)[all[q] as int]);
                &&& occurrences(keys, a) >= occurrences(keys, b)
                &&& ties && occurrences(keys, a) == occurrences(keys, b) ==> !text_less(b[0], a[0])
            },
        frequent_texts(keys, limit, offset, factor, ties).len() == page_len(
            all.len(),
            limit,
            offset,
        ),
        forall|i: int|
            0 <= i < page_len(all.len(), limit, offset) ==> (#[trigger] frequent_texts(
                keys,
                limit,
                offset,
                factor,
                ties,
            )[i]) == seq![
                shown(first_seen(keys)[all[offset + i] as int][0]),
                counted(occurrences(keys, first_seen(keys)[all[offset + i] as int]) as int),
            ],
{
    let nums = numbers_of(keys);
    let seen = first_seen(keys);
    lemma_numbers_counted(keys);
    law_streaming_is_exact(nums, limit, offset, factor);
    let entries = streamed(nums, limit, offset, factor);
    let counts = entry_counts(entries);
    let texts = entry_texts(entries, seen);
    let (all, best) = if ties {
        (
            law_frequent_texts(counts, texts, limit, offset),
            top(by_count_and_text(counts, texts), entries.len(), limit, offset),
        )
    } else {
        (
            law_most_frequent(counts, limit, offset),
            top(by_count(counts), entries.len(), limit, offset),
        )
    };
    let r = frequent_texts(keys, limit, offset, factor, ties);
    assert(is_part(best, all, limit, offset));
    assert forall|g: int| 0 <= g < seen.len() implies (#[trigger] counts[g]) == occurrences(
        keys,
        seen[g],
    ) && texts[g] == seen[g][0] && entries[g].0 == g by {
        assert(counts[g] == counted_keys(nums)[g].1);
    }
    assert forall|p: int, q: int|
        #![trigger all[p], all[q]]
        0 <= p < q < all.len() implies {
        let (a, b) = (seen[all[p] as int], seen[all[q] as int]);
        &&& occurrences(keys, a) >= occurrences(keys, b)
        &&& ties && occurrences(keys, a) == occurrences(keys, b) ==> !text_less(b[0], a[0])
    } by {
        assert(counts[all[p] as int] >= counts[all[q] as int]);
    }
    assert forall|i: int| 0 <= i < page_len(all.len(), limit, offset) implies (#[trigger] r[i])
        == seq![
        shown(seen[all[offset + i] as int][0]),
        counted(occurrences(keys, seen[all[offset + i] as int]) as int),
    ] by {
        assert(best[i] == all[offset + i]);
        let g = all[offset + i] as int;
        assert(counts[g] == occurrences(keys, seen[g]));
        assert(picked(entries, best)[i] == entries[g]);
    }
    all
}

} // verus!
