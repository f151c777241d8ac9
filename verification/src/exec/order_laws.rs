//! What the order of result rows promises, however they are sorted.
use crate::exec::agg_heap::lemma_members;
use crate::exec::result::{labels, CellView};
use crate::exec::scan::{scan_numbers, ScanView};
use crate::exec::sorting::{
    all_numbers, called, cut_rows, cuts, key_less, lemma_distinct, limited, needed, orderly,
    position, returned, row_less, row_order, to_sort, KeyView, Number, UnsortedView,
};
use crate::sql::ast::{Expr, ParsedQuery};
use crate::text::bytes_less;
use vstd::prelude::*;
use vstd::relations::{sorted_by, total_ordering};
use vstd::utf8::encode_utf8;

verus! {

/// Two numbers are in the order of their ranks.
pub proof fn law_numbers_by_rank(a: KeyView, b: KeyView, x: i64, y: i64)
    requires
        a.number == Number::Ranked(x),
        b.number == Number::Ranked(y),
    ensures
        key_less(a, b) <==> x < y,
{
}

/// Whether bytes differ first at a place, where the first has the smaller byte or ends.
pub open spec fn smaller_at(s: Seq<u8>, t: Seq<u8>, k: int) -> bool {
    &&& 0 <= k <= s.len()
    &&& k < t.len()
    &&& forall|i: int| 0 <= i < k ==> #[trigger] s[i] == t[i]
    &&& k == s.len() || s[k] < t[k]
}

/// Values of which one is no number are in the order of the bytes of their texts: at the
/// first place at which the texts differ the smaller byte comes first, and a text comes
/// before those that it is the beginning of.
pub proof fn law_texts_by_bytes(a: KeyView, b: KeyView)
    requires
        a.number is Absent || b.number is Absent,
    ensures
        key_less(a, b) <==> exists|k: int| #[trigger]
            smaller_at(encode_utf8(a.text), encode_utf8(b.text), k),
{
    lemma_bytes(encode_utf8(a.text), encode_utf8(b.text));
}

/// Where bytes differ first decides their order.
proof fn lemma_bytes(s: Seq<u8>, t: Seq<u8>)
    ensures
        bytes_less(s, t) <==> exists|k: int| #[trigger] smaller_at(s, t, k),
    decreases s.len(),
{
    if s.len() == 0 {
        if t.len() > 0 {
            assert(smaller_at(s, t, 0));
        }
    } else if t.len() > 0 {
        let (s1, t1) = (s.skip(1), t.skip(1));
        lemma_bytes(s1, t1);
        if s[0] == t[0] && bytes_less(s1, t1) {
            let k = choose|k: int| #[trigger] smaller_at(s1, t1, k);
            assert forall|i: int| 0 <= i < k + 1 implies #[trigger] s[i] == t[i] by {
                if i > 0 {
                    assert(s1[i - 1] == t1[i - 1]);
                }
            }
            assert(smaller_at(s, t, k + 1));
        }
        if s[0] < t[0] {
            assert(smaller_at(s, t, 0));
        }
        if exists|k: int| #[trigger] smaller_at(s, t, k) {
            let k = choose|k: int| #[trigger] smaller_at(s, t, k);
            if k > 0 {
                assert(s[0] == t[0]);
                assert forall|i: int| 0 <= i < k - 1 implies #[trigger] s1[i] == t1[i] by {
                    assert(s[i + 1] == t[i + 1]);
                }
                assert(smaller_at(s1, t1, k - 1));
            }
        }
    }
}

/// Whether a value comes strictly before another, in a direction.
pub open spec fn ahead(a: KeyView, b: KeyView, descending: bool) -> bool {
    if descending {
        key_less(b, a)
    } else {
        key_less(a, b)
    }
}

/// Whether neither of two values comes before the other.
pub open spec fn tied(a: KeyView, b: KeyView) -> bool {
    !key_less(a, b) && !key_less(b, a)
}

/// Whether a row comes strictly before another at a column of the order, and they are
/// tied at all earlier ones.
pub open spec fn ahead_at(
    a: Seq<KeyView>,
    b: Seq<KeyView>,
    order: Seq<(usize, bool)>,
    k: int,
) -> bool {
    &&& 0 <= k < order.len()
    &&& ahead(a[order[k].0 as int], b[order[k].0 as int], order[k].1)
    &&& forall|i: int|
        0 <= i < k ==> tied(a[(#[trigger] order[i]).0 as int], b[order[i].0 as int])
}

/// Whether a row comes strictly before another at some column of the order, and they are
/// tied at all earlier ones.
pub open spec fn row_ahead(a: Seq<KeyView>, b: Seq<KeyView>, order: Seq<(usize, bool)>) -> bool {
    exists|k: int| #[trigger] ahead_at(a, b, order, k)
}

/// Rows are ordered by all columns of the order, each in its own direction: the first
/// column at which they are not tied decides.
pub proof fn law_rows_by_first_difference(
    a: Seq<KeyView>,
    b: Seq<KeyView>,
    order: Seq<(usize, bool)>,
)
    ensures
        row_less(a, b, order) <==> row_ahead(a, b, order),
    decreases order.len(),
{
    if order.len() > 0 {
        let rest = order.skip(1);
        law_rows_by_first_difference(a, b, rest);
        let (x, y) = (a[order[0].0 as int], b[order[0].0 as int]);
        if ahead(x, y, order[0].1) {
            assert(ahead_at(a, b, order, 0));
        }
        if tied(x, y) && row_ahead(a, b, rest) {
            let k = choose|k: int| #[trigger] ahead_at(a, b, rest, k);
            assert(rest[k] == order[k + 1]);
            assert forall|i: int| 0 <= i < k + 1 implies tied(
                a[(#[trigger] order[i]).0 as int],
                b[order[i].0 as int],
            ) by {
                if i > 0 {
                    assert(rest[i - 1] == order[i]);
                }
            }
            assert(ahead_at(a, b, order, k + 1));
        }
        if row_ahead(a, b, order) {
            let k = choose|k: int| #[trigger] ahead_at(a, b, order, k);
            if k > 0 {
                assert(tied(a[order[0].0 as int], b[order[0].0 as int]));
                assert(rest[k - 1] == order[k]);
                assert forall|i: int| 0 <= i < k - 1 implies tied(
                    a[(#[trigger] rest[i]).0 as int],
                    b[rest[i].0 as int],
                ) by {
                    assert(rest[i] == order[i + 1]);
                }
                assert(ahead_at(a, b, rest, k - 1));
            }
        }
    } else {
        assert(!row_ahead(a, b, order));
    }
}

/// Whether the keys of a column rank the rows: none is both before and after another, and
/// what is between two keys is not tied with both unless they are tied.
pub open spec fn consistent(keys: Seq<Seq<KeyView>>, c: int) -> bool {
    &&& forall|a: int, b: int|
        0 <= a < keys.len() && 0 <= b < keys.len() ==> !(#[trigger] key_less(
            keys[a][c],
            keys[b][c],
        ) && key_less(keys[b][c], keys[a][c]))
    &&& forall|a: int, b: int, d: int|
        #![trigger keys[a], keys[b], keys[d]]
        0 <= a < keys.len() && 0 <= b < keys.len() && 0 <= d < keys.len() && key_less(
            keys[a][c],
            keys[d][c],
        ) ==> key_less(keys[a][c], keys[b][c]) || key_less(keys[b][c], keys[d][c])
}

/// Whether all columns of an order rank the rows.
pub open spec fn all_consistent(keys: Seq<Seq<KeyView>>, order: Seq<(usize, bool)>) -> bool {
    forall|i: int| 0 <= i < order.len() ==> consistent(keys, (#[trigger] order[i]).0 as int)
}

/// Keys that are all numbers, or none of which is one, rank the rows.
pub proof fn law_alike_keys_consistent(keys: Seq<Seq<KeyView>>, c: int)
    requires
        (forall|r: int| 0 <= r < keys.len() ==> (#[trigger] keys[r])[c].number is Ranked) || (
        forall|r: int| 0 <= r < keys.len() ==> (#[trigger] keys[r])[c].number is Absent),
    ensures
        consistent(keys, c),
{
    assert forall|a: int, b: int, d: int|
        #![trigger keys[a], keys[b], keys[d]]
        0 <= a < keys.len() && 0 <= b < keys.len() && 0 <= d < keys.len() implies !(key_less(
        keys[a][c],
        keys[b][c],
    ) && key_less(keys[b][c], keys[a][c])) && (key_less(keys[a][c], keys[d][c]) ==> key_less(
        keys[a][c],
        keys[b][c],
    ) || key_less(keys[b][c], keys[d][c])) by {
        let (x, y, z) = (keys[a][c].text, keys[b][c].text, keys[d][c].text);
        crate::exec::agg_topk::lemma_text_order(x, y, z);
        crate::exec::agg_topk::lemma_text_order(z, y, x);
        crate::exec::agg_topk::lemma_text_order(y, x, z);
        crate::exec::agg_topk::lemma_text_order(x, z, y);
        crate::exec::agg_topk::lemma_text_order(y, z, x);
        crate::exec::agg_topk::lemma_text_order(z, x, y);
    }
    assert forall|a: int, b: int| 0 <= a < keys.len() && 0 <= b < keys.len() implies !(
    #[trigger] key_less(keys[a][c], keys[b][c]) && key_less(keys[b][c], keys[a][c])) by {
        assert(keys[a] == keys[a] && keys[b] == keys[b]);
    }
}

/// Columns that rank the rows do so together.
proof fn lemma_rows_rank(
    keys: Seq<Seq<KeyView>>,
    order: Seq<(usize, bool)>,
    a: int,
    b: int,
    c: int,
)
    requires
        0 <= a < keys.len(),
        0 <= b < keys.len(),
        0 <= c < keys.len(),
        all_consistent(keys, order),
    ensures
        row_less(keys[a], keys[b], order) ==> !row_less(keys[b], keys[a], order),
        row_less(keys[a], keys[c], order) ==> row_less(keys[a], keys[b], order) || row_less(
            keys[b],
            keys[c],
            order,
        ),
    decreases order.len(),
{
    if order.len() > 0 {
        let k = order[0].0 as int;
        assert(consistent(keys, order[0].0 as int));
        let rest = order.skip(1);
        assert forall|i: int| 0 <= i < rest.len() implies consistent(
            keys,
            (#[trigger] rest[i]).0 as int,
        ) by {
            assert(rest[i] == order[i + 1]);
        }
        lemma_rows_rank(keys, rest, a, b, c);
        let (x, y, z) = (keys[a], keys[b], keys[c]);
        assert(!(key_less(x[k], y[k]) && key_less(y[k], x[k])));
        assert(!(key_less(z[k], y[k]) && key_less(y[k], z[k])));
        assert(!(key_less(x[k], z[k]) && key_less(z[k], x[k])));
    }
}

/// Rows whose keys are ranked, column by column, are in a consistent order.
pub proof fn law_consistent_keys_order(keys: Seq<Seq<KeyView>>, order: Seq<(usize, bool)>)
    requires
        all_consistent(keys, order),
    ensures
        total_ordering(row_order(keys, order)),
{
    let leq = row_order(keys, order);
    assert forall|a: usize, b: usize| #[trigger] leq(a, b) || #[trigger] leq(b, a) by {
        if a < keys.len() && b < keys.len() {
            lemma_rows_rank(keys, order, a as int, b as int, a as int);
        }
    }
    assert forall|a: usize| #[trigger] leq(a, a) by {
        if a < keys.len() {
            lemma_rows_rank(keys, order, a as int, a as int, a as int);
        }
    }
    assert forall|a: usize, b: usize| #[trigger] leq(a, b) && #[trigger] leq(b, a) implies a == b by {
        if a < keys.len() && b < keys.len() {
            lemma_rows_rank(keys, order, a as int, b as int, a as int);
        }
    }
    assert forall|a: usize, b: usize, c: usize| #[trigger] leq(a, b) && #[trigger] leq(
        b,
        c,
    ) implies leq(a, c) by {
        if a < keys.len() && b < keys.len() && c < keys.len() {
            lemma_rows_rank(keys, order, a as int, b as int, c as int);
            lemma_rows_rank(keys, order, c as int, b as int, a as int);
            lemma_rows_rank(keys, order, b as int, a as int, c as int);
            lemma_rows_rank(keys, order, b as int, c as int, a as int);
            lemma_rows_rank(keys, order, a as int, c as int, b as int);
            lemma_rows_rank(keys, order, c as int, a as int, b as int);
        }
    }
}

/// Whether a list holds each number below `n` once.
pub open spec fn arranges(s: Seq<usize>, n: nat) -> bool {
    &&& s.len() == n
    &&& s.no_duplicates()
    &&& forall|i: int| 0 <= i < s.len() ==> #[trigger] s[i] < n
}

/// Whether a list is the part of another that begins behind the offset and is as long as
/// the limit allows.
pub open spec fn is_page(
    r: Seq<usize>,
    s: Seq<usize>,
    limit: Option<u64>,
    offset: Option<u64>,
) -> bool {
    let from = match offset {
        Some(o) => o as usize as int,
        None => 0,
    };
    &&& r.len() == if from >= s.len() {
        0
    } else {
        match limit {
            Some(l) => if l as usize <= s.len() - from {
                l as usize as int
            } else {
                s.len() - from
            },
            None => s.len() - from,
        }
    }
    &&& forall|i: int| 0 <= i < r.len() ==> #[trigger] r[i] == s[from + i]
}

/// Whether no later row of a list comes before an earlier one by the columns of an order,
/// and rows that are tied at all of them stand as they stood.
pub open spec fn sorted_rows(
    s: Seq<usize>,
    keys: Seq<Seq<KeyView>>,
    order: Seq<(usize, bool)>,
) -> bool {
    forall|p: int, q: int|
        #![trigger s[p], s[q]]
        0 <= p < q < s.len() ==> !row_ahead(keys[s[q] as int], keys[s[p] as int], order) && (
        !row_ahead(keys[s[p] as int], keys[s[q] as int], order) ==> s[p] < s[q])
}

/// Whether no later row of a list comes before an earlier one by one column.
pub open spec fn sorted_column(
    s: Seq<usize>,
    keys: Seq<Seq<KeyView>>,
    column: (usize, bool),
) -> bool {
    forall|p: int, q: int|
        #![trigger s[p], s[q]]
        0 <= p < q < s.len() ==> !ahead(
            keys[s[q] as int][column.0 as int],
            keys[s[p] as int][column.0 as int],
            column.1,
        )
}

/// A part of a list is a page of it.
proof fn lemma_page(s: Seq<usize>, limit: Option<u64>, offset: Option<u64>)
    ensures
        is_page(limited(s, limit, offset), s, limit, offset),
{
}

/// Sorting numbers of rows gives the same numbers, in the order of the rows.
proof fn lemma_sorted_rows(s: Seq<usize>, keys: Seq<Seq<KeyView>>, order: Seq<(usize, bool)>)
    requires
        all_consistent(keys, order),
        s.no_duplicates(),
        keys.len() <= usize::MAX,
        forall|i: int| 0 <= i < s.len() ==> #[trigger] s[i] < keys.len(),
    ensures
        ({
            let r = s.sort_by(row_order(keys, order));
            &&& r.len() == s.len()
            &&& r.no_duplicates()
            &&& r.to_multiset() == s.to_multiset()
            &&& forall|i: int| 0 <= i < r.len() ==> #[trigger] r[i] < keys.len()
            &&& sorted_rows(r, keys, order)
            &&& sorted_by(r, row_order(keys, order))
        }),
{
    let leq = row_order(keys, order);
    law_consistent_keys_order(keys, order);
    s.lemma_sort_by_ensures(leq);
    let r = s.sort_by(leq);
    lemma_distinct(s, r);
    lemma_members(s, r, keys.len() as usize);
    assert(r.len() == s.len()) by {
        broadcast use vstd::seq_lib::group_to_multiset_ensures;

        assert(r.to_multiset().len() == s.to_multiset().len());
    }
    assert forall|p: int, q: int|
        #![trigger r[p], r[q]]
        0 <= p < q < r.len() implies !row_ahead(keys[r[q] as int], keys[r[p] as int], order) && (
    !row_ahead(keys[r[p] as int], keys[r[q] as int], order) ==> r[p] < r[q]) by {
        let (a, b) = (r[p] as int, r[q] as int);
        assert(leq(r[p], r[q]));
        law_rows_by_first_difference(keys[a], keys[b], order);
        law_rows_by_first_difference(keys[b], keys[a], order);
        lemma_rows_rank(keys, order, a, b, a);
        assert(r[p] != r[q]);
    }
}

/// Rows in order are in order by the first column.
proof fn lemma_first_column(s: Seq<usize>, keys: Seq<Seq<KeyView>>, order: Seq<(usize, bool)>)
    requires
        order.len() > 0,
        sorted_rows(s, keys, order),
    ensures
        sorted_column(s, keys, order[0]),
{
    assert forall|p: int, q: int|
        #![trigger s[p], s[q]]
        0 <= p < q < s.len() implies !ahead(
        keys[s[q] as int][order[0].0 as int],
        keys[s[p] as int][order[0].0 as int],
        order[0].1,
    ) by {
        if ahead(
            keys[s[q] as int][order[0].0 as int],
            keys[s[p] as int][order[0].0 as int],
            order[0].1,
        ) {
            assert(ahead_at(keys[s[q] as int], keys[s[p] as int], order, 0));
        }
    }
}

/// All numbers arrange themselves.
proof fn lemma_all_numbers(n: nat)
    requires
        n <= usize::MAX,
    ensures
        arranges(all_numbers(n), n),
        forall|i: int| 0 <= i < n ==> #[trigger] all_numbers(n)[i] == i,
{
}

/// The rows of a scan are a page of all its rows in order: by all columns of the order,
/// each in its own direction, and where they are tied as they stood. Without an order all
/// rows stand as they stood.
pub proof fn law_scan_ordered(s: ScanView, keys: Seq<Seq<KeyView>>) -> (all: Seq<usize>)
    requires
        keys.len() == s.rows.len(),
        keys.len() <= usize::MAX,
        all_consistent(keys, s.order),
    ensures
        total_ordering(row_order(keys, s.order)),
        arranges(all, s.rows.len()),
        sorted_rows(all, keys, s.order),
        is_page(scan_numbers(s, keys), all, s.limit, s.offset),
{
    let n = s.rows.len();
    law_consistent_keys_order(keys, s.order);
    lemma_all_numbers(n);
    let all = if s.order.len() == 0 {
        all_numbers(n)
    } else {
        all_numbers(n).sort_by(row_order(keys, s.order))
    };
    lemma_sorted_rows(all_numbers(n), keys, s.order);
    lemma_page(all, s.limit, s.offset);
    if s.order.len() == 0 {
        assert(sorted_rows(all, keys, s.order));
    }
    all
}

/// Whether a query asks for so few of the rows that they are cut down before they are
/// sorted.
pub open spec fn asks_for_few(u: UnsortedView) -> bool {
    u.cut is Some && match u.limit {
        Some(l) => u.rows.len() > 4 * ((l as usize) + match u.offset {
            Some(o) => o as usize as int,
            None => 0,
        }),
        None => false,
    }
}

/// The rows of a result are a page of all rows in order, whatever the number of rows: by the
/// first column of the order no row that is left out behind the page comes before a row of
/// it, and none of the page before one that was skipped. By all columns, each in its own
/// direction, the page itself is in order, and so are all rows unless few of very many are
/// asked for by several columns; where rows are tied they then stand as they stood.
pub proof fn law_sort_ordered(u: UnsortedView, keys: Seq<Seq<KeyView>>) -> (all: Seq<usize>)
    requires
        keys.len() == u.rows.len(),
        keys.len() <= usize::MAX,
        all_consistent(keys, u.order),
        u.cut is Some ==> u.order.len() > 0 && u.cut == Some(u.order[0]),
    ensures
        orderly(u, keys),
        arranges(all, u.rows.len()),
        is_page(returned(u, keys), all, u.limit, u.offset),
        u.order.len() > 0 ==> sorted_column(all, keys, u.order[0]),
        u.order.len() <= 1 || !asks_for_few(u) ==> sorted_rows(all, keys, u.order),
        sorted_rows(returned(u, keys), keys, u.order),
{
    let n = u.rows.len();
    law_consistent_keys_order(keys, u.order);
    lemma_all_numbers(n);
    let start = all_numbers(n);
    let leq = row_order(keys, u.order);
    lemma_sorted_rows(start, keys, u.order);
    if cuts(u) {
        lemma_cut(u, keys)
    } else {
        let all = if u.order.len() == 0 {
            start
        } else {
            start.sort_by(leq)
        };
        lemma_page(all, u.limit, u.offset);
        if u.order.len() > 0 {
            lemma_first_column(all, keys, u.order);
        }
        assert(sorted_rows(all, keys, u.order));
        lemma_page_sorted(returned(u, keys), all, u.limit, u.offset, keys, u.order);
        all
    }
}

/// A page of rows in order is in order.
proof fn lemma_page_sorted(
    r: Seq<usize>,
    s: Seq<usize>,
    limit: Option<u64>,
    offset: Option<u64>,
    keys: Seq<Seq<KeyView>>,
    order: Seq<(usize, bool)>,
)
    requires
        is_page(r, s, limit, offset),
        sorted_rows(s, keys, order),
    ensures
        sorted_rows(r, keys, order),
{
}

/// Rows in order, cut off behind what is needed and sorted again, followed by what was cut
/// off.
proof fn lemma_cut(u: UnsortedView, keys: Seq<Seq<KeyView>>) -> (all: Seq<usize>)
    requires
        keys.len() == u.rows.len(),
        keys.len() <= usize::MAX,
        all_consistent(keys, u.order),
        u.order.len() > 0,
        u.cut == Some(u.order[0]),
        cuts(u),
    ensures
        orderly(u, keys),
        arranges(all, u.rows.len()),
        is_page(returned(u, keys), all, u.limit, u.offset),
        sorted_column(all, keys, u.order[0]),
        u.order.len() <= 1 ==> sorted_rows(all, keys, u.order),
        sorted_rows(returned(u, keys), keys, u.order),
{
    let n = u.rows.len();
    let start = all_numbers(n);
    let first = seq![u.order[0]];
    let leq = row_order(keys, u.order);
    assert(first[0] == u.order[0]);
    assert(consistent(keys, u.order[0].0 as int));
    assert(all_consistent(keys, first));
    law_consistent_keys_order(keys, u.order);
    law_consistent_keys_order(keys, first);
    lemma_all_numbers(n);
    lemma_sorted_rows(start, keys, first);
    let sorted = start.sort_by(row_order(keys, first));
    lemma_first_column(sorted, keys, first);
    let k = needed(u.limit->Some_0, u.offset) as int;
    let front = sorted.take(k);
    let rest = sorted.skip(k);
    assert(front == cut_rows(u, keys));
    lemma_sorted_rows(front, keys, u.order);
    let again = front.sort_by(leq);
    lemma_first_column(again, keys, u.order);
    let all = again + rest;
    lemma_same_members(front, again);
    assert forall|i: int| 0 <= i < k implies (exists|j: int|
        0 <= j < k && sorted[j] == #[trigger] all[i]) by {
        assert(again.contains(again[i]));
        assert(front.contains(again[i]));
        let j = choose|j: int| 0 <= j < front.len() && front[j] == again[i];
        assert(sorted[j] == all[i]);
    }
    assert forall|i: int| k <= i < n implies #[trigger] all[i] == sorted[i] by {
        assert(rest[i - k] == sorted[i]);
    }
    assert forall|p: int, q: int| 0 <= p < q < n implies #[trigger] all[p] != #[trigger] all[q] by {
        if p < k && k <= q {
            let j = choose|j: int| 0 <= j < k && sorted[j] == all[p];
            assert(sorted[j] != sorted[q]);
        } else if q < k {
            assert(again[p] != again[q]);
        } else {
            assert(sorted[p] != sorted[q]);
        }
    }
    assert(all.no_duplicates());
    assert forall|i: int| 0 <= i < all.len() implies #[trigger] all[i] < n by {
        if i >= k {
            assert(sorted[i] < n);
        } else {
            assert(again[i] < n);
        }
    }
    let c = u.order[0];
    assert forall|p: int, q: int|
        #![trigger all[p], all[q]]
        0 <= p < q < all.len() implies !ahead(
        keys[all[q] as int][c.0 as int],
        keys[all[p] as int][c.0 as int],
        c.1,
    ) by {
        if q < k {
            assert(again[p] == all[p] && again[q] == all[q]);
        } else if p >= k {
            assert(sorted[p] == all[p] && sorted[q] == all[q]);
        } else {
            let j = choose|j: int| 0 <= j < k && sorted[j] == all[p];
            assert(sorted[j] == all[p] && sorted[q] == all[q]);
        }
    }
    lemma_page(again, u.limit, u.offset);
    assert(returned(u, keys) == limited(again, u.limit, u.offset));
    assert(is_page(returned(u, keys), all, u.limit, u.offset));
    lemma_page_sorted(returned(u, keys), again, u.limit, u.offset, keys, u.order);
    if u.order.len() <= 1 {
        assert(u.order =~= first);
        assert(sorted_by(front, leq)) by {
            assert forall|i: int, j: int| 0 <= i < j < front.len() implies leq(
                #[trigger] front[i],
                #[trigger] front[j],
            ) by {
                assert(leq(sorted[i], sorted[j]));
            }
        }
        vstd::seq_lib::lemma_sorted_unique(front, again, leq);
        assert(all =~= sorted);
    }
    all
}

/// Numbers with the same members hold the same.
proof fn lemma_same_members(a: Seq<usize>, b: Seq<usize>)
    requires
        a.to_multiset() == b.to_multiset(),
    ensures
        forall|x: usize| a.contains(x) <==> b.contains(x),
{
    assert forall|x: usize| a.contains(x) <==> b.contains(x) by {
        vstd::seq_lib::to_multiset_contains(a, x);
        vstd::seq_lib::to_multiset_contains(b, x);
    }
}

/// Whether a name is at a place of a list and at none before it.
pub open spec fn first_at(names: Seq<Seq<char>>, name: Seq<char>, c: int) -> bool {
    &&& 0 <= c < names.len()
    &&& names[c] == name
    &&& forall|i: int| 0 <= i < c ==> #[trigger] names[i] != name
}

/// The first place of a name is found.
proof fn lemma_first_at(names: Seq<Seq<char>>, name: Seq<char>, c: int)
    requires
        first_at(names, name, c),
        names.len() <= usize::MAX,
    ensures
        position(names, name) == Some(c as usize),
    decreases names.len(),
{
    if c < names.len() - 1 {
        assert(names.drop_last()[c] == names[c]);
        assert forall|i: int| 0 <= i < c implies #[trigger] names.drop_last()[i] != name by {
            assert(names[i] != name);
        }
        lemma_first_at(names.drop_last(), name, c);
    } else {
        assert forall|i: int| 0 <= i < names.len() - 1 implies #[trigger] names.drop_last()[i]
            != name by {
            assert(names[i] != name);
        }
        lemma_not_at(names.drop_last(), name);
    }
}

/// A name that is nowhere is not found.
proof fn lemma_not_at(names: Seq<Seq<char>>, name: Seq<char>)
    requires
        forall|i: int| 0 <= i < names.len() ==> #[trigger] names[i] != name,
    ensures
        position(names, name) is None,
    decreases names.len(),
{
    if names.len() > 0 {
        assert(names.last() == names[names.len() - 1]);
        assert forall|i: int| 0 <= i < names.len() - 1 implies #[trigger] names.drop_last()[i]
            != name by {
            assert(names[i] != name);
        }
        lemma_not_at(names.drop_last(), name);
    }
}

/// A name in the order stands for the first column that has it as its heading, in the
/// direction that the query gives it; what comes first in the order is also what rows are
/// cut down by.
pub proof fn law_order_by_heading(
    q: ParsedQuery,
    rows: Seq<Seq<CellView>>,
    i: int,
    name: Seq<char>,
    c: int,
)
    requires
        0 <= i < q.order_by@.len(),
        q.order_by@[i].0 matches Expr::Identifier(s) && s@ == name,
        first_at(labels(q.select_items@), name, c),
        q.select_items@.len() <= usize::MAX,
    ensures
        to_sort(q, rows).order.len() == q.order_by@.len(),
        to_sort(q, rows).order[i] == (c as usize, q.order_by@[i].1),
        i == 0 ==> to_sort(q, rows).cut == Some((c as usize, q.order_by@[0].1)),
        to_sort(q, rows).rows == rows,
        to_sort(q, rows).limit == q.limit,
        to_sort(q, rows).offset == q.offset,
{
    lemma_first_at(labels(q.select_items@), name, c);
}

/// A count in the order stands for the first column with the heading of a count, in the
/// direction that the query gives it.
pub proof fn law_order_by_count(
    q: ParsedQuery,
    rows: Seq<Seq<CellView>>,
    i: int,
    c: int,
)
    requires
        0 <= i < q.order_by@.len(),
        called(q.order_by@[i].0) == Some("COUNT"@),
        first_at(labels(q.select_items@), "count()"@, c),
        q.select_items@.len() <= usize::MAX,
    ensures
        to_sort(q, rows).order[i] == (c as usize, q.order_by@[i].1),
        i == 0 ==> to_sort(q, rows).cut == Some((c as usize, q.order_by@[0].1)),
{
    lemma_first_at(labels(q.select_items@), "count()"@, c);
}

} // verus!
