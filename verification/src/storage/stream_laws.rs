//! What is read out of column files, value by value.
use crate::error::yields;
use crate::storage::column::{
    column_payload, framed, law_payload_read_back, lz4_decompressed, payload_count, ColumnType,
    ColumnView,
};
use crate::storage::column_stream::{counted_offsets, numbers_scanned, texts_scanned};
use crate::storage::pod::{lemma_pod_bytes_len, lemma_pod_round_trip, pod_bytes, pod_values, Pod};
use crate::storage::table::sound_text;
use crate::storage::utf8_col::{
    entry_text, lemma_text_body_reads, text_body, text_offsets, texts_fit,
};
use vstd::prelude::*;

verus! {

proof fn lemma_counted_offsets(rows: Seq<Seq<char>>, k: int)
    requires
        0 <= k <= rows.len(),
        texts_fit(rows),
    ensures
        counted_offsets(
            text_body(rows),
            text_body(rows.take(k)).len() as int,
            (rows.len() - k) as nat,
        ) == Some(text_offsets(rows).skip(k)),
    decreases rows.len() - k,
{
    if k == rows.len() {
        assert(text_offsets(rows).skip(k) =~= Seq::<u64>::empty());
    } else {
        lemma_text_body_reads(rows, k);
        lemma_counted_offsets(rows, k + 1);
        let pos = text_body(rows.take(k)).len() as int;
        assert(seq![pos as u64] + text_offsets(rows).skip(k + 1) =~= text_offsets(rows).skip(k));
    }
}

proof fn lemma_payload(col: ColumnView)
    requires
        col.len() <= u64::MAX,
    ensures
        column_payload(col).len() >= 8,
        payload_count(column_payload(col)) == col.len(),
        col matches ColumnView::Utf8(v) ==> column_payload(col).skip(8) == text_body(v),
        col matches ColumnView::Int64(v) ==> column_payload(col).skip(8) == pod_bytes(v),
{
    let raw = column_payload(col);
    let n = col.len() as u64;
    n.lemma_round_trip();
    assert(raw.take(8) =~= n.encoded());
    match col {
        ColumnView::Utf8(v) => {
            assert(raw.skip(8) =~= text_body(v));
        },
        ColumnView::Int64(v) => {
            assert(raw.skip(8) =~= pod_bytes(v));
        },
        _ => {},
    }
}

/// A scan of a text file gives the texts that were written to it, with the places of the
/// texts at hand or without.
pub proof fn law_texts_scanned(rows: Seq<Seq<char>>, packed: Option<Seq<u8>>, placed: bool)
    requires
        texts_fit(rows),
        rows.len() <= u64::MAX,
        column_payload(ColumnView::Utf8(rows)).len() <= u64::MAX,
        packed matches Some(p) ==> yields(
            lz4_decompressed(p),
            column_payload(ColumnView::Utf8(rows)),
        ),
    ensures
        yields(
            texts_scanned(
                framed(ColumnType::Utf8, column_payload(ColumnView::Utf8(rows)), packed),
                if placed {
                    Some(text_offsets(rows))
                } else {
                    None
                },
            ),
            rows,
        ),
{
    let col = ColumnView::Utf8(rows);
    let raw = column_payload(col);
    law_payload_read_back(ColumnType::Utf8, raw, packed);
    lemma_payload(col);
    lemma_counted_offsets(rows, 0);
    assert(text_body(rows.take(0)).len() == 0);
    assert(text_offsets(rows).skip(0) =~= text_offsets(rows));
    let body = raw.skip(8);
    let offsets = text_offsets(rows);
    assert forall|i: int| 0 <= i < rows.len() implies crate::storage::utf8_col::entry_is_text(
        body,
        #[trigger] offsets[i] as int,
    ) && entry_text(body, offsets[i] as int) == rows[i] by {
        lemma_text_body_reads(rows, i);
        assert(text_body(rows.take(i)).len() <= text_body(rows).len());
    }
    assert(sound_text(body, offsets));
    assert(Seq::new(offsets.len(), |i: int| entry_text(body, offsets[i] as int)) =~= rows);
}

/// A scan of a file of numbers gives the numbers that were written to it.
pub proof fn law_numbers_scanned(values: Seq<i64>, packed: Option<Seq<u8>>)
    requires
        values.len() <= u64::MAX,
        packed matches Some(p) ==> yields(
            lz4_decompressed(p),
            column_payload(ColumnView::Int64(values)),
        ),
    ensures
        yields(
            numbers_scanned(
                framed(ColumnType::Int64, column_payload(ColumnView::Int64(values)), packed),
            ),
            values,
        ),
{
    let col = ColumnView::Int64(values);
    law_payload_read_back(ColumnType::Int64, column_payload(col), packed);
    lemma_payload(col);
    lemma_pod_bytes_len(values);
    lemma_pod_round_trip(values, Seq::empty());
    let body = column_payload(col).skip(8);
    assert(pod_bytes(values) + Seq::<u8>::empty() =~= body);
    assert(pod_values::<i64>(body, values.len()) == values);
}

} // verus!
