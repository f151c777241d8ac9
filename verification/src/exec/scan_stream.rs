//! Everything about the addresses that match a pattern, found block by block in the files
//! of the columns.
use crate::error::{fails, yields, Error};
use crate::exec::agg_heap::{room_for, window};
use crate::exec::group_fused_q23::missing_file;
use crate::exec::group_fused_q41::{limit_or_default, limit_or_ten};
use crate::exec::result::{attempt, offset_of, query_offset, QueryResult};
use crate::exec::scan_fast::{
    fetch_rows, fetched, order_column_name, ordered_by, url_like, url_like_pattern, url_pattern,
    where_is_url_like,
};
use crate::exec::scan_order::{
    best_of, goes_at, lemma_goes_at, lemma_inserted, lemma_left_out, lemma_sorted_len,
};
use crate::expr::matching::{eval_like_match, like};
use crate::sql::ast::ParsedQuery;
use crate::storage::column::{file_outcome, payload_count};
use crate::storage::column_blocks::{
    block_outcome, rows_of_payload, sidecar_fault, single_meta, BlockEncoding, ColumnBlockMeta, ColumnBlockReader,
    ColumnBlocksSidecar,
};
use crate::storage::pod::{pod_at, read_pod_at, Pod};
use crate::storage::table::{file_of, find_file, lemma_name_set_holds, name_set, ColumnFile, Table};
use crate::storage::utf8_col::{
    entry_at, entry_bytes, entry_len, entry_ok, utf8_fault, utf8_text,
};
use crate::text::str_eq;
use vstd::prelude::*;
use vstd::relations::total_ordering;
use vstd::utf8::{encode_utf8, valid_utf8};

verus! {

/// The order of rows by their times, and of equal times by their numbers.
pub open spec fn time_leq() -> spec_fn((i64, usize), (i64, usize)) -> bool {
    |a: (i64, usize), b: (i64, usize)| a.0 < b.0 || (a.0 == b.0 && a.1 <= b.1)
}

proof fn lemma_time_leq()
    ensures
        total_ordering(time_leq()),
{
    assert(vstd::relations::reflexive(time_leq()));
    assert(vstd::relations::antisymmetric(time_leq()));
    assert(vstd::relations::transitive(time_leq()));
    assert(vstd::relations::strongly_connected(time_leq()));
}

/// Takes a row among the earliest, if it is one of them.
fn push_hit(
    best: &mut Vec<(i64, usize)>,
    need: usize,
    hit: (i64, usize),
    Ghost(seen): Ghost<Seq<(i64, usize)>>,
)
    requires
        old(best)@ == best_of(seen, time_leq(), need as nat),
    ensures
        final(best)@ == best_of(seen.push(hit), time_leq(), need as nat),
{
    let ghost leq = time_leq();
    let ghost b = best@;
    proof {
        lemma_time_leq();
        lemma_sorted_len(seen, leq);
        lemma_sorted_len(seen.push(hit), leq);
    }
    let mut p: usize = best.len();
    while p > 0 && (hit.0 < best[p - 1].0 || (hit.0 == best[p - 1].0 && hit.1 < best[p - 1].1))
        invariant
            p <= best@.len(),
            best@ == b,
            leq == time_leq(),
            forall|k: int| p <= k < best@.len() ==> leq(hit, #[trigger] best@[k]),
        decreases p,
    {
        p = p - 1;
    }
    proof {
        let s = seen.sort_by(leq);
        assert forall|k: int| 0 <= k < p implies leq(#[trigger] b[k], hit) by {
            assert(leq(b[p - 1], hit));
            assert(k == p - 1 || leq(s[k], s[p - 1]));
        }
        assert(goes_at(b, leq, hit, p as int));
    }
    if p == best.len() && best.len() == need {
        proof {
            if need > 0 {
                assert(leq(b[p - 1], hit));
            }
            lemma_left_out(seen, leq, need as nat, hit);
        }
        return;
    }
    proof {
        lemma_goes_at(seen, leq, need as nat, hit, p as int);
        lemma_inserted(seen, leq, hit, p as int);
    }
    best.insert(p, hit);
    if best.len() > need {
        best.pop();
    }
    assert(best@ =~= best_of(seen.push(hit), leq, need as nat));
}

/// The rows of a block whose address matches a pattern, each with its time, from a row on;
/// `pos` is where that row's address stands.
pub open spec fn hits_from(
    urls: Seq<u8>,
    times: Seq<u8>,
    pattern: Seq<char>,
    row_start: int,
    row: int,
    rows: int,
    pos: int,
) -> Result<Seq<(i64, usize)>, Seq<char>>
    decreases rows - row,
{
    if row >= rows {
        Ok(Seq::empty())
    } else if !entry_ok(urls, pos) {
        Err("q24 url block payload truncated"@)
    } else if !valid_utf8(entry_bytes(urls, pos)) {
        Err("invalid utf8 in q24 url block: "@ + utf8_fault(entry_bytes(urls, pos)))
    } else {
        match hits_from(
            urls,
            times,
            pattern,
            row_start,
            row + 1,
            rows,
            pos + 4 + entry_len(urls, pos),
        ) {
            Err(m) => Err(m),
            Ok(rest) => if like(entry_bytes(urls, pos), encode_utf8(pattern)) {
                Ok(seq![(pod_at::<i64>(times, row), (row_start + row) as usize)] + rest)
            } else {
                Ok(rest)
            },
        }
    }
}

/// The rows of a block whose address matches a pattern, each with its time.
pub open spec fn block_hits(
    url_payload: Seq<u8>,
    event_payload: Seq<u8>,
    pattern: Seq<char>,
    row_start: usize,
) -> Result<Seq<(i64, usize)>, Seq<char>> {
    if url_payload.len() < 8 || event_payload.len() < 8 {
        Err("q24 block payload truncated"@)
    } else if payload_count(url_payload) != payload_count(event_payload) {
        Err("q24 block row_count mismatch between URL and EventTime"@)
    } else if event_payload.len() - 8 < payload_count(url_payload) * 8 {
        Err("q24 event block payload truncated"@)
    } else if row_start + payload_count(url_payload) > usize::MAX {
        Err("q24 block rows out of range"@)
    } else {
        hits_from(
            url_payload.skip(8),
            event_payload.skip(8),
            pattern,
            row_start as int,
            0,
            payload_count(url_payload) as int,
            0,
        )
    }
}

/// What is found, behind what was found before.
pub open spec fn found_after(
    before: Seq<(i64, usize)>,
    r: Result<Seq<(i64, usize)>, Seq<char>>,
) -> Result<Seq<(i64, usize)>, Seq<char>> {
    match r {
        Ok(rest) => Ok(before + rest),
        Err(m) => Err(m),
    }
}

/// Takes the rows of a block whose address matches a pattern among the earliest.
pub fn scan_q24_block(
    row_start: usize,
    url_payload: &Vec<u8>,
    event_payload: &Vec<u8>,
    pattern: &str,
    need: usize,
    best: &mut Vec<(i64, usize)>,
    Ghost(seen): Ghost<Seq<(i64, usize)>>,
) -> (r: Result<(), Error>)
    requires
        old(best)@ == best_of(seen, time_leq(), need as nat),
    ensures
        match r {
            Ok(_) => block_hits(url_payload@, event_payload@, pattern@, row_start) matches Ok(hits)
                && final(best)@ == best_of(seen + hits, time_leq(), need as nat),
            Err(e) => fails(
                block_hits(url_payload@, event_payload@, pattern@, row_start),
                e@,
            ),
        },
{
    if url_payload.len() < 8 || event_payload.len() < 8 {
        return Err(Error::msg("q24 block payload truncated"));
    }
    let url_bytes = url_payload.as_slice();
    let event_bytes = event_payload.as_slice();
    let url_rows: u64 = u64::read_le(&url_bytes[0..8]);
    let event_rows: u64 = u64::read_le(&event_bytes[0..8]);
    proof {
        assert(url_payload@.subrange(0, 8) =~= url_payload@.take(8));
        assert(event_payload@.subrange(0, 8) =~= event_payload@.take(8));
    }
    if url_rows != event_rows {
        return Err(Error::msg("q24 block row_count mismatch between URL and EventTime"));
    }
    let urls = &url_bytes[8..url_bytes.len()];
    let times = &event_bytes[8..event_bytes.len()];
    proof {
        assert(urls@ =~= url_payload@.skip(8));
        assert(times@ =~= event_payload@.skip(8));
    }
    if ((times.len() / 8) as u64) < url_rows {
        return Err(Error::msg("q24 event block payload truncated"));
    }
    let rows: usize = url_rows as usize;
    if rows > usize::MAX - row_start {
        return Err(Error::msg("q24 block rows out of range"));
    }
    let ghost whole = block_hits(url_payload@, event_payload@, pattern@, row_start);
    let ghost mut hits: Seq<(i64, usize)> = Seq::empty();
    let mut pos: u64 = 0;
    let mut row: usize = 0;
    let total: usize = urls.len();
    proof {
        assert(seen + hits =~= seen);
        match whole {
            Ok(v) => {
                assert(hits + v =~= v);
            },
            Err(_) => {},
        }
    }
    while row < rows
        invariant
            row <= rows,
            total == urls@.len(),
            rows * 8 <= times@.len(),
            row_start + rows <= usize::MAX,
            whole == block_hits(url_payload@, event_payload@, pattern@, row_start),
            whole == found_after(
                hits,
                hits_from(
                    urls@,
                    times@,
                    pattern@,
                    row_start as int,
                    row as int,
                    rows as int,
                    pos as int,
                ),
            ),
            best@ == best_of(seen + hits, time_leq(), need as nat),
        decreases rows - row,
    {
        let bytes = match entry_at(urls, pos) {
            Some(b) => b,
            None => {
                return Err(Error::msg("q24 url block payload truncated"));
            },
        };
        let text = match utf8_text(bytes) {
            Ok(s) => s,
            Err(m) => {
                return Err(bad_text(m));
            },
        };
        let ghost before = hits;
        let ghost next = hits_from(
            urls@,
            times@,
            pattern@,
            row_start as int,
            row + 1,
            rows as int,
            pos + 4 + entry_len(urls@, pos as int),
        );
        if eval_like_match(text, pattern) {
            let time: i64 = match read_pod_at::<i64>(times, row) {
                Ok(t) => t,
                Err(_) => 0,
            };
            let hit: (i64, usize) = (time, row_start + row);
            push_hit(best, need, hit, Ghost(seen + hits));
            proof {
                hits = hits.push(hit);
                assert((seen + before).push(hit) =~= seen + hits);
                match next {
                    Ok(rest) => {
                        assert(before + (seq![hit] + rest) =~= hits + rest);
                    },
                    Err(_) => {},
                }
            }
        }
        pos = pos + 4 + bytes.len() as u64;
        row = row + 1;
    }
    assert(hits + Seq::<(i64, usize)>::empty() =~= hits);
    Ok(())
}

/// The message that an address is not text.
pub fn bad_text(m: String) -> (e: Error)
    ensures
        e@ == "invalid utf8 in q24 url block: "@ + m@,
{
    let mut text = String::from_str("invalid utf8 in q24 url block: ");
    text.append(m.as_str());
    Error::Msg(text)
}

/// The blocks of a column's file.
pub struct BlocksView {
    pub data: Seq<u8>,
    pub blocks: Seq<ColumnBlockMeta>,
    pub whole: Option<Seq<u8>>,
    pub rows: usize,
}

/// What a reader reads.
pub open spec fn reader_view(r: ColumnBlockReader) -> BlocksView {
    BlocksView {
        data: r.data(),
        blocks: r.description().blocks@,
        whole: r.whole(),
        rows: r.description().row_count,
    }
}

/// The blocks of a column's file, or why they cannot be read.
pub open spec fn blocks_of(
    files: Seq<ColumnFile>,
    name: Seq<char>,
    sidecar: Option<ColumnBlocksSidecar>,
) -> Result<BlocksView, Seq<char>> {
    match file_of(files, name) {
        None => Err("column file missing: "@ + name),
        Some(f) => match sidecar {
            Some(s) => match sidecar_fault(s) {
                Some(m) => Err(m),
                None => Ok(
                    BlocksView {
                        data: f.data@,
                        blocks: s.blocks@,
                        whole: None,
                        rows: s.row_count,
                    },
                ),
            },
            None => match file_outcome(f.data@) {
                Err(m) => Err(m),
                Ok((_, payload)) => Ok(
                    BlocksView {
                        data: f.data@,
                        blocks: seq![
                            single_meta(payload, f.data@.len(), 0, BlockEncoding::Raw),
                        ],
                        whole: Some(payload),
                        rows: rows_of_payload(payload),
                    },
                ),
            },
        },
    }
}

/// Opens the blocks of a column's file.
pub fn column_block_reader(
    files: &Vec<ColumnFile>,
    name: &str,
    sidecar: Option<ColumnBlocksSidecar>,
) -> (r: Result<ColumnBlockReader, Error>)
    ensures
        match r {
            Ok(x) => yields(blocks_of(files@, name@, sidecar), reader_view(x)),
            Err(e) => fails(blocks_of(files@, name@, sidecar), e@),
        },
{
    let i: usize = match find_file(files, name) {
        Some(i) => i,
        None => {
            return Err(missing_file(name));
        },
    };
    ColumnBlockReader::open(vstd::slice::slice_to_vec(files[i].data.as_slice()), sidecar)
}

/// Why two columns cannot be read side by side, if they cannot.
pub open spec fn pairing_fault(u: BlocksView, v: BlocksView, n: nat) -> Option<Seq<char>> {
    if u.rows != v.rows {
        Some("q24 block readers row_count mismatch between URL and EventTime"@)
    } else if u.rows != n {
        Some("q24 block reader row_count mismatch with table"@)
    } else if u.blocks.len() != v.blocks.len() {
        Some("q24 block readers block count mismatch between URL and EventTime"@)
    } else {
        None
    }
}

/// Whether two blocks hold the same rows.
pub open spec fn same_rows(a: ColumnBlockMeta, b: ColumnBlockMeta) -> bool {
    a.block_id == b.block_id && a.row_start == b.row_start && a.row_count == b.row_count
}

/// The rows of the first `k` blocks whose address matches a pattern, each with its time.
pub open spec fn hits_of(u: BlocksView, v: BlocksView, pattern: Seq<char>, k: int) -> Result<
    Seq<(i64, usize)>,
    Seq<char>,
>
    decreases k,
{
    if k <= 0 {
        Ok(Seq::empty())
    } else {
        match hits_of(u, v, pattern, k - 1) {
            Err(m) => Err(m),
            Ok(before) => if !same_rows(u.blocks[k - 1], v.blocks[k - 1]) {
                Err("q24 block metadata mismatch between URL and EventTime"@)
            } else {
                match block_outcome(u.data, u.blocks, u.whole, u.blocks[k - 1].block_id) {
                    Err(m) => Err(m),
                    Ok(urls) => match block_outcome(
                        v.data,
                        v.blocks,
                        v.whole,
                        v.blocks[k - 1].block_id,
                    ) {
                        Err(m) => Err(m),
                        Ok(times) => found_after(
                            before,
                            block_hits(urls, times, pattern, u.blocks[k - 1].row_start),
                        ),
                    },
                }
            },
        }
    }
}

proof fn lemma_hits_fault(u: BlocksView, v: BlocksView, pattern: Seq<char>, i: int, k: int)
    requires
        0 <= i <= k,
        hits_of(u, v, pattern, i) is Err,
    ensures
        hits_of(u, v, pattern, k) == hits_of(u, v, pattern, i),
    decreases k,
{
    if i < k {
        lemma_hits_fault(u, v, pattern, i, k - 1);
    }
}

/// The numbers of rows with times.
pub open spec fn row_numbers(hits: Seq<(i64, usize)>) -> Seq<usize> {
    Seq::new(hits.len(), |i: int| hits[i].1)
}

/// The earliest rows whose address matches a pattern, of two columns read side by side.
pub open spec fn earliest(
    u: BlocksView,
    v: BlocksView,
    pattern: Seq<char>,
    need: nat,
    n: nat,
) -> Result<Seq<usize>, Seq<char>> {
    match pairing_fault(u, v, n) {
        Some(m) => Err(m),
        None => match hits_of(u, v, pattern, u.blocks.len() as int) {
            Err(m) => Err(m),
            Ok(hits) => Ok(row_numbers(best_of(hits, time_leq(), need))),
        },
    }
}

/// The earliest rows whose address matches a pattern.
pub fn streaming_topk_url_like_blocks(
    url_reader: &ColumnBlockReader,
    event_reader: &ColumnBlockReader,
    row_count: usize,
    need: usize,
    pattern: &str,
) -> (r: Result<Vec<usize>, Error>)
    ensures
        match r {
            Ok(rows) => yields(
                earliest(
                    reader_view(*url_reader),
                    reader_view(*event_reader),
                    pattern@,
                    need as nat,
                    row_count as nat,
                ),
                rows@,
            ),
            Err(e) => fails(
                earliest(
                    reader_view(*url_reader),
                    reader_view(*event_reader),
                    pattern@,
                    need as nat,
                    row_count as nat,
                ),
                e@,
            ),
        },
{
    let ghost u = reader_view(*url_reader);
    let ghost v = reader_view(*event_reader);
    if url_reader.row_count() != event_reader.row_count() {
        return Err(
            Error::msg("q24 block readers row_count mismatch between URL and EventTime"),
        );
    }
    if url_reader.row_count() != row_count {
        return Err(Error::msg("q24 block reader row_count mismatch with table"));
    }
    let url_blocks = url_reader.blocks();
    let event_blocks = event_reader.blocks();
    if url_blocks.len() != event_blocks.len() {
        return Err(
            Error::msg("q24 block readers block count mismatch between URL and EventTime"),
        );
    }
    let mut best: Vec<(i64, usize)> = Vec::new();
    let ghost mut hits: Seq<(i64, usize)> = Seq::empty();
    proof {
        lemma_time_leq();
        lemma_sorted_len(hits, time_leq());
        assert(best@ =~= best_of(hits, time_leq(), need as nat));
    }
    let mut i: usize = 0;
    while i < url_blocks.len()
        invariant
            i <= url_blocks@.len() == event_blocks@.len(),
            u == reader_view(*url_reader),
            v == reader_view(*event_reader),
            url_blocks@ == u.blocks,
            event_blocks@ == v.blocks,
            pairing_fault(u, v, row_count as nat) is None,
            yields(hits_of(u, v, pattern@, i as int), hits),
            best@ == best_of(hits, time_leq(), need as nat),
        decreases url_blocks@.len() - i,
    {
        let a: ColumnBlockMeta = url_blocks[i];
        let b: ColumnBlockMeta = event_blocks[i];
        if a.block_id != b.block_id || a.row_start != b.row_start || a.row_count != b.row_count {
            proof {
                lemma_hits_fault(u, v, pattern@, i + 1, u.blocks.len() as int);
            }
            return Err(Error::msg("q24 block metadata mismatch between URL and EventTime"));
        }
        let url_block = match url_reader.read_block(a.block_id) {
            Ok(x) => x,
            Err(e) => {
                proof {
                    lemma_hits_fault(u, v, pattern@, i + 1, u.blocks.len() as int);
                }
                return Err(e);
            },
        };
        let event_block = match event_reader.read_block(b.block_id) {
            Ok(x) => x,
            Err(e) => {
                proof {
                    lemma_hits_fault(u, v, pattern@, i + 1, u.blocks.len() as int);
                }
                return Err(e);
            },
        };
        match scan_q24_block(
            a.row_start,
            &url_block.bytes,
            &event_block.bytes,
            pattern,
            need,
            &mut best,
            Ghost(hits),
        ) {
            Err(e) => {
                proof {
                    lemma_hits_fault(u, v, pattern@, i + 1, u.blocks.len() as int);
                }
                return Err(e);
            },
            Ok(_) => {
                proof {
                    let more = block_hits(
                        url_block.bytes@,
                        event_block.bytes@,
                        pattern@,
                        a.row_start,
                    )->Ok_0;
                    hits = hits + more;
                }
            },
        }
        i = i + 1;
    }
    let mut rows: Vec<usize> = Vec::new();
    let mut k: usize = 0;
    while k < best.len()
        invariant
            k <= best@.len(),
            rows@.len() == k,
            forall|j: int| 0 <= j < k ==> #[trigger] rows@[j] == best@[j].1,
        decreases best@.len() - k,
    {
        rows.push(best[k].1);
        k = k + 1;
    }
    assert(rows@ =~= row_numbers(best@));
    Ok(rows)
}

/// Whether a query asks for everything about the addresses that match a pattern, in the
/// order of the event time.
pub open spec fn q24_shape(q: ParsedQuery) -> bool {
    &&& q.select_all
    &&& q.order_by@.len() == 1
    &&& ordered_by(q.order_by@[0].0) == "EventTime"@
    &&& q.where_expr matches Some(e) && url_like(e)
}

/// Whether a query asks for everything about the addresses that match a pattern, in the
/// order of the event time.
pub fn q24_narrow_load(parsed: &ParsedQuery) -> (r: bool)
    ensures
        r == q24_shape(*parsed),
{
    if !parsed.select_all || parsed.order_by.len() != 1 {
        return false;
    }
    let like = match &parsed.where_expr {
        Some(e) => where_is_url_like(e),
        None => false,
    };
    str_eq(order_column_name(&parsed.order_by[0].0), "EventTime") && like
}

/// The earliest rows whose address matches the pattern of a query, out of the files of
/// the two columns.
pub open spec fn stored_rows(
    files: Seq<ColumnFile>,
    url_blocks: Option<ColumnBlocksSidecar>,
    event_blocks: Option<ColumnBlocksSidecar>,
    q: ParsedQuery,
    n: nat,
) -> Result<Seq<usize>, Seq<char>> {
    match url_pattern(q.where_expr->Some_0) {
        Err(m) => Err(m),
        Ok(pattern) => {
            let need = room_for(limit_or_ten(q), query_offset(q));
            if need == 0 {
                Ok(Seq::empty())
            } else {
                match blocks_of(files, "URL"@, url_blocks) {
                    Err(m) => Err(m),
                    Ok(u) => match blocks_of(files, "EventTime"@, event_blocks) {
                        Err(m) => Err(m),
                        Ok(v) => match earliest(u, v, pattern, need, n) {
                            Err(m) => Err(m),
                            Ok(rows) => Ok(
                                window(rows, limit_or_ten(q) as nat, query_offset(q) as nat),
                            ),
                        },
                    },
                }
            }
        },
    }
}

/// The earliest rows whose address matches the pattern of a query.
fn find_stored_rows(
    files: &Vec<ColumnFile>,
    url_blocks: Option<ColumnBlocksSidecar>,
    event_blocks: Option<ColumnBlocksSidecar>,
    parsed: &ParsedQuery,
    row_count: usize,
) -> (r: Result<Vec<usize>, Error>)
    requires
        parsed.where_expr is Some,
    ensures
        match r {
            Ok(rows) => yields(
                stored_rows(files@, url_blocks, event_blocks, *parsed, row_count as nat),
                rows@,
            ),
            Err(e) => fails(
                stored_rows(files@, url_blocks, event_blocks, *parsed, row_count as nat),
                e@,
            ),
        },
{
    let expr = match &parsed.where_expr {
        Some(e) => e,
        None => {
            return Ok(Vec::new());
        },
    };
    let pattern = match url_like_pattern(expr) {
        Ok(p) => p,
        Err(e) => {
            return Err(e);
        },
    };
    let limit: usize = limit_or_default(parsed);
    let offset: usize = offset_of(parsed);
    let need: usize = offset.saturating_add(limit);
    if need == 0 {
        return Ok(Vec::new());
    }
    let url_reader = match column_block_reader(files, "URL", url_blocks) {
        Ok(x) => x,
        Err(e) => {
            return Err(e);
        },
    };
    let event_reader = match column_block_reader(files, "EventTime", event_blocks) {
        Ok(x) => x,
        Err(e) => {
            return Err(e);
        },
    };
    let rows = match streaming_topk_url_like_blocks(
        &url_reader,
        &event_reader,
        row_count,
        need,
        pattern,
    ) {
        Ok(v) => v,
        Err(e) => {
            return Err(e);
        },
    };
    let mut out: Vec<usize> = Vec::new();
    let mut j: usize = offset;
    while j < rows.len() && j - offset < limit
        invariant
            offset <= j,
            j <= rows@.len() || j == offset,
            out@ =~= window(rows@, (j - offset) as nat, offset as nat),
            j - offset <= limit,
        decreases rows@.len() - j,
    {
        out.push(rows[j]);
        j = j + 1;
    }
    assert(out@ =~= window(rows@, limit as nat, offset as nat));
    Ok(out)
}

/// Everything about the addresses that match a pattern, in the order of the event time,
/// if that is what the query asks for. The rows are found block by block; the columns in
/// memory make room, and everything is read out of the files.
pub fn try_execute_q24_streaming(
    table: &mut Table,
    parsed: &ParsedQuery,
    row_count: usize,
    files: &Vec<ColumnFile>,
    url_blocks: Option<ColumnBlocksSidecar>,
    event_blocks: Option<ColumnBlocksSidecar>,
) -> (r: Result<Option<QueryResult>, Error>)
    requires
        old(table).wf(),
    ensures
        final(table).wf(),
        final(table).info() == old(table).info(),
        final(table).index() == old(table).index(),
        if !q24_shape(*parsed) {
            yields(attempt(r), None) && *final(table) == *old(table)
        } else {
            match stored_rows(files@, url_blocks, event_blocks, *parsed, row_count as nat) {
                Err(m) => fails(attempt(r), m) && final(table).memory() == old(
                    table,
                ).memory().remove_keys(set!["URL"@, "EventTime"@]),
                Ok(rows) => final(table).memory().dom() =~= Set::<Seq<char>>::empty() && fetched(
                    r,
                    *final(table),
                    files@,
                    rows,
                ),
            }
        },
{
    if !q24_narrow_load(parsed) {
        return Ok(None);
    }
    let mut gone: Vec<String> = Vec::new();
    gone.push(String::from_str("URL"));
    gone.push(String::from_str("EventTime"));
    table.drop_columns(&gone);
    proof {
        assert(name_set(gone@) =~= set!["URL"@, "EventTime"@]) by {
            assert(gone@[0]@ == "URL"@);
            assert(gone@[1]@ == "EventTime"@);
            assert forall|n: Seq<char>| #[trigger] name_set(gone@).contains(n) <==> set![
                "URL"@,
                "EventTime"@,
            ].contains(n) by {
                lemma_name_set_holds(gone@, n);
            }
        }
    }
    let rows = match find_stored_rows(files, url_blocks, event_blocks, parsed, row_count) {
        Ok(v) => v,
        Err(e) => {
            return Err(e);
        },
    };
    let none: Vec<String> = Vec::new();
    table.retain_columns(&none);
    proof {
        assert(table.memory().dom() =~= Set::<Seq<char>>::empty());
        assert forall|i: int| 0 <= i < rows@.len() implies table.covers_row(
            (#[trigger] rows@[i]) as int,
        ) by {
            assert forall|k: int| 0 <= k < table.loaded().len() implies (rows@[i] as int) < (
            #[trigger] table.loaded()[k]).1@.len() by {
                let name = table.loaded()[k].0;
                assert(table.at(name, k));
                assert(table.has(name));
                assert(table.memory().dom().contains(name));
            }
        }
    }
    fetch_rows(table, &rows, files)
}

} // verus!
