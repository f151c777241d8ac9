//! What was written is what is read: flushed tables, opened again and projected.
use crate::error::yields;
use crate::storage::column::{
    column_fits, column_payload, file_outcome, framed, law_column_read_back,
    law_payload_read_back, lemma_payload_sound, payload_cells, sidecar_beside, ColumnData,
    ColumnView,
};
use crate::storage::pod::pod_values;
use crate::storage::table::{
    column_cells, declared_names, file_fault, file_holds, file_of, file_sidecar, memory_read,
    opening_fault, present, projected, projection_fault, source_of, written, ColumnFile,
    ColumnMeta, Table,
};
use crate::storage::utf8_col::{lemma_text_body_reads, text_body, text_offsets};
use vstd::prelude::*;

verus! {

/// Whether a column is small enough to be written and read back.
pub open spec fn storable(col: ColumnView) -> bool {
    &&& column_fits(col)
    &&& col.len() <= u64::MAX
    &&& column_payload(col).len() <= u32::MAX
}

/// A file that a column was written to has no fault, and holds that column alone.
proof fn lemma_written_reads(col: ColumnView, file: ColumnFile)
    requires
        written(col, file),
        storable(col),
    ensures
        yields(file_outcome(file.data@), (col.column_type(), column_payload(col))),
        file_sidecar(file) == sidecar_beside(col, true),
        file_fault(file) is None,
        forall|c: ColumnData| #[trigger] file_holds(file, c) ==> c@ == col,
{
    let raw = column_payload(col);
    let packed = choose|packed: Option<Seq<u8>>|
        {
            &&& file.data@ == #[trigger] framed(col.column_type(), raw, packed)
            &&& packed matches Some(p) ==> raw.len() <= u32::MAX ==> yields(
                crate::storage::column::lz4_decompressed(p),
                raw,
            )
        };
    law_payload_read_back(col.column_type(), raw, packed);
    lemma_payload_sound(col, true);
    if let ColumnView::Utf8(rows) = col {
        assert forall|i: int| 0 <= i < text_offsets(rows).len() implies
            crate::storage::utf8_col::entry_ok(
            text_body(rows),
            #[trigger] text_offsets(rows)[i] as int,
        ) && crate::storage::utf8_col::entry_is_text(
            text_body(rows),
            text_offsets(rows)[i] as int,
        ) by {
            lemma_text_body_reads(rows, i);
        }
    }
    assert forall|c: ColumnData| #[trigger] file_holds(file, c) implies c@ == col by {
        law_column_read_back(
            col,
            packed,
            true,
            Ok::<ColumnData, crate::error::Error>(c),
        );
    }
}

/// The file that is found under a name is one of those that bear it.
proof fn lemma_file_of(files: Seq<ColumnFile>, name: Seq<char>)
    ensures
        match file_of(files, name) {
            Some(f) => exists|i: int| 0 <= i < files.len() && #[trigger] files[i] == f && f.name@ == name,
            None => forall|i: int| 0 <= i < files.len() ==> (#[trigger] files[i]).name@ != name,
        },
    decreases files.len(),
{
    if files.len() > 0 && files[0].name@ != name {
        let rest = files.skip(1);
        lemma_file_of(rest, name);
        match file_of(rest, name) {
            Some(f) => {
                let i = choose|i: int| 0 <= i < rest.len() && #[trigger] rest[i] == f;
                assert(files[i + 1] == f);
            },
            None => {
                assert forall|i: int| 0 <= i < files.len() implies (
                #[trigger] files[i]).name@ != name by {
                    if i > 0 {
                        assert(rest[i - 1] == files[i]);
                    }
                }
            },
        }
    } else if files.len() > 0 {
        assert(files[0].name@ == name);
    }
}

/// Whether files are those that a table is flushed to.
pub open spec fn flushed(t: Table, files: Seq<ColumnFile>) -> bool {
    &&& files.len() == present(t, t.declared().len()).len()
    &&& forall|i: int|
        0 <= i < files.len() ==> {
            let n = present(t, t.declared().len())[i];
            (#[trigger] files[i]).name@ == n && written(t.col(n), files[i])
        }
}

/// Whether every column of a table in memory can be written and read back.
pub open spec fn all_storable(t: Table) -> bool {
    forall|n: Seq<char>| t.has(n) ==> storable(#[trigger] t.col(n))
}

proof fn lemma_filter_members<A>(s: Seq<A>, keep: spec_fn(A) -> bool, x: A)
    ensures
        s.filter(keep).contains(x) <==> s.contains(x) && keep(x),
    decreases s.len(),
{
    reveal(Seq::filter);
    if s.len() > 0 {
        let front = s.drop_last();
        lemma_filter_members(front, keep, x);
        let was = front.filter(keep);
        if s.contains(x) && keep(x) {
            let i = choose|i: int| 0 <= i < s.len() && s[i] == x;
            if i < front.len() {
                assert(front[i] == x);
                let j = choose|j: int| 0 <= j < was.len() && was[j] == x;
                assert(s.filter(keep)[j] == x);
            } else {
                assert(s.filter(keep)[was.len() as int] == x);
            }
        }
        if s.filter(keep).contains(x) {
            let j = choose|j: int| 0 <= j < s.filter(keep).len() && s.filter(keep)[j] == x;
            if j < was.len() {
                assert(was[j] == x);
                let i = choose|i: int| 0 <= i < front.len() && front[i] == x;
                assert(s[i] == x);
            } else {
                assert(s[s.len() - 1] == x);
            }
        }
    }
}

/// The file of a column is there if and only if the column is declared and in memory.
proof fn lemma_flushed_file(t: Table, files: Seq<ColumnFile>, name: Seq<char>)
    requires
        flushed(t, files),
    ensures
        match file_of(files, name) {
            Some(f) => t.has(name) && declared_names(t.declared()).contains(name) && written(
                t.col(name),
                f,
            ),
            None => !(t.has(name) && declared_names(t.declared()).contains(name)),
        },
{
    let all = declared_names(t.declared());
    let here = |x: Seq<char>| t.has(x);
    let names = present(t, t.declared().len());
    assert(t.declared().take(t.declared().len() as int) =~= t.declared());
    assert(names == all.filter(here));
    lemma_filter_members(all, here, name);
    lemma_file_of(files, name);
    match file_of(files, name) {
        Some(f) => {
            let i = choose|i: int| 0 <= i < files.len() && #[trigger] files[i] == f;
            assert(names[i] == name);
            assert(names.contains(name));
        },
        None => {
            if t.has(name) && all.contains(name) {
                assert(names.contains(name));
                let i = choose|i: int| 0 <= i < names.len() && names[i] == name;
                assert(files[i].name@ == name);
            }
        },
    }
}

proof fn lemma_flushed_opens(t: Table, files: Seq<ColumnFile>, columns: Seq<ColumnMeta>)
    requires
        flushed(t, files),
        all_storable(t),
    ensures
        opening_fault(columns, files, None) is None,
    decreases columns.len(),
{
    if columns.len() > 0 {
        lemma_flushed_opens(t, files, columns.drop_last());
        let name = columns.last().name@;
        lemma_flushed_file(t, files, name);
        match file_of(files, name) {
            Some(f) => {
                lemma_written_reads(t.col(name), f);
            },
            None => {},
        }
    }
}

/// A flushed table is opened again without a fault, and then holds the declared columns
/// that were in memory, with their values, and no others.
pub proof fn law_flushed_table_opens(
    t: Table,
    files: Seq<ColumnFile>,
    memory: Map<Seq<char>, ColumnData>,
)
    requires
        flushed(t, files),
        all_storable(t),
    ensures
        opening_fault(t.declared(), files, None) is None,
        memory_read(memory, t.declared(), files, None) ==> forall|n: Seq<char>| #[trigger]
            memory.dom().contains(n) <==> t.has(n) && declared_names(t.declared()).contains(n),
        memory_read(memory, t.declared(), files, None) ==> forall|n: Seq<char>| #[trigger]
            memory.dom().contains(n) ==> memory[n]@ == t.col(n),
{
    lemma_flushed_opens(t, files, t.declared());
    if memory_read(memory, t.declared(), files, None) {
        assert forall|n: Seq<char>| #[trigger]
            memory.dom().contains(n) <==> t.has(n) && declared_names(t.declared()).contains(n) by {
            lemma_flushed_file(t, files, n);
        }
        assert forall|n: Seq<char>| #[trigger] memory.dom().contains(n) implies memory[n]@
            == t.col(n) by {
            lemma_flushed_file(t, files, n);
            let f = file_of(files, n)->Some_0;
            assert(source_of(t.declared(), files, None, n) == Some(f));
            lemma_written_reads(t.col(n), f);
            assert(file_holds(f, memory[n]));
        }
    }
}

/// The texts of some rows of a column.
pub open spec fn cells_of(col: ColumnView, rows: Seq<usize>) -> Seq<Seq<char>> {
    Seq::new(rows.len(), |i: int| col.cell_text(rows[i] as int))
}

/// The texts of some rows are read from a payload as they were written.
proof fn lemma_payload_cells(col: ColumnView, rows: Seq<usize>)
    requires
        storable(col),
        forall|i: int| 0 <= i < rows.len() ==> (#[trigger] rows[i]) < col.len(),
    ensures
        yields(
            payload_cells(
                column_payload(col),
                col.column_type(),
                rows,
                sidecar_beside(col, true),
            ),
            cells_of(col, rows),
        ),
    decreases rows.len(),
{
    let raw = column_payload(col);
    let body = raw.skip(8);
    lemma_payload_sound(col, true);
    if rows.len() == 0 {
        assert(cells_of(col, rows) =~= Seq::<Seq<char>>::empty());
    } else {
        let front = rows.drop_last();
        assert forall|i: int| 0 <= i < front.len() implies (#[trigger] front[i]) < col.len() by {
            assert(front[i] == rows[i]);
        }
        lemma_payload_cells(col, front);
        let row = rows.last();
        assert(rows[rows.len() - 1] < col.len());
        let count = col.len();
        assert((row + 1) * crate::storage::column::type_width(col.column_type()) <= count
            * crate::storage::column::type_width(col.column_type())) by (nonlinear_arith)
            requires
                row < count,
        ;
        match col {
            ColumnView::Int64(v) => {
                assert(pod_values::<i64>(body, v.len())[row as int] == v[row as int]);
            },
            ColumnView::Int32(v) => {
                assert(pod_values::<i32>(body, v.len())[row as int] == v[row as int]);
            },
            ColumnView::Int16(v) => {
                assert(pod_values::<i16>(body, v.len())[row as int] == v[row as int]);
            },
            ColumnView::Date(v) => {
                assert(pod_values::<i32>(body, v.len())[row as int] == v[row as int]);
            },
            ColumnView::Timestamp(v) => {
                assert(pod_values::<i64>(body, v.len())[row as int] == v[row as int]);
            },
            ColumnView::Utf8(texts) => {
                lemma_text_body_reads(texts, row as int);
                crate::storage::utf8_col::law_offsets_read_back(text_offsets(texts));
                assert(sidecar_beside(col, true) == Some(text_offsets(texts)));
            },
        }
        assert(cells_of(col, rows) =~= cells_of(col, front).push(col.cell_text(row as int)));
    }
}

/// What a projection reads of a column does not depend on whether it is in memory.
proof fn lemma_column_cells(
    t: Table,
    files: Seq<ColumnFile>,
    b: Table,
    name: Seq<char>,
    rows: Seq<usize>,
)
    requires
        t.wf(),
        flushed(t, files),
        all_storable(t),
        t.has(name),
        declared_names(t.declared()).contains(name),
        b.has(name) ==> b.col(name) == t.col(name),
        forall|i: int| 0 <= i < rows.len() ==> t.covers_row((#[trigger] rows[i]) as int),
    ensures
        yields(column_cells(b, files, name, rows), cells_of(t.col(name), rows)),
{
    if b.has(name) {
        assert(column_cells(b, files, name, rows)->Ok_0 =~= cells_of(t.col(name), rows));
    } else {
        lemma_flushed_file(t, files, name);
        let f = file_of(files, name)->Some_0;
        let col = t.col(name);
        lemma_written_reads(col, f);
        assert forall|i: int| 0 <= i < rows.len() implies (#[trigger] rows[i]) < col.len() by {
            assert(t.covers_row(rows[i] as int));
            t.lemma_covers(name, rows[i] as int);
        }
        lemma_payload_cells(col, rows);
        if rows.len() == 0 {
            assert(cells_of(col, rows) =~= Seq::<Seq<char>>::empty());
        }
    }
}

/// Whether a table has some of the columns of another in memory, with their values.
pub open spec fn partly_loaded(b: Table, t: Table) -> bool {
    &&& b.declared() == t.declared()
    &&& forall|n: Seq<char>| #[trigger] b.has(n) ==> b.col(n) == t.col(n)
}

proof fn lemma_projection_sound(
    t: Table,
    files: Seq<ColumnFile>,
    b: Table,
    rows: Seq<usize>,
    n: nat,
)
    requires
        t.wf(),
        flushed(t, files),
        all_storable(t),
        forall|i: int| 0 <= i < t.declared().len() ==> t.has((#[trigger] t.declared()[i]).name@),
        partly_loaded(b, t),
        forall|i: int| 0 <= i < rows.len() ==> t.covers_row((#[trigger] rows[i]) as int),
        n <= t.declared().len(),
    ensures
        projection_fault(b, files, rows, n) is None,
    decreases n,
{
    if n > 0 {
        lemma_projection_sound(t, files, b, rows, (n - 1) as nat);
        let name = t.declared()[n - 1].name@;
        assert(declared_names(t.declared())[n - 1] == name);
        lemma_column_cells(t, files, b, name, rows);
    }
}

/// Whichever columns of a flushed table are in memory, a projection of rows gives the
/// same texts: those of the values that were flushed.
pub proof fn law_projection_reads_back(
    t: Table,
    files: Seq<ColumnFile>,
    b: Table,
    rows: Seq<usize>,
)
    requires
        t.wf(),
        flushed(t, files),
        all_storable(t),
        forall|i: int| 0 <= i < t.declared().len() ==> t.has((#[trigger] t.declared()[i]).name@),
        partly_loaded(b, t),
        forall|i: int| 0 <= i < rows.len() ==> t.covers_row((#[trigger] rows[i]) as int),
    ensures
        projection_fault(b, files, rows, b.declared().len()) is None,
        projected(b, files, rows, b.declared().len()) == Seq::new(
            rows.len(),
            |r: int|
                Seq::new(
                    t.declared().len(),
                    |c: int| t.col(t.declared()[c].name@).cell_text(rows[r] as int),
                ),
        ),
{
    let n = t.declared().len();
    lemma_projection_sound(t, files, b, rows, n);
    let out = projected(b, files, rows, n);
    let want = Seq::new(
        rows.len(),
        |r: int|
            Seq::new(n, |c: int| t.col(t.declared()[c].name@).cell_text(rows[r] as int)),
    );
    assert forall|r: int| 0 <= r < rows.len() implies #[trigger] out[r] == want[r] by {
        assert forall|c: int| 0 <= c < n implies #[trigger] out[r][c] == want[r][c] by {
            let name = t.declared()[c].name@;
            assert(declared_names(t.declared())[c] == name);
            lemma_column_cells(t, files, b, name, rows);
        }
        assert(out[r] =~= want[r]);
    }
    assert(out =~= want);
}

} // verus!
