//! What is loaded of a file: which of its fields become columns, and what the values of its
//! arrays become.
use crate::storage::column::{ColumnType, ColumnView};
use crate::storage::load::{
    all_columns, array_of, as_column, batch_column, batch_fault, field_type, hits_schema,
    law_hits_names_differ, logical_type, micros, present_hits, shadowed, ArrayValues, FieldType,
    Values,
};
use crate::storage::utf8_col::text_or_empty;
use crate::text::decimal;
use vstd::prelude::*;

verus! {

/// The field that counts for a name is the last one of that name; without a field of that
/// name there is none.
pub proof fn law_field_found(fields: Seq<(String, FieldType)>, name: Seq<char>, i: int)
    requires
        0 <= i < fields.len(),
        fields[i].0@ == name,
    ensures
        field_type(fields, name) is Some,
        !shadowed(fields, i) ==> field_type(fields, name) == Some(fields[i].1),
    decreases fields.len(),
{
    let n = fields.len() - 1;
    if fields.last().0@ == name {
        if i < n {
            assert(fields[n].0@ == fields[i].0@);
        }
    } else {
        let front = fields.drop_last();
        law_field_found(front, name, i);
        if shadowed(front, i) {
            let j = choose|j: int| i < j < front.len() && (#[trigger] front[j]).0@ == front[i].0@;
            assert(fields[j].0@ == fields[i].0@);
        }
    }
}

/// A type that is found for a name is that of a field of the name, behind which there is no
/// other of the name.
pub proof fn law_field_is_there(fields: Seq<(String, FieldType)>, name: Seq<char>) -> (i: int)
    requires
        field_type(fields, name) is Some,
    ensures
        0 <= i < fields.len(),
        fields[i].0@ == name,
        field_type(fields, name) == Some(fields[i].1),
        !shadowed(fields, i),
    decreases fields.len(),
{
    let n = fields.len() - 1;
    if fields.last().0@ == name {
        n
    } else {
        let front = fields.drop_last();
        let i = law_field_is_there(front, name);
        if shadowed(fields, i) {
            let j = choose|j: int|
                i < j < fields.len() && (#[trigger] fields[j]).0@ == fields[i].0@;
            assert(j < n);
            assert(front[j].0@ == front[i].0@);
        }
        i
    }
}

/// Every field that has a column type and that no later field of its name takes the place of
/// becomes a column of that type.
pub proof fn law_fields_become_columns(fields: Seq<(String, FieldType)>, k: int, i: int) -> (at: int)
    requires
        0 <= i < k <= fields.len(),
        !shadowed(fields, i),
        logical_type(fields[i].0@, fields[i].1) is Some,
    ensures
        0 <= at < all_columns(fields, k).len(),
        all_columns(fields, k)[at] == (
            fields[i].0@,
            logical_type(fields[i].0@, fields[i].1)->Some_0,
        ),
    decreases k,
{
    if i == k - 1 {
        all_columns(fields, k).len() - 1
    } else {
        law_fields_become_columns(fields, k - 1, i)
    }
}

/// Every column comes from a field, in the order of the fields, and no two have one name.
pub proof fn law_columns_from_fields(fields: Seq<(String, FieldType)>, k: int) -> (from: Seq<int>)
    requires
        0 <= k <= fields.len(),
    ensures
        from.len() == all_columns(fields, k).len(),
        forall|c: int|
            #![trigger from[c]]
            0 <= c < from.len() ==> 0 <= from[c] < k && !shadowed(fields, from[c]),
        forall|c: int|
            #![trigger all_columns(fields, k)[c]]
            0 <= c < from.len() ==> all_columns(fields, k)[c].0 == fields[from[c]].0@ && Some(
                all_columns(fields, k)[c].1,
            ) == logical_type(fields[from[c]].0@, fields[from[c]].1),
        forall|c: int, d: int|
            #![trigger from[c], from[d]]
            0 <= c < d < from.len() ==> from[c] < from[d],
        forall|c: int, d: int|
            #![trigger all_columns(fields, k)[c], all_columns(fields, k)[d]]
            0 <= c < d < from.len() ==> all_columns(fields, k)[c].0 != all_columns(fields, k)[d].0,
    decreases k,
{
    if k == 0 {
        Seq::empty()
    } else {
        let front = law_columns_from_fields(fields, k - 1);
        let a = all_columns(fields, k - 1);
        let b = all_columns(fields, k);
        let (name, dt) = fields[k - 1];
        let from = if logical_type(name@, dt) is Some && !shadowed(fields, k - 1) {
            front.push(k - 1)
        } else {
            front
        };
        assert forall|c: int| 0 <= c < from.len() implies 0 <= #[trigger] from[c] < k && !shadowed(
            fields,
            from[c],
        ) by {
            if c < front.len() {
                assert(from[c] == front[c]);
            }
        }
        assert forall|c: int| 0 <= c < from.len() implies (#[trigger] b[c]).0 == fields[from[c]].0@
            && Some(b[c].1) == logical_type(fields[from[c]].0@, fields[from[c]].1) by {
            if c < front.len() {
                assert(from[c] == front[c]);
                assert(b[c] == a[c]);
            }
        }
        assert forall|c: int, d: int|
            #![trigger from[c], from[d]]
            0 <= c < d < from.len() implies from[c] < from[d] by {
            assert(from[c] == front[c]);
            assert(0 <= front[c] < k - 1);
            if d < front.len() {
                assert(from[d] == front[d]);
            }
        }
        assert forall|c: int, d: int|
            #![trigger b[c], b[d]]
            0 <= c < d < from.len() implies b[c].0 != b[d].0 by {
            assert(from[c] < from[d]);
            assert(!shadowed(fields, from[c]));
            assert(b[d].0 == fields[from[d]].0@);
            assert(b[c].0 == fields[from[c]].0@);
            if b[c].0 == b[d].0 {
                assert(fields[from[d]].0@ == fields[from[c]].0@);
            }
        }
        from
    }
}

/// The columns of the hits that are loaded are those that the file has with the type that the
/// column is to have.
pub proof fn law_hits_loaded(fields: Seq<(String, FieldType)>, k: int, i: int)
    requires
        0 <= i < k <= hits_schema().len(),
    ensures
        present_hits(fields, k).contains(hits_schema()[i]) <==> (field_type(
            fields,
            hits_schema()[i].0,
        ) matches Some(dt) && logical_type(hits_schema()[i].0, dt) == Some(hits_schema()[i].1)),
    decreases k,
{
    let front = present_hits(fields, k - 1);
    let all = present_hits(fields, k);
    let last = hits_schema()[k - 1];
    lemma_push_contains(front, last, hits_schema()[i]);
    if i < k - 1 {
        law_hits_loaded(fields, k - 1, i);
        law_hits_names_differ(i, k - 1);
        assert(hits_schema()[i].0 != last.0);
    } else {
        lemma_hits_before(fields, k - 1, i);
        assert(all == front || all == front.push(last));
    }
}

proof fn lemma_push_contains<T>(s: Seq<T>, x: T, y: T)
    ensures
        s.push(x).contains(y) <==> s.contains(y) || x == y,
{
    let p = s.push(x);
    if s.contains(y) {
        let i = choose|i: int| 0 <= i < s.len() && s[i] == y;
        assert(p[i] == y);
    }
    if p.contains(y) {
        let i = choose|i: int| 0 <= i < p.len() && p[i] == y;
        if i < s.len() {
            assert(s[i] == y);
        }
    }
    assert(p[s.len() as int] == x);
}

/// Among the first columns there is none of those behind them.
proof fn lemma_hits_before(fields: Seq<(String, FieldType)>, k: int, i: int)
    requires
        0 <= k <= i < hits_schema().len(),
    ensures
        !present_hits(fields, k).contains(hits_schema()[i]),
    decreases k,
{
    if k > 0 {
        lemma_hits_before(fields, k - 1, i);
        law_hits_names_differ(k - 1, i);
        lemma_push_contains(present_hits(fields, k - 1), hits_schema()[k - 1], hits_schema()[i]);
    }
}

/// Seconds become as many million microseconds, as far as that many can be held; a number too
/// large for seconds is taken for microseconds and stays.
pub proof fn law_micros(v: i64)
    ensures
        i64::MIN <= v * 1_000_000 <= i64::MAX ==> micros(v) == v * 1_000_000,
        v * 1_000_000 > i64::MAX && v < 10_000_000_000_000 ==> micros(v) == i64::MAX,
        v * 1_000_000 < i64::MIN && v > -10_000_000_000_000 ==> micros(v) == i64::MIN,
        v >= 10_000_000_000_000 || v <= -10_000_000_000_000 ==> micros(v) == v,
{
}

/// How many values there are.
pub open spec fn value_count(v: Values) -> nat {
    match v {
        Values::Int64(v) | Values::Micros(v) => v@.len(),
        Values::Int32(v) | Values::Date32(v) => v@.len(),
        Values::UInt32(v) => v@.len(),
        Values::Int16(v) => v@.len(),
        Values::UInt16(v) => v@.len(),
        Values::UInt8(v) => v@.len(),
        Values::Text(v) => v@.len(),
        Values::Int8 | Values::Other => 0,
    }
}

/// A number of an array; nothing is zero.
pub open spec fn number_at(v: Values, i: int) -> int {
    match v {
        Values::Int64(v) | Values::Micros(v) => match v@[i] {
            Some(x) => x as int,
            None => 0,
        },
        Values::Int32(v) | Values::Date32(v) => match v@[i] {
            Some(x) => x as int,
            None => 0,
        },
        Values::UInt32(v) => match v@[i] {
            Some(x) => x as int,
            None => 0,
        },
        Values::Int16(v) => match v@[i] {
            Some(x) => x as int,
            None => 0,
        },
        Values::UInt16(v) => match v@[i] {
            Some(x) => x as int,
            None => 0,
        },
        Values::UInt8(v) => match v@[i] {
            Some(x) => x as int,
            None => 0,
        },
        _ => 0,
    }
}

/// Whether a number can stand in a column of a type.
pub open spec fn holds_number(ty: ColumnType, n: int) -> bool {
    match ty {
        ColumnType::Int64 | ColumnType::Timestamp => i64::MIN <= n <= i64::MAX,
        ColumnType::Int32 | ColumnType::Date => i32::MIN <= n <= i32::MAX,
        ColumnType::Int16 => i16::MIN <= n <= i16::MAX,
        ColumnType::Utf8 => false,
    }
}

/// A column that is made of an array has the wanted type and a row for every value. A number
/// that can stand in it does, with zero in the place of nothing; a number that is to be a time
/// is one in microseconds. A text stays as it is, with the empty one in the place of nothing.
pub proof fn law_values_loaded(a: ArrayValues, ty: ColumnType, i: int)
    requires
        as_column(a, ty) is Ok,
        0 <= i < value_count(a.values),
    ensures
        as_column(a, ty)->Ok_0.column_type() == ty,
        as_column(a, ty)->Ok_0.len() == value_count(a.values),
        a.values matches Values::Text(v) ==> as_column(a, ty)->Ok_0.cell_text(i) == text_or_empty(
            v@[i],
        ),
        !(a.values is Text) && !(ty == ColumnType::Timestamp && a.values is Int64) && holds_number(
            ty,
            number_at(a.values, i),
        ) ==> as_column(a, ty)->Ok_0.cell_text(i) == decimal(number_at(a.values, i)),
        ty == ColumnType::Timestamp && a.values is Int64 ==> as_column(a, ty)->Ok_0.cell_text(i)
            == decimal(micros(number_at(a.values, i) as i64) as int),
{
}

/// Which arrays can become columns: every kind of number that fits, days and times as such,
/// and texts for texts.
pub proof fn law_loadable_types(a: ArrayValues)
    ensures
        as_column(a, ColumnType::Int64) is Ok <==> a.values is Int64,
        as_column(a, ColumnType::Int32) is Ok <==> a.values is Int32 || a.values is UInt32,
        as_column(a, ColumnType::Int16) is Ok <==> a.values is Int16 || a.values is UInt16
            || a.values is UInt8,
        as_column(a, ColumnType::Date) is Ok <==> a.values is Date32 || a.values is UInt16
            || a.values is Int32,
        as_column(a, ColumnType::Timestamp) is Ok <==> a.values is Micros || a.values is Int64,
        as_column(a, ColumnType::Utf8) is Ok <==> a.values is Text,
{
}

/// The array of a batch for a name is the first one of that name.
pub proof fn law_array_found(batch: Seq<(String, ArrayValues)>, name: Seq<char>, i: int)
    requires
        0 <= i < batch.len(),
        batch[i].0@ == name,
        forall|j: int| 0 <= j < i ==> (#[trigger] batch[j]).0@ != name,
    ensures
        array_of(batch, name) == Some(batch[i].1),
    decreases batch.len(),
{
    if i > 0 {
        assert(batch[0].0@ != name);
        let rest = batch.skip(1);
        assert(rest[i - 1] == batch[i]);
        assert forall|j: int| 0 <= j < i - 1 implies (#[trigger] rest[j]).0@ != name by {
            assert(rest[j] == batch[j + 1]);
        }
        law_array_found(rest, name, i - 1);
    }
}

/// A batch without an array of a name has none for it.
pub proof fn law_array_missing(batch: Seq<(String, ArrayValues)>, name: Seq<char>)
    requires
        forall|j: int| 0 <= j < batch.len() ==> (#[trigger] batch[j]).0@ != name,
    ensures
        array_of(batch, name) is None,
    decreases batch.len(),
{
    if batch.len() > 0 {
        let rest = batch.skip(1);
        assert(batch[0].0@ != name);
        assert forall|j: int| 0 <= j < rest.len() implies (#[trigger] rest[j]).0@ != name by {
            assert(rest[j] == batch[j + 1]);
        }
        law_array_missing(rest, name);
    }
}

/// A batch is at fault just where one of the columns cannot be had from it, and the fault is
/// that of the first of them.
pub proof fn law_batch_fault(
    batch: Seq<(String, ArrayValues)>,
    schema: Seq<(String, ColumnType)>,
    k: int,
    i: int,
)
    requires
        0 <= i < k <= schema.len(),
    ensures
        batch_fault(batch, schema, k) is None ==> batch_column(
            batch,
            schema[i].0@,
            schema[i].1,
        ) is Ok,
        batch_column(batch, schema[i].0@, schema[i].1) is Err && (forall|j: int|
            0 <= j < i ==> batch_column(batch, (#[trigger] schema[j]).0@, schema[j].1) is Ok)
            ==> batch_fault(batch, schema, k) == Some(
            batch_column(batch, schema[i].0@, schema[i].1)->Err_0,
        ),
    decreases k,
{
    if i < k - 1 {
        law_batch_fault(batch, schema, k - 1, i);
    } else if forall|j: int|
        0 <= j < i ==> batch_column(batch, (#[trigger] schema[j]).0@, schema[j].1) is Ok {
        lemma_no_fault(batch, schema, k - 1);
    }
}

proof fn lemma_no_fault(
    batch: Seq<(String, ArrayValues)>,
    schema: Seq<(String, ColumnType)>,
    k: int,
)
    requires
        0 <= k <= schema.len(),
        forall|j: int|
            0 <= j < k ==> batch_column(batch, (#[trigger] schema[j]).0@, schema[j].1) is Ok,
    ensures
        batch_fault(batch, schema, k) is None,
    decreases k,
{
    if k > 0 {
        lemma_no_fault(batch, schema, k - 1);
        assert(batch_column(batch, schema[k - 1].0@, schema[k - 1].1) is Ok);
    }
}

/// The rows of a column that follows another stand behind those of that one.
pub proof fn law_rows_follow(a: ColumnView, b: ColumnView, i: int)
    requires
        a.column_type() == b.column_type(),
    ensures
        a.followed_by(b).column_type() == a.column_type(),
        a.followed_by(b).len() == a.len() + b.len(),
        0 <= i < a.len() ==> a.followed_by(b).cell_text(i) == a.cell_text(i),
        0 <= i < b.len() ==> a.followed_by(b).cell_text(a.len() + i) == b.cell_text(i),
{
}

} // verus!
