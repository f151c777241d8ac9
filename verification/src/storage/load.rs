//! Loading of columns: which columns of a file are loaded, as what type, and how the
//! values of its arrays become values of columns.
use crate::error::{fails, outcome, yields, Error};
use crate::expr::eval::clamped;
use crate::storage::column::{ColumnData, ColumnType, ColumnView};
use crate::storage::pod::PodStorage;
use crate::storage::table::{declared_type, ColumnMeta, Table};
use crate::storage::utf8_col::{text_or_empty, Utf8Column};
use crate::text::{join3, str_eq};
use vstd::prelude::*;
use vstd::utf8::encode_utf8;

verus! {

/// The type of a field of a file, as far as it matters.
#[derive(Debug, Clone, Copy, PartialEq, Eq, Structural)]
pub enum FieldType {
    Int64,
    Int32,
    UInt32,
    Int16,
    UInt16,
    Int8,
    UInt8,
    Date32,
    Timestamp,
    Utf8,
    LargeUtf8,
    /// Any other type.
    Other,
}

/// The column type for a field type.
pub open spec fn column_for(dt: FieldType) -> Option<ColumnType> {
    match dt {
        FieldType::Int64 => Some(ColumnType::Int64),
        FieldType::Int32 | FieldType::UInt32 => Some(ColumnType::Int32),
        FieldType::Int16 | FieldType::UInt16 | FieldType::Int8 | FieldType::UInt8 => Some(
            ColumnType::Int16,
        ),
        FieldType::Date32 => Some(ColumnType::Date),
        FieldType::Timestamp => Some(ColumnType::Timestamp),
        FieldType::Utf8 | FieldType::LargeUtf8 => Some(ColumnType::Utf8),
        FieldType::Other => None,
    }
}

/// The column type for a field type.
pub fn arrow_type_to_column(dt: FieldType) -> (r: Option<ColumnType>)
    ensures
        r == column_for(dt),
{
    match dt {
        FieldType::Int64 => Some(ColumnType::Int64),
        FieldType::Int32 | FieldType::UInt32 => Some(ColumnType::Int32),
        FieldType::Int16 | FieldType::UInt16 | FieldType::Int8 | FieldType::UInt8 => Some(
            ColumnType::Int16,
        ),
        FieldType::Date32 => Some(ColumnType::Date),
        FieldType::Timestamp => Some(ColumnType::Timestamp),
        FieldType::Utf8 | FieldType::LargeUtf8 => Some(ColumnType::Utf8),
        FieldType::Other => None,
    }
}

/// The column type for a field: the event time and the event date have theirs, whatever
/// they are stored as.
pub open spec fn logical_type(name: Seq<char>, dt: FieldType) -> Option<ColumnType> {
    if name == "EventTime"@ {
        Some(ColumnType::Timestamp)
    } else if name == "EventDate"@ {
        Some(ColumnType::Date)
    } else {
        column_for(dt)
    }
}

/// The column type for a field.
pub fn logical_column_type(name: &str, dt: FieldType) -> (r: Option<ColumnType>)
    ensures
        r == logical_type(name@, dt),
{
    if str_eq(name, "EventTime") {
        Some(ColumnType::Timestamp)
    } else if str_eq(name, "EventDate") {
        Some(ColumnType::Date)
    } else {
        arrow_type_to_column(dt)
    }
}

/// The columns of the hits.
pub open spec fn hits_schema() -> Seq<(Seq<char>, ColumnType)> {
    seq![
        ("WatchID"@, ColumnType::Int64),
        ("JavaEnable"@, ColumnType::Int16),
        ("Title"@, ColumnType::Utf8),
        ("GoodEvent"@, ColumnType::Int16),
        ("EventTime"@, ColumnType::Timestamp),
        ("EventDate"@, ColumnType::Date),
        ("CounterID"@, ColumnType::Int32),
        ("ClientIP"@, ColumnType::Int32),
        ("RegionID"@, ColumnType::Int32),
        ("UserID"@, ColumnType::Int64),
        ("AdvEngineID"@, ColumnType::Int16),
        ("ResolutionWidth"@, ColumnType::Int16),
        ("SearchPhrase"@, ColumnType::Utf8),
        ("URL"@, ColumnType::Utf8),
        ("Referer"@, ColumnType::Utf8),
        ("MobilePhoneModel"@, ColumnType::Utf8),
        ("MobilePhone"@, ColumnType::Int16),
        ("SearchEngineID"@, ColumnType::Int16),
        ("IsRefresh"@, ColumnType::Int16),
        ("TraficSourceID"@, ColumnType::Int16),
        ("DontCountHits"@, ColumnType::Int16),
        ("IsLink"@, ColumnType::Int16),
        ("IsDownload"@, ColumnType::Int16),
        ("URLHash"@, ColumnType::Int64),
        ("RefererHash"@, ColumnType::Int64),
        ("WindowClientWidth"@, ColumnType::Int16),
        ("WindowClientHeight"@, ColumnType::Int16),
    ]
}

/// Names and types of columns.
pub open spec fn typed_names(v: Seq<(String, ColumnType)>) -> Seq<(Seq<char>, ColumnType)> {
    Seq::new(v.len(), |i: int| (v[i].0@, v[i].1))
}

/// Whether no two columns have one name.
pub open spec fn names_differ(schema: Seq<(String, ColumnType)>) -> bool {
    forall|i: int, j: int|
        0 <= i < j < schema.len() ==> (#[trigger] schema[i]).0@ != (#[trigger] schema[j]).0@
}

/// Names and types of columns.
pub open spec fn typed_strs(v: Seq<(&str, ColumnType)>) -> Seq<(Seq<char>, ColumnType)> {
    Seq::new(v.len(), |i: int| (v[i].0@, v[i].1))
}

/// The columns of the hits.
pub fn hits_column_schema() -> (v: Vec<(&'static str, ColumnType)>)
    ensures
        typed_strs(v@) == hits_schema(),
{
    let v: Vec<(&'static str, ColumnType)> = vec![
        ("WatchID", ColumnType::Int64),
        ("JavaEnable", ColumnType::Int16),
        ("Title", ColumnType::Utf8),
        ("GoodEvent", ColumnType::Int16),
        ("EventTime", ColumnType::Timestamp),
        ("EventDate", ColumnType::Date),
        ("CounterID", ColumnType::Int32),
        ("ClientIP", ColumnType::Int32),
        ("RegionID", ColumnType::Int32),
        ("UserID", ColumnType::Int64),
        ("AdvEngineID", ColumnType::Int16),
        ("ResolutionWidth", ColumnType::Int16),
        ("SearchPhrase", ColumnType::Utf8),
        ("URL", ColumnType::Utf8),
        ("Referer", ColumnType::Utf8),
        ("MobilePhoneModel", ColumnType::Utf8),
        ("MobilePhone", ColumnType::Int16),
        ("SearchEngineID", ColumnType::Int16),
        ("IsRefresh", ColumnType::Int16),
        ("TraficSourceID", ColumnType::Int16),
        ("DontCountHits", ColumnType::Int16),
        ("IsLink", ColumnType::Int16),
        ("IsDownload", ColumnType::Int16),
        ("URLHash", ColumnType::Int64),
        ("RefererHash", ColumnType::Int64),
        ("WindowClientWidth", ColumnType::Int16),
        ("WindowClientHeight", ColumnType::Int16),
    ];
    assert(typed_strs(v@) =~= hits_schema());
    v
}

/// A number that tells the names of the columns of the hits apart.
spec fn mark(name: Seq<char>) -> int {
    name.len() * 1000000 + name[0] as int * 1000 + name[name.len() - 3] as int
}

/// The place of the column with such a number.
spec fn marked(k: int) -> int {
    if k == 7087104 {
        0
    } else if k == 10074098 {
        1
    } else if k == 5084116 {
        2
    } else if k == 9071101 {
        3
    } else if k == 9069105 {
        4
    } else if k == 9069097 {
        5
    } else if k == 9067114 {
        6
    } else if k == 8067116 {
        7
    } else if k == 8082110 {
        8
    } else if k == 6085114 {
        9
    } else if k == 11065101 {
        10
    } else if k == 15082100 {
        11
    } else if k == 12083097 {
        12
    } else if k == 3085085 {
        13
    } else if k == 7082114 {
        14
    } else if k == 16077100 {
        15
    } else if k == 11077111 {
        16
    } else if k == 14083101 {
        17
    } else if k == 9073101 {
        18
    } else if k == 14084101 {
        19
    } else if k == 13068105 {
        20
    } else if k == 6073105 {
        21
    } else if k == 10073111 {
        22
    } else if k == 7085097 {
        23
    } else if k == 11082097 {
        24
    } else if k == 17087100 {
        25
    } else if k == 18087103 {
        26
    } else {
        -1
    }
}

/// No two columns of the hits have one name.
pub proof fn law_hits_names_differ(i: int, j: int)
    requires
        0 <= i < j < hits_schema().len(),
    ensures
        hits_schema()[i].0 != hits_schema()[j].0,
{
    let s = hits_schema();
    reveal_strlit("WatchID");
    reveal_strlit("JavaEnable");
    reveal_strlit("Title");
    reveal_strlit("GoodEvent");
    reveal_strlit("EventTime");
    reveal_strlit("EventDate");
    reveal_strlit("CounterID");
    reveal_strlit("ClientIP");
    reveal_strlit("RegionID");
    reveal_strlit("UserID");
    reveal_strlit("AdvEngineID");
    reveal_strlit("ResolutionWidth");
    reveal_strlit("SearchPhrase");
    reveal_strlit("URL");
    reveal_strlit("Referer");
    reveal_strlit("MobilePhoneModel");
    reveal_strlit("MobilePhone");
    reveal_strlit("SearchEngineID");
    reveal_strlit("IsRefresh");
    reveal_strlit("TraficSourceID");
    reveal_strlit("DontCountHits");
    reveal_strlit("IsLink");
    reveal_strlit("IsDownload");
    reveal_strlit("URLHash");
    reveal_strlit("RefererHash");
    reveal_strlit("WindowClientWidth");
    reveal_strlit("WindowClientHeight");
    assert(mark(s[0].0) == 7087104);
    assert(mark(s[1].0) == 10074098);
    assert(mark(s[2].0) == 5084116);
    assert(mark(s[3].0) == 9071101);
    assert(mark(s[4].0) == 9069105);
    assert(mark(s[5].0) == 9069097);
    assert(mark(s[6].0) == 9067114);
    assert(mark(s[7].0) == 8067116);
    assert(mark(s[8].0) == 8082110);
    assert(mark(s[9].0) == 6085114);
    assert(mark(s[10].0) == 11065101);
    assert(mark(s[11].0) == 15082100);
    assert(mark(s[12].0) == 12083097);
    assert(mark(s[13].0) == 3085085);
    assert(mark(s[14].0) == 7082114);
    assert(mark(s[15].0) == 16077100);
    assert(mark(s[16].0) == 11077111);
    assert(mark(s[17].0) == 14083101);
    assert(mark(s[18].0) == 9073101);
    assert(mark(s[19].0) == 14084101);
    assert(mark(s[20].0) == 13068105);
    assert(mark(s[21].0) == 6073105);
    assert(mark(s[22].0) == 10073111);
    assert(mark(s[23].0) == 7085097);
    assert(mark(s[24].0) == 11082097);
    assert(mark(s[25].0) == 17087100);
    assert(mark(s[26].0) == 18087103);
    assert(marked(mark(s[i].0)) == i);
    assert(marked(mark(s[j].0)) == j);
}

/// The type of the last field with a name.
pub open spec fn field_type(fields: Seq<(String, FieldType)>, name: Seq<char>) -> Option<FieldType>
    decreases fields.len(),
{
    if fields.len() == 0 {
        None
    } else if fields.last().0@ == name {
        Some(fields.last().1)
    } else {
        field_type(fields.drop_last(), name)
    }
}

/// The type of the last field with a name.
pub fn find_field(fields: &Vec<(String, FieldType)>, name: &str) -> (r: Option<FieldType>)
    ensures
        r == field_type(fields@, name@),
{
    let mut i: usize = fields.len();
    assert(fields@.take(i as int) =~= fields@);
    while i > 0
        invariant
            i <= fields@.len(),
            field_type(fields@, name@) == field_type(fields@.take(i as int), name@),
        decreases i,
    {
        proof {
            assert(fields@.take(i as int).last() == fields@[i - 1]);
            assert(fields@.take(i as int).drop_last() =~= fields@.take(i - 1));
        }
        if str_eq(fields[i - 1].0.as_str(), name) {
            return Some(fields[i - 1].1);
        }
        i = i - 1;
    }
    None
}

/// Those of the first `k` columns of the hits that a file has, with the types that they
/// are to have.
pub open spec fn present_hits(fields: Seq<(String, FieldType)>, k: int) -> Seq<
    (Seq<char>, ColumnType),
>
    decreases k,
{
    if k <= 0 {
        Seq::empty()
    } else {
        let front = present_hits(fields, k - 1);
        let (name, ty) = hits_schema()[k - 1];
        match field_type(fields, name) {
            Some(dt) => if logical_type(name, dt) == Some(ty) {
                front.push((name, ty))
            } else {
                front
            },
            None => front,
        }
    }
}

/// The columns of the hits that a file has.
pub fn clickbench_parquet_schema(fields: &Vec<(String, FieldType)>) -> (r: Result<
    Vec<(String, ColumnType)>,
    Error,
>)
    ensures
        match r {
            Ok(v) => typed_names(v@) == present_hits(fields@, hits_schema().len() as int)
                && v@.len() > 0 && names_differ(v@),
            Err(e) => present_hits(fields@, hits_schema().len() as int).len() == 0 && e@
                == "parquet file has none of the ClickBench hits columns coldrun needs"@,
        },
{
    let schema = hits_column_schema();
    let mut cols: Vec<(String, ColumnType)> = Vec::new();
    let mut i: usize = 0;
    assert(typed_strs(schema@).len() == schema@.len());
    assert(typed_names(cols@) =~= present_hits(fields@, 0));
    while i < schema.len()
        invariant
            i <= schema@.len() == hits_schema().len(),
            typed_strs(schema@) == hits_schema(),
            typed_names(cols@) == present_hits(fields@, i as int),
            names_differ(cols@),
            forall|k: int|
                0 <= k < cols@.len() ==> exists|p: int|
                    0 <= p < i && (#[trigger] hits_schema()[p]).0 == (#[trigger] cols@[k]).0@,
        decreases schema@.len() - i,
    {
        let (name, want) = schema[i];
        assert(typed_strs(schema@)[i as int] == (name@, want));
        let ghost sofar = cols@;
        if let Some(dt) = find_field(fields, name) {
            if let Some(ty) = logical_column_type(name, dt) {
                if ty == want {
                    cols.push((String::from_str(name), ty));
                    proof {
                        assert(typed_names(cols@) =~= typed_names(sofar).push((name@, ty)));
                        assert forall|k: int| 0 <= k < sofar.len() implies (
                        #[trigger] sofar[k]).0@ != name@ by {
                            let p = choose|p: int|
                                0 <= p < i && (#[trigger] hits_schema()[p]).0 == sofar[k].0@;
                            law_hits_names_differ(p, i as int);
                        }
                        assert forall|k: int| 0 <= k < cols@.len() implies exists|p: int|
                            0 <= p < i + 1 && (#[trigger] hits_schema()[p]).0 == (
                            #[trigger] cols@[k]).0@ by {
                            if k < sofar.len() {
                                assert(cols@[k] == sofar[k]);
                                let p = choose|p: int|
                                    0 <= p < i && (#[trigger] hits_schema()[p]).0 == sofar[k].0@;
                                assert(hits_schema()[p].0 == cols@[k].0@);
                            } else {
                                assert(hits_schema()[i as int].0 == cols@[k].0@);
                            }
                        }
                    }
                }
            }
        }
        i = i + 1;
    }
    assert(typed_names(cols@).len() == cols@.len());
    if cols.len() == 0 {
        return Err(
            Error::msg("parquet file has none of the ClickBench hits columns coldrun needs"),
        );
    }
    Ok(cols)
}

/// Whether a later field has the name of a field.
pub open spec fn shadowed(fields: Seq<(String, FieldType)>, i: int) -> bool {
    exists|j: int| i < j < fields.len() && (#[trigger] fields[j]).0@ == fields[i].0@
}

/// The columns of the first `k` fields of a file that have a column type. Of fields with
/// one name the last counts.
pub open spec fn all_columns(fields: Seq<(String, FieldType)>, k: int) -> Seq<
    (Seq<char>, ColumnType),
>
    decreases k,
{
    if k <= 0 {
        Seq::empty()
    } else {
        let front = all_columns(fields, k - 1);
        let (name, dt) = fields[k - 1];
        match logical_type(name@, dt) {
            Some(ty) => if shadowed(fields, k - 1) {
                front
            } else {
                front.push((name@, ty))
            },
            None => front,
        }
    }
}

fn is_shadowed(fields: &Vec<(String, FieldType)>, i: usize) -> (r: bool)
    requires
        i < fields@.len(),
    ensures
        r == shadowed(fields@, i as int),
{
    let total: usize = fields.len();
    let mut j: usize = i + 1;
    while j < total
        invariant
            i < j <= fields@.len(),
            total == fields@.len(),
            forall|k: int| i < k < j ==> (#[trigger] fields@[k]).0@ != fields@[i as int].0@,
        decreases fields@.len() - j,
    {
        if str_eq(fields[j].0.as_str(), fields[i].0.as_str()) {
            assert(fields@[j as int].0@ == fields@[i as int].0@);
            return true;
        }
        j = j + 1;
    }
    false
}

/// The columns of all fields of a file that have a column type.
pub fn schema_from_parquet(fields: &Vec<(String, FieldType)>) -> (r: Result<
    Vec<(String, ColumnType)>,
    Error,
>)
    ensures
        match r {
            Ok(v) => typed_names(v@) == all_columns(fields@, fields@.len() as int) && v@.len() > 0
                && names_differ(v@),
            Err(e) => all_columns(fields@, fields@.len() as int).len() == 0 && e@
                == "no supported columns in parquet file"@,
        },
{
    let mut cols: Vec<(String, ColumnType)> = Vec::new();
    let mut i: usize = 0;
    assert(typed_names(cols@) =~= all_columns(fields@, 0));
    while i < fields.len()
        invariant
            i <= fields@.len(),
            typed_names(cols@) == all_columns(fields@, i as int),
            names_differ(cols@),
            forall|k: int|
                0 <= k < cols@.len() ==> exists|p: int|
                    0 <= p < i && (#[trigger] fields@[p]).0@ == (#[trigger] cols@[k]).0@
                        && !shadowed(fields@, p),
        decreases fields@.len() - i,
    {
        let ghost sofar = cols@;
        let name = fields[i].0.as_str();
        if let Some(ty) = logical_column_type(name, fields[i].1) {
            if !is_shadowed(fields, i) {
                cols.push((String::from_str(name), ty));
                proof {
                    assert(typed_names(cols@) =~= typed_names(sofar).push((name@, ty)));
                    assert forall|k: int| 0 <= k < sofar.len() implies (
                    #[trigger] sofar[k]).0@ != name@ by {
                        let p = choose|p: int|
                            0 <= p < i && (#[trigger] fields@[p]).0@ == sofar[k].0@ && !shadowed(
                                fields@,
                                p,
                            );
                        assert(fields@[i as int].0@ == name@);
                    }
                    assert forall|k: int| 0 <= k < cols@.len() implies exists|p: int|
                        0 <= p < i + 1 && (#[trigger] fields@[p]).0@ == (#[trigger] cols@[k]).0@
                            && !shadowed(fields@, p) by {
                        if k < sofar.len() {
                            assert(cols@[k] == sofar[k]);
                            let p = choose|p: int|
                                0 <= p < i && (#[trigger] fields@[p]).0@ == sofar[k].0@
                                    && !shadowed(fields@, p);
                            assert(fields@[p].0@ == cols@[k].0@);
                        } else {
                            assert(fields@[i as int].0@ == cols@[k].0@);
                        }
                    }
                }
            }
        }
        i = i + 1;
    }
    assert(typed_names(cols@).len() == cols@.len());
    if cols.len() == 0 {
        return Err(Error::msg("no supported columns in parquet file"));
    }
    Ok(cols)
}

/// The values of an array; a missing value is a null.
pub enum Values {
    Int64(Vec<Option<i64>>),
    Int32(Vec<Option<i32>>),
    UInt32(Vec<Option<u32>>),
    Int16(Vec<Option<i16>>),
    UInt16(Vec<Option<u16>>),
    UInt8(Vec<Option<u8>>),
    /// Signed bytes, which have a column type and no reader.
    Int8,
    Date32(Vec<Option<i32>>),
    /// Times in microseconds.
    Micros(Vec<Option<i64>>),
    Text(Vec<Option<String>>),
    /// Values of any other type.
    Other,
}

/// The values of an array and the name of their type.
pub struct ArrayValues {
    pub kind: String,
    pub values: Values,
}

impl ArrayValues {
    /// Whether the length of every text fits its prefix.
    pub open spec fn fits(&self) -> bool {
        match self.values {
            Values::Text(v) => forall|i: int|
                0 <= i < v@.len() ==> encode_utf8(text_or_empty(#[trigger] v@[i])).len()
                    <= u32::MAX,
            _ => true,
        }
    }
}

/// Values with something in the place of the nulls.
pub open spec fn filled<T, U>(v: Seq<Option<T>>, null: U, f: spec_fn(T) -> U) -> Seq<U> {
    Seq::new(
        v.len(),
        |i: int|
            match v[i] {
                Some(x) => f(x),
                None => null,
            },
    )
}

/// An event time in microseconds: a number that can be seconds is.
pub open spec fn micros(v: i64) -> i64 {
    if -10_000_000_000_000 < v < 10_000_000_000_000 {
        clamped(v * 1_000_000)
    } else {
        v
    }
}

/// An event time in microseconds: a number that can be seconds is.
pub fn event_time_to_micros(v: i64) -> (m: i64)
    ensures
        m == micros(v),
{
    if -10_000_000_000_000 < v && v < 10_000_000_000_000 {
        let w: i128 = v as i128 * 1_000_000;
        if w > i64::MAX as i128 {
            i64::MAX
        } else if w < i64::MIN as i128 {
            i64::MIN
        } else {
            w as i64
        }
    } else {
        v
    }
}

/// The texts of an array; a null is the empty text.
pub open spec fn filled_texts(v: Seq<Option<String>>) -> Seq<Seq<char>> {
    Seq::new(v.len(), |i: int| text_or_empty(v[i]))
}

/// The values of an array as values of a column of a type, or why they are none.
pub open spec fn as_column(a: ArrayValues, ty: ColumnType) -> Result<ColumnView, Seq<char>> {
    match ty {
        ColumnType::Int64 => match a.values {
            Values::Int64(v) => Ok(ColumnView::Int64(filled(v@, 0i64, |x: i64| x))),
            _ => Err("unsupported int64 type: "@ + a.kind@),
        },
        ColumnType::Int32 => match a.values {
            Values::Int32(v) => Ok(ColumnView::Int32(filled(v@, 0i32, |x: i32| x))),
            Values::UInt32(v) => Ok(ColumnView::Int32(filled(v@, 0i32, |x: u32| x as i32))),
            _ => Err("unsupported int32 type: "@ + a.kind@),
        },
        ColumnType::Int16 => match a.values {
            Values::Int16(v) => Ok(ColumnView::Int16(filled(v@, 0i16, |x: i16| x))),
            Values::UInt16(v) => Ok(ColumnView::Int16(filled(v@, 0i16, |x: u16| x as i16))),
            Values::UInt8(v) => Ok(ColumnView::Int16(filled(v@, 0i16, |x: u8| x as i16))),
            Values::Int8 => Err("array downcast failed"@),
            _ => Err("unsupported int16 type: "@ + a.kind@),
        },
        ColumnType::Date => match a.values {
            Values::Date32(v) => Ok(ColumnView::Date(filled(v@, 0i32, |x: i32| x))),
            Values::UInt16(v) => Ok(ColumnView::Date(filled(v@, 0i32, |x: u16| x as i32))),
            Values::Int32(v) => Ok(ColumnView::Date(filled(v@, 0i32, |x: i32| x))),
            _ => Err("unsupported date type: "@ + a.kind@),
        },
        ColumnType::Timestamp => match a.values {
            Values::Micros(v) => Ok(ColumnView::Timestamp(filled(v@, 0i64, |x: i64| x))),
            Values::Int64(v) => Ok(ColumnView::Timestamp(filled(v@, 0i64, |x: i64| micros(x)))),
            _ => Err("unsupported timestamp type: "@ + a.kind@),
        },
        ColumnType::Utf8 => match a.values {
            Values::Text(v) => Ok(ColumnView::Utf8(filled_texts(v@))),
            _ => Err("unsupported string type: "@ + a.kind@),
        },
    }
}

/// Values with something in the place of the nulls.
fn fill<T: Copy, U: Copy, F: Fn(T) -> U>(
    v: &Vec<Option<T>>,
    null: U,
    f: F,
    Ghost(g): Ghost<spec_fn(T) -> U>,
) -> (out: Vec<U>)
    requires
        forall|x: T| #[trigger] f.requires((x,)),
        forall|x: T, y: U| f.ensures((x,), y) ==> y == g(x),
    ensures
        out@ == filled(v@, null, g),
{
    let mut out: Vec<U> = Vec::with_capacity(v.len());
    let mut i: usize = 0;
    while i < v.len()
        invariant
            i <= v@.len(),
            forall|x: T| #[trigger] f.requires((x,)),
            forall|x: T, y: U| f.ensures((x,), y) ==> y == g(x),
            out@.len() == i,
            forall|k: int| 0 <= k < i ==> #[trigger] out@[k] == filled(v@, null, g)[k],
        decreases v@.len() - i,
    {
        let next: U = match v[i] {
            Some(x) => f(x),
            None => null,
        };
        out.push(next);
        i = i + 1;
    }
    assert(out@ =~= filled(v@, null, g));
    out
}

/// The message that values of a type cannot become values of a column.
fn unsupported(what: &str, kind: &str) -> (e: Error)
    ensures
        e@ == what@ + kind@,
{
    let m = join3(what, kind, "");
    proof {
        reveal_strlit("");
        assert(m@ =~= what@ + kind@);
    }
    Error::Msg(m)
}

/// The values of an array as a column of a type.
pub fn column_from_array(array: &ArrayValues, ty: ColumnType) -> (r: Result<ColumnData, Error>)
    requires
        array.fits(),
    ensures
        match r {
            Ok(c) => c.wf() && c.growable() && yields(as_column(*array, ty), c@),
            Err(e) => fails(as_column(*array, ty), e@),
        },
{
    let kind = array.kind.as_str();
    match ty {
        ColumnType::Int64 => match &array.values {
            Values::Int64(v) => {
                let same = |x: i64| -> (y: i64)
                    ensures
                        y == x,
                    { x };
                Ok(
                    ColumnData::Int64(
                        PodStorage::from_vec(fill(v, 0i64, same, Ghost(|x: i64| x))),
                    ),
                )
            },
            _ => Err(unsupported("unsupported int64 type: ", kind)),
        },
        ColumnType::Int32 => match &array.values {
            Values::Int32(v) => {
                let same = |x: i32| -> (y: i32)
                    ensures
                        y == x,
                    { x };
                Ok(
                    ColumnData::Int32(
                        PodStorage::from_vec(fill(v, 0i32, same, Ghost(|x: i32| x))),
                    ),
                )
            },
            Values::UInt32(v) => {
                let cut = |x: u32| -> (y: i32)
                    ensures
                        y == x as i32,
                    { x as i32 };
                Ok(
                    ColumnData::Int32(
                        PodStorage::from_vec(fill(v, 0i32, cut, Ghost(|x: u32| x as i32))),
                    ),
                )
            },
            _ => Err(unsupported("unsupported int32 type: ", kind)),
        },
        ColumnType::Int16 => match &array.values {
            Values::Int16(v) => {
                let same = |x: i16| -> (y: i16)
                    ensures
                        y == x,
                    { x };
                Ok(
                    ColumnData::Int16(
                        PodStorage::from_vec(fill(v, 0i16, same, Ghost(|x: i16| x))),
                    ),
                )
            },
            Values::UInt16(v) => {
                let cut = |x: u16| -> (y: i16)
                    ensures
                        y == x as i16,
                    { x as i16 };
                Ok(
                    ColumnData::Int16(
                        PodStorage::from_vec(fill(v, 0i16, cut, Ghost(|x: u16| x as i16))),
                    ),
                )
            },
            Values::UInt8(v) => {
                let widen = |x: u8| -> (y: i16)
                    ensures
                        y == x as i16,
                    { x as i16 };
                Ok(
                    ColumnData::Int16(
                        PodStorage::from_vec(fill(v, 0i16, widen, Ghost(|x: u8| x as i16))),
                    ),
                )
            },
            Values::Int8 => Err(Error::msg("array downcast failed")),
            _ => Err(unsupported("unsupported int16 type: ", kind)),
        },
        ColumnType::Date => match &array.values {
            Values::Date32(v) => {
                let same = |x: i32| -> (y: i32)
                    ensures
                        y == x,
                    { x };
                Ok(
                    ColumnData::Date(
                        PodStorage::from_vec(fill(v, 0i32, same, Ghost(|x: i32| x))),
                    ),
                )
            },
            Values::UInt16(v) => {
                let widen = |x: u16| -> (y: i32)
                    ensures
                        y == x as i32,
                    { x as i32 };
                Ok(
                    ColumnData::Date(
                        PodStorage::from_vec(fill(v, 0i32, widen, Ghost(|x: u16| x as i32))),
                    ),
                )
            },
            Values::Int32(v) => {
                let same = |x: i32| -> (y: i32)
                    ensures
                        y == x,
                    { x };
                Ok(
                    ColumnData::Date(
                        PodStorage::from_vec(fill(v, 0i32, same, Ghost(|x: i32| x))),
                    ),
                )
            },
            _ => Err(unsupported("unsupported date type: ", kind)),
        },
        ColumnType::Timestamp => match &array.values {
            Values::Micros(v) => {
                let same = |x: i64| -> (y: i64)
                    ensures
                        y == x,
                    { x };
                Ok(
                    ColumnData::Timestamp(
                        PodStorage::from_vec(fill(v, 0i64, same, Ghost(|x: i64| x))),
                    ),
                )
            },
            Values::Int64(v) => {
                let scale = |x: i64| -> (y: i64)
                    ensures
                        y == micros(x),
                    { event_time_to_micros(x) };
                Ok(
                    ColumnData::Timestamp(
                        PodStorage::from_vec(fill(v, 0i64, scale, Ghost(|x: i64| micros(x)))),
                    ),
                )
            },
            _ => Err(unsupported("unsupported timestamp type: ", kind)),
        },
        ColumnType::Utf8 => match &array.values {
            Values::Text(v) => {
                let mut c = Utf8Column::new();
                c.append_string_array(v);
                assert(c@ =~= filled_texts(v@));
                Ok(ColumnData::Utf8(c))
            },
            _ => Err(unsupported("unsupported string type: ", kind)),
        },
    }
}

/// Appends the values of an array to a column. A column that cannot grow takes only an
/// array without values.
pub fn append_array(col: &mut ColumnData, array: &ArrayValues, ty: ColumnType) -> (r: Result<(), Error>)
    requires
        old(col).wf(),
        array.fits(),
    ensures
        final(col).wf(),
        final(col).growable() == old(col).growable(),
        r is Err ==> *final(col) == *old(col),
        if old(col)@.column_type() != ty {
            fails(outcome(r), "column type mismatch during load"@)
        } else {
            match as_column(*array, ty) {
                Ok(v) => if v.len() == 0 {
                    yields(outcome(r), ()) && *final(col) == *old(col)
                } else if !old(col).growable() {
                    fails(outcome(r), "cannot push into shared column buffer"@)
                } else {
                    yields(outcome(r), ()) && final(col)@ == old(col)@.followed_by(v)
                },
                Err(m) => fails(outcome(r), m),
            }
        },
{
    if col.column_type() != ty {
        return Err(Error::msg("column type mismatch during load"));
    }
    match column_from_array(array, ty) {
        Err(e) => Err(e),
        Ok(chunk) => {
            if chunk.len() == 0 {
                return Ok(());
            }
            match col.extend_from(&chunk) {
                Ok(()) => Ok(()),
                Err(_) => Err(Error::msg("cannot push into shared column buffer")),
            }
        },
    }
}

/// Names and types of declared columns.
pub open spec fn declared_types(v: Seq<ColumnMeta>) -> Seq<(Seq<char>, ColumnType)> {
    Seq::new(v.len(), |i: int| (v[i].name@, v[i].ty))
}

/// Whether columns are in memory, with their types, and can take more values.
pub open spec fn ready(t: Table, schema: Seq<(String, ColumnType)>) -> bool {
    forall|i: int|
        0 <= i < schema.len() ==> {
            &&& t.has((#[trigger] schema[i]).0@)
            &&& t.memory()[schema[i].0@].growable()
            &&& t.memory()[schema[i].0@]@.column_type() == schema[i].1
        }
}

proof fn lemma_declared(columns: Seq<ColumnMeta>, i: int)
    requires
        0 <= i < columns.len(),
    ensures
        declared_type(columns, columns[i].name@) is Some,
    decreases columns.len(),
{
    if columns[0].name@ != columns[i].name@ {
        assert(columns.skip(1)[i - 1] == columns[i]);
        lemma_declared(columns.skip(1), i - 1);
    }
}

/// The columns of the hits, to be prepared.
pub fn hits_columns() -> (v: Vec<(String, ColumnType)>)
    ensures
        typed_names(v@) == hits_schema(),
        names_differ(v@),
{
    let schema = hits_column_schema();
    let mut v: Vec<(String, ColumnType)> = Vec::new();
    let mut i: usize = 0;
    assert(typed_strs(schema@).len() == schema@.len());
    while i < schema.len()
        invariant
            i <= schema@.len(),
            v@.len() == i,
            forall|k: int|
                0 <= k < i ==> (#[trigger] v@[k]).0@ == schema@[k].0@ && v@[k].1 == schema@[k].1,
        decreases schema@.len() - i,
    {
        let (name, ty) = schema[i];
        v.push((String::from_str(name), ty));
        i = i + 1;
    }
    proof {
        assert(typed_names(v@) =~= typed_strs(schema@));
        assert forall|i: int, j: int| 0 <= i < j < v@.len() implies (#[trigger] v@[i]).0@ != (
        #[trigger] v@[j]).0@ by {
            law_hits_names_differ(i, j);
            assert(typed_names(v@)[i].0 == v@[i].0@);
            assert(typed_names(v@)[j].0 == v@[j].0@);
        }
    }
    v
}

/// A table without rows whose columns are in memory.
pub fn prepare_table(name: &str, schema: &Vec<(String, ColumnType)>) -> (t: Table)
    requires
        names_differ(schema@),
    ensures
        t.wf(),
        t.info().name@ == name@,
        t.info().row_count == 0,
        !t.info().demo_near_unique,
        declared_types(t.declared()) == typed_names(schema@),
        t.index() is None,
        ready(t, schema@),
        forall|n: Seq<char>| #[trigger]
            t.has(n) ==> t.memory()[n]@.len() == 0 && exists|i: int|
                0 <= i < schema@.len() && (#[trigger] schema@[i]).0@ == n,
{
    let mut metas: Vec<ColumnMeta> = Vec::new();
    let mut i: usize = 0;
    while i < schema.len()
        invariant
            i <= schema@.len(),
            metas@.len() == i,
            forall|k: int|
                0 <= k < i ==> (#[trigger] metas@[k]).name@ == schema@[k].0@ && metas@[k].ty
                    == schema@[k].1,
        decreases schema@.len() - i,
    {
        metas.push(ColumnMeta { name: String::from_str(schema[i].0.as_str()), ty: schema[i].1 });
        i = i + 1;
    }
    let ghost declared = metas@;
    let mut t = Table::create(name, metas);
    assert(declared_types(declared) =~= typed_names(schema@));
    assert forall|n: Seq<char>| !#[trigger] t.has(n) by {
        assert(!t.memory().dom().contains(n));
    }
    let mut j: usize = 0;
    while j < schema.len()
        invariant
            j <= schema@.len(),
            names_differ(schema@),
            declared.len() == schema@.len(),
            forall|k: int|
                0 <= k < declared.len() ==> (#[trigger] declared[k]).name@ == schema@[k].0@,
            t.wf(),
            t.info().name@ == name@,
            t.info().row_count == 0,
            !t.info().demo_near_unique,
            t.declared() == declared,
            t.index() is None,
            ready(t, schema@.take(j as int)),
            forall|n: Seq<char>| #[trigger]
                t.has(n) ==> t.memory()[n]@.len() == 0 && exists|i: int|
                    0 <= i < j && (#[trigger] schema@[i]).0@ == n,
        decreases schema@.len() - j,
    {
        let ghost before = t;
        let column = schema[j].0.as_str();
        proof {
            if t.has(column@) {
                let i = choose|i: int| 0 <= i < j && (#[trigger] schema@[i]).0@ == column@;
                assert(schema@[i].0@ != schema@[j as int].0@);
            }
            assert(declared[j as int].name@ == column@);
            lemma_declared(declared, j as int);
        }
        let fresh = t.ensure_column(column, schema[j].1);
        let ghost put = *fresh;
        proof {
            assert(t.memory() == before.memory().insert(column@, put));
            assert(t.declared() =~= declared) by {
                assert(t.declared().take(declared.len() as int) =~= t.declared());
            }
            assert forall|n: Seq<char>| #[trigger] t.has(n) <==> before.has(n) || n == column@ by {
                assert(t.memory().dom().contains(n) <==> t.has(n));
                assert(before.memory().dom().contains(n) <==> before.has(n));
            }
            assert forall|i: int| 0 <= i < j + 1 implies {
                &&& t.has((#[trigger] schema@.take(j + 1)[i]).0@)
                &&& t.memory()[schema@.take(j + 1)[i].0@].growable()
                &&& t.memory()[schema@.take(j + 1)[i].0@]@.column_type() == schema@.take(j + 1)[i].1
            } by {
                if i < j {
                    assert(schema@.take(j as int)[i] == schema@[i]);
                    assert(schema@[i].0@ != schema@[j as int].0@);
                }
            }
            assert forall|n: Seq<char>| #[trigger] t.has(n) implies t.memory()[n]@.len() == 0
                && exists|i: int| 0 <= i < j + 1 && (#[trigger] schema@[i]).0@ == n by {
                if n == column@ {
                    assert(schema@[j as int].0@ == n);
                } else {
                    let i = choose|i: int| 0 <= i < j && (#[trigger] schema@[i]).0@ == n;
                    assert(0 <= i < j + 1 && schema@[i].0@ == n);
                }
            }
        }
        j = j + 1;
    }
    assert(schema@.take(j as int) =~= schema@);
    t
}

/// The first array of a batch with a name.
pub open spec fn array_of(batch: Seq<(String, ArrayValues)>, name: Seq<char>) -> Option<ArrayValues>
    decreases batch.len(),
{
    if batch.len() == 0 {
        None
    } else if batch[0].0@ == name {
        Some(batch[0].1)
    } else {
        array_of(batch.skip(1), name)
    }
}

fn find_array<'a>(batch: &'a Vec<(String, ArrayValues)>, name: &str) -> (r: Option<&'a ArrayValues>)
    ensures
        match r {
            Some(a) => array_of(batch@, name@) == Some(*a) && exists|i: int|
                0 <= i < batch@.len() && (#[trigger] batch@[i]).1 == *a,
            None => array_of(batch@, name@) is None,
        },
{
    let mut i: usize = 0;
    assert(batch@.skip(0) =~= batch@);
    while i < batch.len()
        invariant
            i <= batch@.len(),
            array_of(batch@, name@) == array_of(batch@.skip(i as int), name@),
        decreases batch@.len() - i,
    {
        proof {
            assert(batch@.skip(i as int)[0] == batch@[i as int]);
            assert(batch@.skip(i as int).skip(1) =~= batch@.skip(i + 1));
        }
        if str_eq(batch[i].0.as_str(), name) {
            assert(batch@[i as int].1 == batch@[i as int].1);
            return Some(&batch[i].1);
        }
        i = i + 1;
    }
    None
}

/// The values of a batch for a column, or why there are none.
pub open spec fn batch_column(
    batch: Seq<(String, ArrayValues)>,
    name: Seq<char>,
    ty: ColumnType,
) -> Result<ColumnView, Seq<char>> {
    match array_of(batch, name) {
        None => Err("parquet batch missing column "@ + name),
        Some(a) => as_column(a, ty),
    }
}

/// The first fault of a batch among the first `k` columns.
pub open spec fn batch_fault(
    batch: Seq<(String, ArrayValues)>,
    schema: Seq<(String, ColumnType)>,
    k: int,
) -> Option<Seq<char>>
    decreases k,
{
    if k <= 0 {
        None
    } else {
        match batch_fault(batch, schema, k - 1) {
            Some(m) => Some(m),
            None => match batch_column(batch, schema[k - 1].0@, schema[k - 1].1) {
                Ok(_) => None,
                Err(m) => Some(m),
            },
        }
    }
}

proof fn lemma_batch_fault(
    batch: Seq<(String, ArrayValues)>,
    schema: Seq<(String, ColumnType)>,
    i: int,
    k: int,
)
    requires
        0 <= i <= k,
    ensures
        batch_fault(batch, schema, i) is Some ==> batch_fault(batch, schema, k) == batch_fault(
            batch,
            schema,
            i,
        ),
        batch_fault(batch, schema, k) is None ==> batch_fault(batch, schema, i) is None,
    decreases k,
{
    if i < k {
        lemma_batch_fault(batch, schema, i, k - 1);
    }
}

/// Whether the texts of a batch fit.
pub open spec fn batch_fits(batch: Seq<(String, ArrayValues)>) -> bool {
    forall|i: int| 0 <= i < batch.len() ==> (#[trigger] batch[i]).1.fits()
}

/// The columns of a batch.
fn batch_chunks(batch: &Vec<(String, ArrayValues)>, schema: &Vec<(String, ColumnType)>) -> (r: Result<
    Vec<ColumnData>,
    Error,
>)
    requires
        batch_fits(batch@),
    ensures
        match r {
            Ok(v) => {
                &&& batch_fault(batch@, schema@, schema@.len() as int) is None
                &&& v@.len() == schema@.len()
                &&& forall|i: int|
                    0 <= i < v@.len() ==> (#[trigger] v@[i]).wf() && yields(
                        batch_column(batch@, schema@[i].0@, schema@[i].1),
                        v@[i]@,
                    )
            },
            Err(e) => batch_fault(batch@, schema@, schema@.len() as int) == Some(e@),
        },
{
    let mut v: Vec<ColumnData> = Vec::new();
    let mut i: usize = 0;
    while i < schema.len()
        invariant
            i <= schema@.len(),
            batch_fits(batch@),
            batch_fault(batch@, schema@, i as int) is None,
            v@.len() == i,
            forall|k: int|
                0 <= k < i ==> (#[trigger] v@[k]).wf() && yields(
                    batch_column(batch@, schema@[k].0@, schema@[k].1),
                    v@[k]@,
                ),
        decreases schema@.len() - i,
    {
        let name = schema[i].0.as_str();
        proof {
            lemma_batch_fault(batch@, schema@, i + 1, schema@.len() as int);
        }
        let array = match find_array(batch, name) {
            Some(a) => a,
            None => {
                return Err(unsupported("parquet batch missing column ", name));
            },
        };
        match column_from_array(array, schema[i].1) {
            Ok(c) => {
                v.push(c);
            },
            Err(e) => {
                return Err(e);
            },
        }
        i = i + 1;
    }
    Ok(v)
}

/// Appends a batch to the columns of a table. A batch that lacks a column, or has values
/// of another type, leaves the table as it is.
pub fn append_batch(
    table: &mut Table,
    schema: &Vec<(String, ColumnType)>,
    batch: &Vec<(String, ArrayValues)>,
) -> (r: Result<(), Error>)
    requires
        old(table).wf(),
        names_differ(schema@),
        ready(*old(table), schema@),
        batch_fits(batch@),
    ensures
        final(table).wf(),
        ready(*final(table), schema@),
        final(table).info() == old(table).info(),
        final(table).index() == old(table).index(),
        final(table).memory().dom() =~= old(table).memory().dom(),
        match batch_fault(batch@, schema@, schema@.len() as int) {
            Some(m) => fails(outcome(r), m) && *final(table) == *old(table),
            None => {
                &&& yields(outcome(r), ())
                &&& forall|i: int|
                    0 <= i < schema@.len() ==> final(table).memory()[(
                    #[trigger] schema@[i]).0@]@ == old(
                        table,
                    ).memory()[schema@[i].0@]@.followed_by(
                        batch_column(batch@, schema@[i].0@, schema@[i].1)->Ok_0,
                    )
                &&& forall|n: Seq<char>|
                    (forall|i: int| 0 <= i < schema@.len() ==> (#[trigger] schema@[i]).0@ != n)
                        ==> #[trigger] final(table).memory()[n] == old(table).memory()[n]
            },
        },
{
    let chunks = match batch_chunks(batch, schema) {
        Ok(v) => v,
        Err(e) => {
            return Err(e);
        },
    };
    let ghost before = *table;
    let mut i: usize = 0;
    while i < schema.len()
        invariant
            i <= schema@.len() == chunks@.len(),
            before == *old(table),
            table.wf(),
            names_differ(schema@),
            ready(before, schema@),
            ready(*table, schema@),
            table.info() == before.info(),
            table.index() == before.index(),
            table.memory().dom() =~= before.memory().dom(),
            forall|k: int|
                0 <= k < chunks@.len() ==> (#[trigger] chunks@[k]).wf() && yields(
                    batch_column(batch@, schema@[k].0@, schema@[k].1),
                    chunks@[k]@,
                ),
            forall|k: int|
                0 <= k < i ==> table.memory()[(#[trigger] schema@[k]).0@]@
                    == before.memory()[schema@[k].0@]@.followed_by(chunks@[k]@),
            forall|k: int|
                i <= k < schema@.len() ==> table.memory()[(#[trigger] schema@[k]).0@]
                    == before.memory()[schema@[k].0@],
            forall|n: Seq<char>|
                (forall|k: int| 0 <= k < schema@.len() ==> (#[trigger] schema@[k]).0@ != n)
                    ==> #[trigger] table.memory()[n] == before.memory()[n],
        decreases schema@.len() - i,
    {
        let ghost sofar = *table;
        let name = schema[i].0.as_str();
        assert(sofar.has(schema@[i as int].0@));
        assert(chunks@[i as int].wf());
        proof {
            lemma_as_column_type(batch@, schema@[i as int].0@, schema@[i as int].1);
            sofar.lemma_memory_wf(name@);
        }
        match table.column_mut(name) {
            Ok(c) => match c.extend_from(&chunks[i]) {
                Ok(_) => {},
                Err(e) => {
                    return Err(e);
                },
            },
            Err(e) => {
                return Err(e);
            },
        }
        proof {
            let put = table.memory()[name@];
            assert(table.memory() == sofar.memory().insert(name@, put));
            assert forall|n: Seq<char>| #[trigger] table.has(n) <==> sofar.has(n) by {
                assert(table.memory().dom().contains(n) <==> table.has(n));
                assert(sofar.memory().dom().contains(n) <==> sofar.has(n));
            }
            assert forall|k: int| 0 <= k < schema@.len() && k != i implies (
            #[trigger] schema@[k]).0@ != name@ by {
                if k < i {
                    assert(schema@[k].0@ != schema@[i as int].0@);
                } else {
                    assert(schema@[i as int].0@ != schema@[k].0@);
                }
            }
        }
        i = i + 1;
    }
    Ok(())
}

/// The values of a batch for a column have the type of the column.
proof fn lemma_as_column_type(batch: Seq<(String, ArrayValues)>, name: Seq<char>, ty: ColumnType)
    ensures
        batch_column(batch, name, ty) matches Ok(v) ==> v.column_type() == ty,
{
}

} // verus!
