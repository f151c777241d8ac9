//! Synthetic hits, for development without data.
use crate::storage::column::{ColumnData, ColumnType, ColumnView};
use crate::storage::load::{
    declared_types, hits_columns, hits_schema, names_differ, prepare_table, typed_names,
};
use crate::storage::pod::PodStorage;
use crate::storage::table::Table;
use crate::storage::utf8_col::Utf8Column;
use crate::text::{decimal, digits, int_text, str_eq};
use vstd::prelude::*;
use vstd::utf8::encode_utf8;

verus! {

/// The user of one of the rows.
pub const TARGET_USER: i64 = 435_090_932_899_640_449;

/// The first day, 2013-07-01, counted from 1970-01-01.
pub const FIRST_DAY: i32 = 15887;

/// The first time, 2013-07-01 00:00:00 UTC, in microseconds.
pub const FIRST_TIME: i64 = 1_372_636_800_000_000;

/// The time from row to row, in microseconds.
pub const ROW_MICROS: i64 = 60_000_000;

/// The address hash of some of the rows.
pub const URL_HASH_TARGET: i64 = 2_868_770_270_353_813_622;

/// The referrer hash of some of the rows.
pub const REFERER_HASH_TARGET: i64 = 3_594_120_000_172_545_465;

/// The most rows whose times are all in range.
pub const MOST_ROWS: u64 = 153_699_990_001;

/// A 64-bit number of a row.
pub open spec fn demo_i64(name: Seq<char>, i: int) -> i64 {
    if name == "UserID"@ && i == 42 {
        TARGET_USER
    } else if name == "URLHash"@ && i % 5000 == 0 {
        URL_HASH_TARGET
    } else if name == "RefererHash"@ && i % 7000 == 0 {
        REFERER_HASH_TARGET
    } else {
        i as i64
    }
}

/// A 32-bit number of a row.
pub open spec fn demo_i32(name: Seq<char>, i: int) -> i32 {
    if name == "CounterID"@ && i % 100 == 0 {
        62
    } else if name == "RegionID"@ {
        (i % 1000) as i32
    } else if name == "ClientIP"@ {
        ((i as i32) * 7) as i32
    } else {
        (i % 500) as i32
    }
}

/// One where a number is divisible by another, and zero otherwise.
pub open spec fn divides(by: int, i: int) -> i16 {
    if i % by == 0 {
        1
    } else {
        0
    }
}

/// A 16-bit number of a row.
pub open spec fn demo_i16(name: Seq<char>, i: int) -> i16 {
    if name == "AdvEngineID"@ {
        (i % 8) as i16
    } else if name == "TraficSourceID"@ {
        if i % 3000 == 0 {
            -1i16
        } else if i % 4000 == 0 {
            6
        } else {
            (i % 20) as i16
        }
    } else if name == "DontCountHits"@ {
        divides(3, i)
    } else if name == "IsRefresh"@ {
        divides(4, i)
    } else if name == "IsLink"@ {
        divides(5, i)
    } else if name == "IsDownload"@ {
        0
    } else if name == "MobilePhone"@ {
        (i % 10) as i16
    } else if name == "SearchEngineID"@ {
        (i % 15) as i16
    } else if name == "ResolutionWidth"@ {
        (i % 100) as i16
    } else if name == "WindowClientWidth"@ {
        (i % 200) as i16
    } else if name == "WindowClientHeight"@ {
        (i % 150) as i16
    } else {
        (i % 7) as i16
    }
}

/// The day of a row.
pub open spec fn demo_day(i: int) -> i32 {
    (FIRST_DAY + i % 31) as i32
}

/// The time of a row.
pub open spec fn demo_time(i: int) -> i64 {
    (FIRST_TIME + i * ROW_MICROS) as i64
}

/// The text of a row.
pub open spec fn demo_text(name: Seq<char>, i: int) -> Seq<char> {
    if name == "MobilePhoneModel"@ && i % 5 == 0 {
        Seq::empty()
    } else if name == "SearchPhrase"@ && i % 3 == 0 {
        Seq::empty()
    } else if name == "URL"@ && i % 10 == 0 {
        "https://www.google.com/search?q="@ + decimal(i)
    } else if name == "URL"@ && i % 17 == 0 {
        "https://example.com/page/"@ + decimal(i)
    } else if name == "Title"@ && i % 7 == 0 {
        "Google Search Results"@
    } else if name == "Referer"@ && i % 11 == 0 {
        "https://www.google.com/referer/"@ + decimal(i)
    } else if name == "Referer"@ && i % 13 == 0 {
        "https://news.ycombinator.com/item?id="@ + decimal(i)
    } else {
        "value-"@ + decimal(i)
    }
}

/// The values of a column.
pub open spec fn demo_values(name: Seq<char>, ty: ColumnType, n: nat) -> ColumnView {
    match ty {
        ColumnType::Int64 => ColumnView::Int64(Seq::new(n, |i: int| demo_i64(name, i))),
        ColumnType::Int32 => ColumnView::Int32(Seq::new(n, |i: int| demo_i32(name, i))),
        ColumnType::Int16 => ColumnView::Int16(Seq::new(n, |i: int| demo_i16(name, i))),
        ColumnType::Date => ColumnView::Date(Seq::new(n, |i: int| demo_day(i))),
        ColumnType::Timestamp => ColumnView::Timestamp(Seq::new(n, |i: int| demo_time(i))),
        ColumnType::Utf8 => ColumnView::Utf8(Seq::new(n, |i: int| demo_text(name, i))),
    }
}

/// A 64-bit number of a row.
pub fn int64_of(name: &str, i: usize) -> (v: i64)
    requires
        i <= MOST_ROWS,
    ensures
        v == demo_i64(name@, i as int),
{
    if str_eq(name, "UserID") && i == 42 {
        TARGET_USER
    } else if str_eq(name, "URLHash") && i % 5000 == 0 {
        URL_HASH_TARGET
    } else if str_eq(name, "RefererHash") && i % 7000 == 0 {
        REFERER_HASH_TARGET
    } else {
        i as i64
    }
}

/// A 32-bit number of a row.
pub fn int32_of(name: &str, i: usize) -> (v: i32)
    ensures
        v == demo_i32(name@, i as int),
{
    if str_eq(name, "CounterID") && i % 100 == 0 {
        62
    } else if str_eq(name, "RegionID") {
        (i % 1000) as i32
    } else if str_eq(name, "ClientIP") {
        let low: i32 = i as i32;
        let wide: i64 = low as i64 * 7;
        wide as i32
    } else {
        (i % 500) as i32
    }
}

/// A 16-bit number of a row.
pub fn int16_of(name: &str, i: usize) -> (v: i16)
    ensures
        v == demo_i16(name@, i as int),
{
    if str_eq(name, "AdvEngineID") {
        (i % 8) as i16
    } else if str_eq(name, "TraficSourceID") {
        if i % 3000 == 0 {
            -1
        } else if i % 4000 == 0 {
            6
        } else {
            (i % 20) as i16
        }
    } else if str_eq(name, "DontCountHits") {
        if i % 3 == 0 {
            1
        } else {
            0
        }
    } else if str_eq(name, "IsRefresh") {
        if i % 4 == 0 {
            1
        } else {
            0
        }
    } else if str_eq(name, "IsLink") {
        if i % 5 == 0 {
            1
        } else {
            0
        }
    } else if str_eq(name, "IsDownload") {
        0
    } else if str_eq(name, "MobilePhone") {
        (i % 10) as i16
    } else if str_eq(name, "SearchEngineID") {
        (i % 15) as i16
    } else if str_eq(name, "ResolutionWidth") {
        (i % 100) as i16
    } else if str_eq(name, "WindowClientWidth") {
        (i % 200) as i16
    } else if str_eq(name, "WindowClientHeight") {
        (i % 150) as i16
    } else {
        (i % 7) as i16
    }
}

/// A text with a number behind it.
fn numbered_text(front: &str, i: usize) -> (s: String)
    ensures
        s@ == front@ + decimal(i as int),
{
    let mut s = String::from_str(front);
    s.append(int_text(i as i128).as_str());
    s
}

/// The text of a row.
pub fn text_of_row(name: &str, i: usize) -> (s: String)
    ensures
        s@ == demo_text(name@, i as int),
{
    if (str_eq(name, "MobilePhoneModel") && i % 5 == 0) || (str_eq(name, "SearchPhrase") && i % 3
        == 0) {
        proof {
            reveal_strlit("");
            assert(""@ =~= Seq::<char>::empty());
        }
        String::from_str("")
    } else if str_eq(name, "URL") && i % 10 == 0 {
        numbered_text("https://www.google.com/search?q=", i)
    } else if str_eq(name, "URL") && i % 17 == 0 {
        numbered_text("https://example.com/page/", i)
    } else if str_eq(name, "Title") && i % 7 == 0 {
        String::from_str("Google Search Results")
    } else if str_eq(name, "Referer") && i % 11 == 0 {
        numbered_text("https://www.google.com/referer/", i)
    } else if str_eq(name, "Referer") && i % 13 == 0 {
        numbered_text("https://news.ycombinator.com/item?id=", i)
    } else {
        numbered_text("value-", i)
    }
}

proof fn lemma_encoded_len(s: Seq<char>)
    ensures
        encode_utf8(s).len() <= 4 * s.len(),
    decreases s.len(),
{
    if s.len() > 0 {
        lemma_encoded_len(s.drop_first());
    }
}

/// Ten to a power.
spec fn ten_to(k: nat) -> nat
    decreases k,
{
    if k == 0 {
        1
    } else {
        10 * ten_to((k - 1) as nat)
    }
}

proof fn lemma_digits_len(n: nat, k: nat)
    requires
        n < ten_to(k),
        k >= 1,
    ensures
        digits(n).len() <= k,
    decreases k,
{
    if n >= 10 {
        if k == 1 {
            reveal_with_fuel(ten_to, 2);
        }
        lemma_digits_len(n / 10, (k - 1) as nat);
    }
}

/// The text of a row fits its length prefix.
proof fn lemma_demo_text_fits(name: Seq<char>, i: int)
    requires
        0 <= i <= usize::MAX,
    ensures
        encode_utf8(demo_text(name, i)).len() <= u32::MAX,
{
    reveal_strlit("https://www.google.com/search?q=");
    reveal_strlit("https://example.com/page/");
    reveal_strlit("Google Search Results");
    reveal_strlit("https://www.google.com/referer/");
    reveal_strlit("https://news.ycombinator.com/item?id=");
    reveal_strlit("value-");
    assert(ten_to(20) > u64::MAX) by {
        reveal_with_fuel(ten_to, 21);
    }
    lemma_digits_len(i as nat, 20);
    lemma_encoded_len(demo_text(name, i));
}

/// The values of a column.
pub fn demo_column(name: &str, ty: ColumnType, n: usize) -> (c: ColumnData)
    requires
        n <= MOST_ROWS,
    ensures
        c.wf(),
        c@ == demo_values(name@, ty, n as nat),
{
    match ty {
        ColumnType::Int64 => {
            let mut v: Vec<i64> = Vec::with_capacity(n);
            let mut i: usize = 0;
            while i < n
                invariant
                    i <= n <= MOST_ROWS,
                    v@.len() == i,
                    forall|k: int| 0 <= k < i ==> #[trigger] v@[k] == demo_i64(name@, k),
                decreases n - i,
            {
                v.push(int64_of(name, i));
                i = i + 1;
            }
            let c = ColumnData::Int64(PodStorage::from_vec(v));
            assert(v@ =~= Seq::new(n as nat, |i: int| demo_i64(name@, i)));
            c
        },
        ColumnType::Int32 => {
            let mut v: Vec<i32> = Vec::with_capacity(n);
            let mut i: usize = 0;
            while i < n
                invariant
                    i <= n,
                    v@.len() == i,
                    forall|k: int| 0 <= k < i ==> #[trigger] v@[k] == demo_i32(name@, k),
                decreases n - i,
            {
                v.push(int32_of(name, i));
                i = i + 1;
            }
            assert(v@ =~= Seq::new(n as nat, |i: int| demo_i32(name@, i)));
            ColumnData::Int32(PodStorage::from_vec(v))
        },
        ColumnType::Int16 => {
            let mut v: Vec<i16> = Vec::with_capacity(n);
            let mut i: usize = 0;
            while i < n
                invariant
                    i <= n,
                    v@.len() == i,
                    forall|k: int| 0 <= k < i ==> #[trigger] v@[k] == demo_i16(name@, k),
                decreases n - i,
            {
                v.push(int16_of(name, i));
                i = i + 1;
            }
            assert(v@ =~= Seq::new(n as nat, |i: int| demo_i16(name@, i)));
            ColumnData::Int16(PodStorage::from_vec(v))
        },
        ColumnType::Date => {
            let mut v: Vec<i32> = Vec::with_capacity(n);
            let mut i: usize = 0;
            while i < n
                invariant
                    i <= n,
                    v@.len() == i,
                    forall|k: int| 0 <= k < i ==> #[trigger] v@[k] == demo_day(k),
                decreases n - i,
            {
                v.push(FIRST_DAY + (i % 31) as i32);
                i = i + 1;
            }
            assert(v@ =~= Seq::new(n as nat, |i: int| demo_day(i)));
            ColumnData::Date(PodStorage::from_vec(v))
        },
        ColumnType::Timestamp => {
            let mut v: Vec<i64> = Vec::with_capacity(n);
            let mut i: usize = 0;
            while i < n
                invariant
                    i <= n <= MOST_ROWS,
                    v@.len() == i,
                    forall|k: int| 0 <= k < i ==> #[trigger] v@[k] == demo_time(k),
                decreases n - i,
            {
                v.push(FIRST_TIME + i as i64 * ROW_MICROS);
                i = i + 1;
            }
            assert(v@ =~= Seq::new(n as nat, |i: int| demo_time(i)));
            ColumnData::Timestamp(PodStorage::from_vec(v))
        },
        ColumnType::Utf8 => {
            let mut c = Utf8Column::new();
            let mut i: usize = 0;
            while i < n
                invariant
                    i <= n,
                    c.wf(),
                    c@.len() == i,
                    forall|k: int| 0 <= k < i ==> #[trigger] c@[k] == demo_text(name@, k),
                decreases n - i,
            {
                let s = text_of_row(name, i);
                proof {
                    lemma_demo_text_fits(name@, i as int);
                }
                c.push_str(s.as_str());
                i = i + 1;
            }
            assert(c@ =~= Seq::new(n as nat, |i: int| demo_text(name@, i)));
            ColumnData::Utf8(c)
        },
    }
}

/// A table of synthetic hits.
pub fn load_demo_hits(rows: usize) -> (t: Table)
    requires
        rows <= MOST_ROWS,
    ensures
        t.wf(),
        t.info().name@ == "hits"@,
        t.info().row_count == rows,
        t.info().demo_near_unique,
        declared_types(t.declared()) == hits_schema(),
        t.index() is None,
        t.memory().dom() =~= Set::new(
            |n: Seq<char>| exists|i: int| 0 <= i < 27 && (#[trigger] hits_schema()[i]).0 == n,
        ),
        forall|i: int|
            0 <= i < 27 ==> t.memory()[(#[trigger] hits_schema()[i]).0]@ == demo_values(
                hits_schema()[i].0,
                hits_schema()[i].1,
                rows as nat,
            ),
{
    let schema = hits_columns();
    let mut t = prepare_table("hits", &schema);
    let ghost first = t;
    assert(typed_names(schema@).len() == schema@.len());
    proof {
        assert forall|i: int| 0 <= i < 27 implies first.has((#[trigger] hits_schema()[i]).0) by {
            assert(typed_names(schema@)[i] == (schema@[i].0@, schema@[i].1));
            assert(first.has(schema@[i].0@));
        }
        assert forall|n: Seq<char>| #[trigger] first.has(n) implies exists|i: int|
            0 <= i < 27 && (#[trigger] hits_schema()[i]).0 == n by {
            let i = choose|i: int| 0 <= i < schema@.len() && (#[trigger] schema@[i]).0@ == n;
            assert(typed_names(schema@)[i].0 == n);
            assert(hits_schema()[i].0 == n);
        }
        assert(first.memory().dom() =~= Set::new(
            |n: Seq<char>| exists|i: int| 0 <= i < 27 && (#[trigger] hits_schema()[i]).0 == n,
        ));
    }
    let mut i: usize = 0;
    while i < schema.len()
        invariant
            i <= schema@.len() == 27,
            rows <= MOST_ROWS,
            typed_names(schema@) == hits_schema(),
            names_differ(schema@),
            t.wf(),
            t.info() == first.info(),
            t.index() == first.index(),
            t.memory().dom() =~= first.memory().dom(),
            forall|k: int| 0 <= k < 27 ==> first.has((#[trigger] hits_schema()[k]).0),
            forall|k: int|
                0 <= k < i ==> t.memory()[(#[trigger] hits_schema()[k]).0]@ == demo_values(
                    hits_schema()[k].0,
                    hits_schema()[k].1,
                    rows as nat,
                ),
        decreases schema@.len() - i,
    {
        let ghost before = t;
        let name = schema[i].0.as_str();
        let col = demo_column(name, schema[i].1, rows);
        let ghost put = col;
        t.put_column(name, col);
        proof {
            assert(typed_names(schema@)[i as int] == (name@, schema@[i as int].1));
            assert(hits_schema()[i as int] == (name@, schema@[i as int].1));
            assert(first.memory().dom().contains(name@));
            assert forall|k: int| 0 <= k < i + 1 implies t.memory()[(
            #[trigger] hits_schema()[k]).0]@ == demo_values(
                hits_schema()[k].0,
                hits_schema()[k].1,
                rows as nat,
            ) by {
                if k < i {
                    crate::storage::load::law_hits_names_differ(k, i as int);
                    assert(t.memory()[hits_schema()[k].0] == before.memory()[hits_schema()[k].0]);
                }
            }
        }
        i = i + 1;
    }
    let ghost filled = t;
    t.set_row_count(rows as u64);
    t.mark_demo();
    proof {
        assert(t.loaded() == filled.loaded());
        assert(t.memory() =~= filled.memory()) by {
            assert forall|n: Seq<char>| #[trigger] t.has(n) == filled.has(n) by {
                if t.has(n) {
                    let k = choose|k: int| t.at(n, k);
                    assert(filled.at(n, k));
                }
                if filled.has(n) {
                    let k = choose|k: int| filled.at(n, k);
                    assert(t.at(n, k));
                }
            }
            assert forall|n: Seq<char>, k: int| #[trigger] t.at(n, k) == filled.at(n, k) by {}
            assert forall|n: Seq<char>| t.has(n) implies #[trigger] t.memory()[n]
                == filled.memory()[n] by {
                let a = choose|k: int| t.at(n, k);
                let b = choose|k: int| filled.at(n, k);
                assert(filled.has(n));
                assert(filled.at(n, b));
                assert(t.at(n, a));
                assert(filled.at(n, a));
                if a < b {
                    assert(filled.loaded()[a].0 != filled.loaded()[b].0);
                } else if b < a {
                    assert(filled.loaded()[b].0 != filled.loaded()[a].0);
                }
            }
        }
    }
    t
}

} // verus!
