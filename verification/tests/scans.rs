use coldrun::error::Error;
use coldrun::exec::agg_heap::{top_counts, top_counts_u128_key};
use coldrun::exec::agg_sort::{
    cmp_u128, copy_and_sort, distinct_count_per_hash_sorted, sorted_topk_i32, sorted_topk_u128,
    sorted_topk_user_minute_phrase, sorted_topk_user_phrase, sorted_triples,
};
use coldrun::exec::agg_topk::StreamingTopK;
use coldrun::exec::group_fused_q23::try_fused_q23_streaming;
use coldrun::exec::grouping::{count_ints, count_texts, group_ints};
use coldrun::exec::ratio::ratio_is_less;
use coldrun::exec::result::{Cell, QueryResult};
use coldrun::exec::scan_fast::{try_execute_scan_fast, try_scan_int_eq};
use coldrun::exec::scan_stream::try_execute_q24_streaming;
use coldrun::exec::simd_scan::for_each_i32_wide;
use coldrun::exec::utf8_arena::Utf8CountArena;
use coldrun::sql::ast::ParsedQuery;
use coldrun::sql::query::parse_query;
use coldrun::storage::column::{ColumnData, ColumnType};
use coldrun::storage::pod::PodStorage;
use coldrun::storage::table::{ColumnFile, ColumnMeta, Table};
use coldrun::storage::utf8_col::Utf8Column;
use coldrun::storage::zones::ZoneIndex;

fn parsed(sql: &str) -> ParsedQuery {
    match parse_query(sql) {
        Ok(p) => p,
        Err(e) => panic!("{}", e.message()),
    }
}

fn texts(v: &[&str]) -> ColumnData {
    let mut c = Utf8Column::new();
    for s in v {
        c.push_str(s);
    }
    ColumnData::Utf8(c)
}

fn table(n: usize) -> Table {
    let declared = [
        ("UserID", ColumnType::Int64),
        ("CounterID", ColumnType::Int32),
        ("EventDate", ColumnType::Date),
        ("EventTime", ColumnType::Timestamp),
        ("SearchPhrase", ColumnType::Utf8),
        ("URL", ColumnType::Utf8),
        ("Title", ColumnType::Utf8),
    ];
    let metas =
        declared.iter().map(|(n, ty)| ColumnMeta { name: n.to_string(), ty: *ty }).collect();
    let mut t = Table::create("hits", metas);
    t.put_column("UserID", ColumnData::Int64(PodStorage::from_vec((0..n).map(|i| (i % 4) as i64).collect())));
    t.put_column("CounterID", ColumnData::Int32(PodStorage::from_vec(vec![62; n])));
    t.put_column("EventDate", ColumnData::Date(PodStorage::from_vec(vec![15887; n])));
    t.put_column(
        "EventTime",
        ColumnData::Timestamp(PodStorage::from_vec((0..n).map(|i| ((i * 7) % n) as i64).collect())),
    );
    let phrases: Vec<&str> = (0..n).map(|i| ["", "cat", "dog", "ant"][i % 4]).collect();
    t.put_column("SearchPhrase", texts(&phrases));
    let urls: Vec<&str> =
        (0..n).map(|i| ["http://google.ru/a", "http://x.org/"][i % 2]).collect();
    t.put_column("URL", texts(&urls));
    let titles: Vec<&str> = (0..n).map(|i| ["On Google", "Else", "About Google"][i % 3]).collect();
    t.put_column("Title", texts(&titles));
    t.set_row_count(n as u64);
    t
}

fn shown(r: Result<Option<QueryResult>, Error>) -> Option<Vec<Vec<String>>> {
    match r {
        Err(e) => panic!("{}", e.message()),
        Ok(None) => None,
        Ok(Some(q)) => Some(
            q.rows
                .iter()
                .map(|r| {
                    r.iter()
                        .map(|c| match c {
                            Cell::Text(s) => s.clone(),
                            Cell::Ratio { sum, count } => format!("{}/{}", sum, count),
                        })
                        .collect()
                })
                .collect(),
        ),
    }
}

fn fast(t: &mut Table, sql: &str) -> Option<Vec<Vec<String>>> {
    let n = t.row_count() as usize;
    assert!(t.check() && t.check_rows(n));
    shown(try_execute_scan_fast(t, &parsed(sql), n, &Vec::new()))
}

fn column(v: &[&str]) -> Option<Vec<Vec<String>>> {
    Some(v.iter().map(|s| vec![s.to_string()]).collect())
}

#[test]
fn rows_with_a_number_are_found() {
    let t = table(10);
    assert!(t.check() && t.check_rows(10));
    let r = try_scan_int_eq(&t, &parsed("SELECT UserID FROM hits WHERE UserID = 3"), 10);
    assert_eq!(shown(r), column(&["3", "3"]));
    let r = try_scan_int_eq(&t, &parsed("SELECT COUNT(*) FROM hits"), 10);
    assert_eq!(shown(r), None);
}

#[test]
fn fast_scans_keep_the_best_rows() {
    let mut t = table(10);
    let by_time =
        "SELECT SearchPhrase FROM hits WHERE SearchPhrase <> '' ORDER BY EventTime LIMIT 3";
    assert_eq!(fast(&mut t, by_time), column(&["ant", "dog", "cat"]));
    let by_phrase =
        "SELECT SearchPhrase FROM hits WHERE SearchPhrase <> '' ORDER BY SearchPhrase LIMIT 4";
    assert_eq!(fast(&mut t, by_phrase), column(&["ant", "ant", "cat", "cat"]));
    let by_both = "SELECT SearchPhrase FROM hits WHERE SearchPhrase <> '' \
                   ORDER BY EventTime, SearchPhrase LIMIT 2";
    assert_eq!(fast(&mut t, by_both), column(&["ant", "dog"]));
    let down = "SELECT SearchPhrase FROM hits WHERE SearchPhrase <> '' \
                ORDER BY SearchPhrase DESC LIMIT 3";
    assert_eq!(fast(&mut t, down), column(&["dog", "dog", "cat"]));
}

#[test]
fn zones_do_not_change_the_answer() {
    let n = 30_000;
    let sql = "SELECT SearchPhrase FROM hits WHERE SearchPhrase <> '' ORDER BY EventTime LIMIT 20";
    let mut plain = table(n);
    let want = fast(&mut plain, sql);
    assert_eq!(want.as_ref().unwrap().len(), 20);
    let mut zoned = table(n);
    let index = ZoneIndex::build(&zoned);
    assert!(index.is_some());
    zoned.set_zones(index);
    assert_eq!(fast(&mut zoned, sql), want);
}

#[test]
fn whole_rows_are_streamed() {
    let mut t = table(8);
    assert!(t.check() && t.check_rows(8));
    let files: Vec<ColumnFile> = t.flush();
    let q = parsed("SELECT * FROM hits WHERE URL LIKE '%google%' ORDER BY EventTime LIMIT 2");
    let direct = shown(try_execute_scan_fast(&mut t, &q, 8, &files)).unwrap();
    assert_eq!(direct.len(), 2);
    assert_eq!(direct[0][5], "http://google.ru/a");
    assert_eq!(direct[0][3], "0");
    assert_eq!(direct[1][3], "2");
    let mut cold = table(8);
    cold.retain_columns(&Vec::new());
    let streamed =
        shown(try_execute_q24_streaming(&mut cold, &q, 8, &files, None, None)).unwrap();
    assert_eq!(streamed, direct);
}

#[test]
fn phrases_are_streamed() {
    let mut t = table(24);
    assert!(t.check());
    let files = t.flush();
    let sql = "SELECT SearchPhrase, MIN(URL), MIN(Title), COUNT(*) AS c, COUNT(DISTINCT UserID) \
               FROM hits WHERE Title LIKE '%Google%' AND URL NOT LIKE '%.google.%' \
               AND SearchPhrase <> '' GROUP BY SearchPhrase ORDER BY c DESC LIMIT 10";
    let r = shown(try_fused_q23_streaming(&files, &parsed(sql), 24)).unwrap();
    assert_eq!(r.len(), 3);
    for row in &r {
        assert_eq!(row[2], "About Google");
        assert_eq!(row[3], "4");
        assert_eq!(row[4], "1");
    }
    let r = try_fused_q23_streaming(&files, &parsed("SELECT COUNT(*) FROM hits"), 24);
    assert_eq!(shown(r), None);
    assert!(try_fused_q23_streaming(&Vec::new(), &parsed(sql), 24).is_err());
    let other = sql.replace("%Google%", "%Yahoo%");
    assert_eq!(shown(try_fused_q23_streaming(&files, &parsed(&other), 24)), None);
}

#[test]
fn keys_are_sorted_and_counted() {
    assert_eq!(copy_and_sort(&vec![3, 1, 2]), vec![1, 2, 3]);
    let many: Vec<u128> = (0..600_000u128).rev().collect();
    let sorted = copy_and_sort(&many);
    assert!(sorted.windows(2).all(|w| w[0] < w[1]));
    assert_eq!(sorted_triples(vec![(2, 0, 0), (1, 5, 0), (1, 4, 9)]), vec![(1, 4, 9), (1, 5, 0), (2, 0, 0)]);
    assert_eq!(sorted_topk_u128(&vec![5, 7, 5, 5, 7, 9], 2, 0), vec![(5, 3), (7, 2)]);
    assert_eq!(sorted_topk_i32(&[4, 4, 1], 1, 0), vec![(4, 2)]);
    assert_eq!(
        sorted_topk_user_phrase(&vec![(1, 2), (1, 3), (1, 2)], 1, 0),
        vec![((1, 2), 2)]
    );
    assert_eq!(
        sorted_topk_user_minute_phrase(vec![(1, 2, 3), (1, 2, 3), (0, 0, 0)], 1, 0),
        vec![((1, 2, 3), 2)]
    );
    let mut d = distinct_count_per_hash_sorted(&vec![(1, 5), (1, 5), (2, 7), (1, 6)]);
    d.sort();
    assert_eq!(d, vec![(1, 2), (2, 1)]);
}

#[test]
fn largest_counts_are_kept() {
    assert_eq!(top_counts(&vec![3, 9, 5], 2, 0), vec![1, 2]);
    assert_eq!(top_counts(&vec![3, 9, 5], 2, 1), vec![2, 0]);
    assert_eq!(top_counts_u128_key(&vec![4, 4, 1], &vec![20, 10, 0], 1, 0).len(), 1);
    let mut top = StreamingTopK::new(1, 0);
    for k in [8u128, 9, 9] {
        top.inc(k);
    }
    assert!(top.contains_key(9));
    assert_eq!(top.finish(), vec![(9, 2)]);
    assert_eq!(top.top_entries(), vec![(9, 2)]);
    assert_eq!(cmp_u128(3, 4), std::cmp::Ordering::Less);
    assert_eq!(cmp_u128(4, 4), std::cmp::Ordering::Equal);
    assert_eq!(for_each_i32_wide(&[5, 6, 7]), vec![5, 6, 7]);
}

#[test]
fn texts_are_counted() {
    let mut a = Utf8CountArena::with_capacity(4);
    for s in ["x", "y", "x"] {
        a.add(s);
    }
    let mut rows = a.into_rows();
    rows.sort();
    assert_eq!(rows, vec![(1, "y".to_string()), (2, "x".to_string())]);
    let (_, counts) = count_texts(vec![vec!["a".to_string()], vec!["a".to_string()]]);
    assert_eq!(counts, vec![2]);
    let (_, counts) = count_ints(&vec![4, 5, 4]);
    assert_eq!(counts, vec![2, 1]);
    let (_, ids) = group_ints(&vec![9, 8, 9]);
    assert_eq!(ids, vec![0, 1, 0]);
}

#[test]
fn averages_are_compared() {
    assert!(ratio_is_less(1, 3, 1, 2));
    assert!(!ratio_is_less(2, 4, 1, 2));
    assert!(ratio_is_less(-1, 1, 0, 5));
}

#[test]
fn streamed_counts_are_exact_while_few() {
    let mut top = StreamingTopK::new(2, 1);
    for k in [7u128, 7, 7, 5, 5, 9, 9, 4] {
        top.inc(k);
    }
    let ties: Vec<String> = (0..top.len()).map(|i| format!("{}", 9 - top.entry(i).0)).collect();
    assert_eq!(top.finish_with_tie_key(&ties), vec![(9, 2), (5, 2)]);
}

#[test]
fn columns_are_seen_in_their_width() {
    use_width(ColumnData::Int16(PodStorage::from_vec(vec![1])), "16");
    use_width(ColumnData::Int32(PodStorage::from_vec(vec![1])), "32");
    use_width(ColumnData::Date(PodStorage::from_vec(vec![1])), "32");
    use_width(ColumnData::Int64(PodStorage::from_vec(vec![1])), "64");
    use_width(ColumnData::Timestamp(PodStorage::from_vec(vec![1])), "64");
    use_width(ColumnData::Utf8(coldrun::storage::utf8_col::Utf8Column::new()), "none");
}

fn use_width(c: ColumnData, width: &str) {
    let got = match coldrun::exec::column_slice::as_int_cols(&c) {
        Some(coldrun::exec::column_slice::IntCols::I16(v)) => (v.len(), "16"),
        Some(coldrun::exec::column_slice::IntCols::I32(v)) => (v.len(), "32"),
        Some(coldrun::exec::column_slice::IntCols::I64(v)) => (v.len(), "64"),
        None => (1, "none"),
    };
    assert_eq!(got, (1, width));
}

#[test]
fn ranges_of_the_dashboard_are_counted() {
    let referer = PodStorage::from_vec(vec![6i64; 5]);
    let counters = PodStorage::from_vec(vec![62i32; 5]);
    let dates = PodStorage::from_vec(vec![15887, 15887, 15888, 15999, 15887]);
    let refresh = PodStorage::from_vec(vec![0i16; 5]);
    let traffic = PodStorage::from_vec(vec![-1i16, 6, 6, 6, 3]);
    let urls = PodStorage::from_vec(vec![1i64, 1, 2, 3, 4]);
    let cols = coldrun::exec::simd_scan::DashboardColumns {
        referer: &referer,
        counters: &counters,
        dates: &dates,
        refresh: &refresh,
        traffic: &traffic,
    };
    let pred = coldrun::exec::simd_scan::Q41Pred {
        counter: 62,
        min_date: 15887,
        max_date: 15917,
        is_refresh: 0,
        referer_hash: 6,
    };
    let mut found: Vec<usize> = vec![9];
    cols.for_each_q41_zone_match(pred, 4, 2, &mut found);
    assert_eq!(found, vec![9]);
    cols.for_each_q41_zone_match(pred, 1, 5, &mut found);
    assert_eq!(found, vec![9, 1, 2]);
    let ranges = vec![(0, 3), (9, 8), (3, 5)];
    let few = coldrun::exec::group_columnar::dashboard_q41_topk(cols, &urls, pred, &ranges, 0, true, 9, 0);
    let counts: Vec<u64> = few.iter().map(|e| e.1).collect();
    assert_eq!(counts, vec![2, 1]);
    let many = coldrun::exec::group_columnar::dashboard_q41_topk(cols, &urls, pred, &ranges, 77, true, 9, 0);
    assert_eq!(few, many);
}
