use coldrun::error::Error;
use coldrun::exec::execute::{check_table, execute, Outcome};
use coldrun::exec::result::{Cell, QueryResult};
use coldrun::exec::scan::finish_scan;
use coldrun::exec::sorting::{finish_sort, Number, SortKey};
use coldrun::sql::query::parse_query;
use coldrun::storage::column::{ColumnData, ColumnType};
use coldrun::storage::demo::load_demo_hits;
use coldrun::storage::pod::PodStorage;
use coldrun::storage::table::{ColumnMeta, Table};
use coldrun::storage::utf8_col::Utf8Column;

fn rank(x: f64) -> i64 {
    let bits = (x + 0.0).to_bits() as i64;
    if bits < 0 {
        i64::MIN - bits
    } else {
        bits
    }
}

fn key(text: &str) -> SortKey {
    let number = match text.parse::<f64>() {
        Err(_) => Number::Absent,
        Ok(x) if x.is_nan() => Number::Unordered,
        Ok(x) => Number::Ranked(rank(x)),
    };
    SortKey { text: text.to_string(), number }
}

fn show(cell: &Cell) -> String {
    match cell {
        Cell::Text(s) => s.clone(),
        Cell::Ratio { sum, count } => format!("{}", *sum as f64 / *count as f64),
    }
}

fn finish(outcome: Outcome) -> QueryResult {
    match outcome {
        Outcome::Done(r) => r,
        Outcome::Sort(u) => {
            let keys: Vec<Vec<SortKey>> =
                u.rows.iter().map(|r| r.iter().map(|c| key(&show(c))).collect()).collect();
            finish_sort(&u, &keys)
        }
        Outcome::Scan(s) => {
            let keys: Vec<Vec<SortKey>> =
                s.keys.iter().map(|r| r.iter().map(|k| key(k)).collect()).collect();
            finish_scan(&s, &keys)
        }
    }
}

fn run(table: &Table, sql: &str) -> Result<Vec<Vec<String>>, String> {
    let parsed = parse_query(sql).map_err(|e| e.message().to_string())?;
    let n = table.row_count() as usize;
    assert!(table.check());
    assert!(table.check_rows(n));
    let outcome = execute(table, &parsed, n).map_err(|e| e.message().to_string())?;
    let result = finish(outcome);
    Ok(result.rows.iter().map(|r| r.iter().map(show).collect()).collect())
}

fn rows(table: &Table, sql: &str) -> Vec<Vec<String>> {
    run(table, sql).unwrap()
}

fn strings(v: &[&[&str]]) -> Vec<Vec<String>> {
    v.iter().map(|r| r.iter().map(|s| s.to_string()).collect()).collect()
}

fn texts(v: &[&str]) -> ColumnData {
    let mut c = Utf8Column::new();
    for s in v {
        c.push_str(s);
    }
    ColumnData::Utf8(c)
}

fn small() -> Table {
    let declared = vec![
        ("UserID", ColumnType::Int64),
        ("RegionID", ColumnType::Int32),
        ("AdvEngineID", ColumnType::Int16),
        ("SearchPhrase", ColumnType::Utf8),
        ("EventDate", ColumnType::Date),
        ("EventTime", ColumnType::Timestamp),
    ];
    let metas = declared
        .iter()
        .map(|(n, t)| ColumnMeta { name: n.to_string(), ty: *t })
        .collect();
    let mut t = Table::create("hits", metas);
    t.put_column("UserID", ColumnData::Int64(PodStorage::from_vec(vec![10, 20, 10, 30, 20, 10])));
    t.put_column("RegionID", ColumnData::Int32(PodStorage::from_vec(vec![1, 2, 1, 3, 2, 2])));
    t.put_column("AdvEngineID", ColumnData::Int16(PodStorage::from_vec(vec![0, 2, 0, 3, 0, 2])));
    t.put_column("SearchPhrase", texts(&["cat", "", "dog", "cat", "bird", "cat"]));
    t.put_column(
        "EventDate",
        ColumnData::Date(PodStorage::from_vec(vec![15887, 15888, 15887, 15889, 15890, 15888])),
    );
    let hour: i64 = 3_600_000_000;
    t.put_column(
        "EventTime",
        ColumnData::Timestamp(PodStorage::from_vec(vec![
            0,
            hour,
            61_000_000,
            2 * hour,
            3 * hour,
            4 * hour,
        ])),
    );
    t.set_row_count(6);
    t
}

#[test]
fn counts_all_rows() {
    assert_eq!(rows(&small(), "SELECT COUNT(*) FROM hits"), strings(&[&["6"]]));
}

#[test]
fn counts_rows_that_meet_a_condition() {
    let t = small();
    assert_eq!(rows(&t, "SELECT COUNT(*) FROM hits WHERE AdvEngineID <> 0"), strings(&[&["3"]]));
    assert_eq!(
        rows(&t, "SELECT COUNT(*) FROM hits WHERE SearchPhrase LIKE '%at%'"),
        strings(&[&["3"]])
    );
    assert_eq!(
        rows(&t, "SELECT COUNT(*) FROM hits WHERE EventDate >= '2013-07-02' AND RegionID = 2"),
        strings(&[&["3"]])
    );
}

#[test]
fn sums_and_averages() {
    let t = small();
    assert_eq!(
        rows(&t, "SELECT SUM(AdvEngineID), COUNT(*), AVG(RegionID) FROM hits"),
        strings(&[&["7", "6", &format!("{}", 11.0f64 / 6.0)]])
    );
    assert_eq!(rows(&t, "SELECT COUNT(DISTINCT UserID) FROM hits"), strings(&[&["3"]]));
    assert_eq!(
        rows(&t, "SELECT MIN(EventDate), MAX(EventDate) FROM hits"),
        strings(&[&["2013-07-01", "2013-07-04"]])
    );
}

#[test]
fn groups_and_orders() {
    let t = small();
    assert_eq!(
        rows(
            &t,
            "SELECT RegionID, COUNT(*) AS c FROM hits GROUP BY RegionID ORDER BY c DESC LIMIT 2"
        ),
        strings(&[&["2", "3"], &["1", "2"]])
    );
    assert_eq!(
        rows(
            &t,
            "SELECT SearchPhrase, COUNT(*) AS c FROM hits WHERE SearchPhrase <> '' \
             GROUP BY SearchPhrase ORDER BY c DESC LIMIT 1"
        ),
        strings(&[&["cat", "3"]])
    );
    assert_eq!(
        rows(
            &t,
            "SELECT RegionID, COUNT(DISTINCT UserID) AS u FROM hits \
             GROUP BY RegionID ORDER BY u DESC LIMIT 10"
        )[0],
        vec!["2".to_string(), "2".to_string()]
    );
}

#[test]
fn limit_and_offset_cut_the_groups() {
    let all = rows(
        &small(),
        "SELECT UserID, COUNT(*) AS c FROM hits GROUP BY UserID ORDER BY c DESC LIMIT 10",
    );
    assert_eq!(all, strings(&[&["10", "3"], &["20", "2"], &["30", "1"]]));
    let second = rows(
        &small(),
        "SELECT UserID, COUNT(*) AS c FROM hits GROUP BY UserID ORDER BY c DESC LIMIT 1 OFFSET 1",
    );
    assert_eq!(second, strings(&[&["20", "2"]]));
}

#[test]
fn groups_meet_the_having_condition() {
    let t = small();
    let r = rows(
        &t,
        "SELECT UserID, SUM(AdvEngineID), COUNT(*) AS c FROM hits GROUP BY UserID \
         HAVING COUNT(*) > 1 ORDER BY c DESC LIMIT 5",
    );
    assert_eq!(r, strings(&[&["10", "2", "3"], &["20", "2", "2"]]));
    let r = rows(
        &t,
        "SELECT UserID, SUM(AdvEngineID), COUNT(*) AS c FROM hits GROUP BY UserID \
         HAVING COUNT(*) > 6 ORDER BY c DESC LIMIT 5",
    );
    assert_eq!(r, Vec::<Vec<String>>::new());
}

#[test]
fn scans_in_order() {
    let t = small();
    assert_eq!(
        rows(&t, "SELECT UserID FROM hits WHERE UserID = 20"),
        strings(&[&["20"], &["20"]])
    );
    assert_eq!(
        rows(
            &t,
            "SELECT SearchPhrase FROM hits WHERE SearchPhrase <> '' ORDER BY EventTime LIMIT 3"
        ),
        strings(&[&["cat"], &["dog"], &["cat"]])
    );
    assert_eq!(
        rows(
            &t,
            "SELECT SearchPhrase FROM hits WHERE SearchPhrase <> '' \
             ORDER BY SearchPhrase LIMIT 2 OFFSET 1"
        ),
        strings(&[&["cat"], &["cat"]])
    );
}

#[test]
fn numbers_sort_as_numbers() {
    assert_eq!(
        rows(&small(), "SELECT RegionID FROM hits ORDER BY UserID DESC LIMIT 1"),
        strings(&[&["3"]])
    );
}

#[test]
fn star_shows_every_column() {
    let r = rows(&small(), "SELECT * FROM hits WHERE RegionID = 3");
    assert_eq!(
        r,
        strings(&[&["30", "3", "3", "cat", "2013-07-03", "1970-01-01 02:00:00"]])
    );
}

#[test]
fn other_tables_are_unknown() {
    assert_eq!(
        run(&small(), "SELECT COUNT(*) FROM visits").unwrap_err(),
        "unknown table visits"
    );
    assert!(check_table("hits").is_ok());
    match check_table("x") {
        Err(Error::Msg(m)) => assert_eq!(m, "unknown table x"),
        _ => panic!("table x is not refused"),
    }
}

#[test]
fn absent_columns_are_named() {
    assert_eq!(
        run(&small(), "SELECT COUNT(*) FROM hits WHERE Nothing = 1").unwrap_err(),
        "column 'Nothing' not loaded"
    );
}

#[test]
fn aggregates_do_not_mix_with_scans() {
    assert_eq!(
        run(&small(), "SELECT COUNT(*) FROM hits LIMIT 1").unwrap_err(),
        "scan projection must be column expr"
    );
}

#[test]
fn sql_that_is_no_sql_is_refused() {
    match parse_query("SELEC 1") {
        Err(Error::SqlParse(_)) => {}
        _ => panic!("accepted"),
    }
    assert!(run(&small(), "").is_err());
}

#[test]
fn demo_rows_answer_queries() {
    let t = load_demo_hits(10_000);
    assert_eq!(rows(&t, "SELECT COUNT(*) FROM hits"), strings(&[&["10000"]]));
    assert_eq!(rows(&t, "SELECT COUNT(*) FROM hits WHERE AdvEngineID <> 0"), strings(&[&["8750"]]));
    assert_eq!(
        rows(&t, "SELECT UserID FROM hits WHERE UserID = 435090932899640449"),
        strings(&[&["435090932899640449"]])
    );
    assert_eq!(
        rows(
            &t,
            "SELECT AdvEngineID, COUNT(*) FROM hits WHERE AdvEngineID <> 0 \
             GROUP BY AdvEngineID ORDER BY COUNT(*) DESC"
        )
        .len(),
        7
    );
    let regions = rows(
        &t,
        "SELECT RegionID, COUNT(DISTINCT UserID) AS u FROM hits \
         GROUP BY RegionID ORDER BY u DESC LIMIT 10",
    );
    assert_eq!(regions.len(), 10);
    assert!(regions.iter().all(|r| r[1] == "10"));
}

#[test]
fn the_forty_three_queries_run_on_demo_rows() {
    let t = load_demo_hits(2_000);
    let queries = [
        "SELECT COUNT(*) FROM hits",
        "SELECT COUNT(*) FROM hits WHERE AdvEngineID <> 0",
        "SELECT SUM(AdvEngineID), COUNT(*), AVG(ResolutionWidth) FROM hits",
        "SELECT AVG(UserID) FROM hits",
        "SELECT COUNT(DISTINCT UserID) FROM hits",
        "SELECT COUNT(DISTINCT SearchPhrase) FROM hits",
        "SELECT MIN(EventDate), MAX(EventDate) FROM hits",
        "SELECT AdvEngineID, COUNT(*) FROM hits WHERE AdvEngineID <> 0 GROUP BY AdvEngineID ORDER BY COUNT(*) DESC",
        "SELECT RegionID, COUNT(DISTINCT UserID) AS u FROM hits GROUP BY RegionID ORDER BY u DESC LIMIT 10",
        "SELECT RegionID, SUM(AdvEngineID), COUNT(*) AS c, AVG(ResolutionWidth), COUNT(DISTINCT UserID) FROM hits GROUP BY RegionID ORDER BY c DESC LIMIT 10",
        "SELECT MobilePhoneModel, COUNT(DISTINCT UserID) AS u FROM hits WHERE MobilePhoneModel <> '' GROUP BY MobilePhoneModel ORDER BY u DESC LIMIT 10",
        "SELECT MobilePhone, MobilePhoneModel, COUNT(DISTINCT UserID) AS u FROM hits WHERE MobilePhoneModel <> '' GROUP BY MobilePhone, MobilePhoneModel ORDER BY u DESC LIMIT 10",
        "SELECT SearchPhrase, COUNT(*) AS c FROM hits WHERE SearchPhrase <> '' GROUP BY SearchPhrase ORDER BY c DESC LIMIT 10",
        "SELECT SearchPhrase, COUNT(DISTINCT UserID) AS u FROM hits WHERE SearchPhrase <> '' GROUP BY SearchPhrase ORDER BY u DESC LIMIT 10",
        "SELECT SearchEngineID, SearchPhrase, COUNT(*) AS c FROM hits WHERE SearchPhrase <> '' GROUP BY SearchEngineID, SearchPhrase ORDER BY c DESC LIMIT 10",
        "SELECT UserID, COUNT(*) FROM hits GROUP BY UserID ORDER BY COUNT(*) DESC LIMIT 10",
        "SELECT UserID, SearchPhrase, COUNT(*) FROM hits GROUP BY UserID, SearchPhrase ORDER BY COUNT(*) DESC LIMIT 10",
        "SELECT UserID, SearchPhrase, COUNT(*) FROM hits GROUP BY UserID, SearchPhrase LIMIT 10",
        "SELECT UserID, extract(minute FROM EventTime) AS m, SearchPhrase, COUNT(*) FROM hits GROUP BY UserID, m, SearchPhrase ORDER BY COUNT(*) DESC LIMIT 10",
        "SELECT UserID FROM hits WHERE UserID = 435090932899640449",
        "SELECT COUNT(*) FROM hits WHERE URL LIKE '%google%'",
        "SELECT SearchPhrase, MIN(URL), COUNT(*) AS c FROM hits WHERE URL LIKE '%google%' AND SearchPhrase <> '' GROUP BY SearchPhrase ORDER BY c DESC LIMIT 10",
        "SELECT SearchPhrase, MIN(URL), MIN(Title), COUNT(*) AS c, COUNT(DISTINCT UserID) FROM hits WHERE Title LIKE '%Google%' AND URL NOT LIKE '%.google.%' AND SearchPhrase <> '' GROUP BY SearchPhrase ORDER BY c DESC LIMIT 10",
        "SELECT * FROM hits WHERE URL LIKE '%google%' ORDER BY EventTime LIMIT 10",
        "SELECT SearchPhrase FROM hits WHERE SearchPhrase <> '' ORDER BY EventTime LIMIT 10",
        "SELECT SearchPhrase FROM hits WHERE SearchPhrase <> '' ORDER BY SearchPhrase LIMIT 10",
        "SELECT SearchPhrase FROM hits WHERE SearchPhrase <> '' ORDER BY EventTime, SearchPhrase LIMIT 10",
        "SELECT CounterID, AVG(length(URL)) AS l, COUNT(*) AS c FROM hits WHERE URL <> '' GROUP BY CounterID HAVING COUNT(*) > 10 ORDER BY l DESC LIMIT 25",
        "SELECT REGEXP_REPLACE(Referer, '^https?://(?:www\\.)?([^/]+)/.*$', '\\1') AS k, AVG(length(Referer)) AS l, COUNT(*) AS c, MIN(Referer) FROM hits WHERE Referer <> '' GROUP BY k HAVING COUNT(*) > 10 ORDER BY l DESC LIMIT 25",
        "SELECT SUM(ResolutionWidth), SUM(ResolutionWidth + 1), SUM(ResolutionWidth + 2) FROM hits",
        "SELECT SearchEngineID, ClientIP, COUNT(*) AS c, SUM(IsRefresh), AVG(ResolutionWidth) FROM hits WHERE SearchPhrase <> '' GROUP BY SearchEngineID, ClientIP ORDER BY c DESC LIMIT 10",
        "SELECT WatchID, ClientIP, COUNT(*) AS c, SUM(IsRefresh), AVG(ResolutionWidth) FROM hits WHERE SearchPhrase <> '' GROUP BY WatchID, ClientIP ORDER BY c DESC LIMIT 10",
        "SELECT WatchID, ClientIP, COUNT(*) AS c, SUM(IsRefresh), AVG(ResolutionWidth) FROM hits GROUP BY WatchID, ClientIP ORDER BY c DESC LIMIT 10",
        "SELECT URL, COUNT(*) AS c FROM hits GROUP BY URL ORDER BY c DESC LIMIT 10",
        "SELECT 1, URL, COUNT(*) AS c FROM hits GROUP BY 1, URL ORDER BY c DESC LIMIT 10",
        "SELECT ClientIP, ClientIP - 1, ClientIP - 2, ClientIP - 3, COUNT(*) AS c FROM hits GROUP BY ClientIP, ClientIP - 1, ClientIP - 2, ClientIP - 3 ORDER BY c DESC LIMIT 10",
        "SELECT URL, COUNT(*) AS PageViews FROM hits WHERE CounterID = 62 AND EventDate >= '2013-07-01' AND EventDate <= '2013-07-31' AND DontCountHits = 0 AND IsRefresh = 0 AND URL <> '' GROUP BY URL ORDER BY PageViews DESC LIMIT 10",
        "SELECT Title, COUNT(*) AS PageViews FROM hits WHERE CounterID = 62 AND EventDate >= '2013-07-01' AND EventDate <= '2013-07-31' AND DontCountHits = 0 AND IsRefresh = 0 AND Title <> '' GROUP BY Title ORDER BY PageViews DESC LIMIT 10",
        "SELECT URL, COUNT(*) AS PageViews FROM hits WHERE CounterID = 62 AND EventDate >= '2013-07-01' AND EventDate <= '2013-07-31' AND IsRefresh = 0 AND IsLink <> 0 AND IsDownload = 0 GROUP BY URL ORDER BY PageViews DESC LIMIT 10 OFFSET 1000",
        "SELECT TraficSourceID, SearchEngineID, AdvEngineID, CASE WHEN (SearchEngineID = 0 AND AdvEngineID = 0) THEN Referer ELSE '' END AS Src, URL AS Dst, COUNT(*) AS PageViews FROM hits WHERE CounterID = 62 AND EventDate >= '2013-07-01' AND EventDate <= '2013-07-31' AND IsRefresh = 0 GROUP BY TraficSourceID, SearchEngineID, AdvEngineID, Src, Dst ORDER BY PageViews DESC LIMIT 10 OFFSET 1000",
        "SELECT URLHash, EventDate, COUNT(*) AS PageViews FROM hits WHERE CounterID = 62 AND EventDate >= '2013-07-01' AND EventDate <= '2013-07-31' AND IsRefresh = 0 AND TraficSourceID IN (-1, 6) AND RefererHash = 3594120000172545465 GROUP BY URLHash, EventDate ORDER BY PageViews DESC LIMIT 10 OFFSET 100",
        "SELECT WindowClientWidth, WindowClientHeight, COUNT(*) AS PageViews FROM hits WHERE CounterID = 62 AND EventDate >= '2013-07-01' AND EventDate <= '2013-07-31' AND IsRefresh = 0 AND DontCountHits = 0 AND URLHash = 2868770270353813622 GROUP BY WindowClientWidth, WindowClientHeight ORDER BY PageViews DESC LIMIT 10 OFFSET 10000",
        "SELECT DATE_TRUNC('minute', EventTime) AS M, COUNT(*) AS PageViews FROM hits WHERE CounterID = 62 AND EventDate >= '2013-07-14' AND EventDate <= '2013-07-15' AND IsRefresh = 0 AND DontCountHits = 0 GROUP BY DATE_TRUNC('minute', EventTime) ORDER BY DATE_TRUNC('minute', EventTime) LIMIT 10 OFFSET 1000",
    ];
    assert_eq!(queries.len(), 43);
    for (i, sql) in queries.iter().enumerate() {
        if let Err(m) = run(&t, sql) {
            panic!("query {} failed: {}", i + 1, m);
        }
    }
}

fn rows_of_a_table_without_the_demo_mark(sql: &str) -> Vec<Vec<String>> {
    let demo = load_demo_hits(500);
    let names = demo.column_names();
    let metas = names
        .iter()
        .map(|n| ColumnMeta { name: n.clone(), ty: demo.column_type(n).unwrap() })
        .collect();
    let fresh = load_demo_hits(500);
    let mut t = Table::create("hits", metas);
    for n in &names {
        let ty = fresh.column_type(n).unwrap();
        t.put_column(n, coldrun::storage::demo::demo_column(n, ty, 500));
    }
    t.set_row_count(500);
    rows(&t, sql)
}

#[test]
fn groups_of_demo_rows_agree_with_groups_of_plain_rows() {
    let sql = "SELECT RegionID, COUNT(*) AS c FROM hits GROUP BY RegionID ORDER BY c DESC LIMIT 600";
    let mut a = rows(&load_demo_hits(500), sql);
    let mut b = rows_of_a_table_without_the_demo_mark(sql);
    a.sort();
    b.sort();
    assert_eq!(a, b);
    assert_eq!(a.len(), 500);
}

fn referers(v: &[&str]) -> Table {
    let metas = vec![ColumnMeta { name: "Referer".to_string(), ty: ColumnType::Utf8 }];
    let mut t = Table::create("hits", metas);
    t.put_column("Referer", texts(v));
    t.set_row_count(v.len() as u64);
    t
}

#[test]
fn lengths_are_counted_in_bytes() {
    let t = referers(&["http://h/\u{e9}", "http://h/\u{e9}"]);
    let sql = "SELECT REGEXP_REPLACE(Referer, '^https?://([^/]+)/.*$', '\\1') AS k, AVG(length(Referer)) AS l, COUNT(*) AS c, MIN(Referer) FROM hits GROUP BY k HAVING COUNT(*) > 1 ORDER BY l DESC LIMIT 25";
    let q = parse_query(sql).ok().unwrap();
    let r = coldrun::exec::group_fused_q29::try_fused_q29(&t, &q, 2).ok().unwrap().unwrap();
    let got: Vec<Vec<String>> = r.rows.iter().map(|r| r.iter().map(show).collect()).collect();
    assert_eq!(got, strings(&[&["h", "11", "2", "http://h/\u{e9}"]]));
    assert_eq!(rows(&t, sql), got);
}

#[test]
fn empty_referers_are_counted() {
    let t = referers(&["", "http://h/x", ""]);
    let sql = "SELECT REGEXP_REPLACE(Referer, '^https?://([^/]+)/.*$', '\\1') AS k, AVG(length(Referer)) AS l, COUNT(*) AS c, MIN(Referer) FROM hits GROUP BY k HAVING COUNT(*) > 0 ORDER BY l DESC LIMIT 25";
    assert_eq!(rows(&t, sql), strings(&[&["h", "10", "1", "http://h/x"], &["", "0", "2", ""]]));
}

#[test]
fn zero_and_negative_keys_are_groups() {
    let mut t = small();
    assert_eq!(
        rows(&t, "SELECT AdvEngineID, COUNT(*) AS c FROM hits GROUP BY AdvEngineID ORDER BY c DESC LIMIT 10"),
        strings(&[&["0", "3"], &["2", "2"], &["3", "1"]])
    );
    t.put_column("RegionID", ColumnData::Int32(PodStorage::from_vec(vec![-1, 2, -1, 3, 2, -1])));
    assert_eq!(
        rows(&t, "SELECT RegionID, COUNT(DISTINCT UserID) AS u FROM hits GROUP BY RegionID ORDER BY u DESC, RegionID LIMIT 10"),
        strings(&[&["-1", "1"], &["2", "1"], &["3", "1"]])
    );
}

#[test]
fn values_stand_in_the_order_of_the_projections() {
    let t = small();
    assert_eq!(
        rows(&t, "SELECT MAX(EventDate), MIN(EventDate) FROM hits"),
        strings(&[&["2013-07-04", "2013-07-01"]])
    );
    assert_eq!(
        rows(&t, "SELECT MIN(EventDate), MAX(EventDate) FROM hits"),
        strings(&[&["2013-07-01", "2013-07-04"]])
    );
    assert_eq!(
        rows(&t, "SELECT COUNT(*) AS c, AdvEngineID FROM hits GROUP BY AdvEngineID ORDER BY c DESC LIMIT 2"),
        strings(&[&["3", "0"], &["2", "2"]])
    );
}

#[test]
fn large_sums_are_exact() {
    let metas = vec![ColumnMeta { name: "ResolutionWidth".to_string(), ty: ColumnType::Int16 }];
    let mut t = Table::create("hits", metas);
    t.put_column(
        "ResolutionWidth",
        ColumnData::Int16(PodStorage::from_vec(vec![32_767, 32_760, -32_768])),
    );
    t.set_row_count(3);
    let sums: Vec<String> = (0..12).map(|k| format!("SUM(ResolutionWidth + {})", k)).collect();
    let want: Vec<String> = (0..12).map(|k| format!("{}", 32_759 + 3 * k)).collect();
    assert_eq!(rows(&t, &format!("SELECT {} FROM hits", sums.join(", "))), vec![want]);
}

#[test]
fn grants_are_refused() {
    let sql = "GRANT SELECT ON hits TO a GRANTED BY b";
    let said = match parse_query(sql) {
        Ok(_) => String::new(),
        Err(e) => e.message().to_string(),
    };
    assert_eq!(said, "sql parser error: GRANT and REVOKE are not supported");
    assert!(parse_query("REVOKE SELECT ON hits FROM a GRANTED BY b").is_err());
    assert_eq!(
        rows(&small(), "SELECT COUNT(*) FROM hits WHERE SearchPhrase = 'grant granted by revoke'"),
        strings(&[&["0"]])
    );
}

#[test]
fn rows_without_columns_have_no_order() {
    let t = small();
    let mut q = parse_query("SELECT RegionID FROM hits GROUP BY RegionID ORDER BY RegionID").ok().unwrap();
    q.select_items.clear();
    let said = match coldrun::exec::group_fused::execute_grouped(&t, &q, 6) {
        Ok(_) => String::new(),
        Err(e) => e.message().to_string(),
    };
    assert_eq!(said, "order column not in the result");
    assert!(coldrun::exec::group_fused::execute_grouped(&t, &q, 1).is_ok());
    assert!(coldrun::exec::group_fused::execute_grouped(&t, &q, 0).is_ok());
}

#[test]
fn keys_may_be_shown_twice() {
    let t = small();
    assert_eq!(
        rows(&t, "SELECT RegionID, RegionID, COUNT(*) AS c FROM hits GROUP BY RegionID ORDER BY c DESC LIMIT 1"),
        strings(&[&["2", "2", "3"]])
    );
    assert_eq!(
        rows(&t, "SELECT RegionID, RegionID FROM hits WHERE RegionID > 9 GROUP BY RegionID LIMIT 5"),
        strings(&[])
    );
}

#[test]
fn words_of_grants_may_be_searched_for() {
    let sql = "select count(*) from hits where URL like '%granted%' and Title like '%revoke%';";
    assert!(parse_query(sql).is_ok());
    assert!(parse_query(&format!("\n  {}  ", sql)).is_ok());
    assert!(parse_query("SELECT 1; REVOKE SELECT ON hits FROM a GRANTED BY b").is_err());
    assert_eq!(
        rows(&small(), " \tSELECT COUNT(*) FROM hits WHERE SearchPhrase <> 'granted, revoked' ; "),
        strings(&[&["6"]])
    );
}

#[test]
fn cases_may_come_to_the_empty_text() {
    let t = small();
    let sql = "SELECT CASE WHEN AdvEngineID = 0 THEN SearchPhrase ELSE '' END AS s, COUNT(*) AS c FROM hits GROUP BY s";
    let want = strings(&[&["", "3"], &["bird", "1"], &["cat", "1"], &["dog", "1"]]);
    let mut got = rows(&t, sql);
    got.sort();
    assert_eq!(got, want);
    let mut got = rows(&t, &format!("{} ORDER BY c DESC LIMIT 10", sql));
    assert_eq!(got[0], want[0]);
    got.sort();
    assert_eq!(got, want);
}

#[test]
fn least_and_greatest_numbers_are_found() {
    let t = small();
    assert_eq!(
        rows(&t, "SELECT MAX(RegionID), MIN(RegionID), MAX(AdvEngineID), MIN(UserID) FROM hits"),
        strings(&[&["3", "1", "3", "10"]])
    );
    let sql = "SELECT SearchPhrase, MAX(RegionID), MIN(RegionID) FROM hits GROUP BY SearchPhrase";
    let want = strings(&[&["", "2", "2"], &["bird", "2", "2"], &["cat", "3", "1"], &["dog", "1", "1"]]);
    for sql in [sql.to_string(), format!("{} LIMIT 10", sql)] {
        let mut got = rows(&t, &sql);
        got.sort();
        assert_eq!(got, want);
    }
    assert_eq!(
        rows(&t, "SELECT RegionID, MIN(SearchPhrase), MAX(SearchPhrase) FROM hits WHERE RegionID = 2 GROUP BY RegionID"),
        strings(&[&["2", "", "cat"]])
    );
}

#[test]
fn groups_are_counted_for_their_condition() {
    let t = small();
    let sql = "SELECT RegionID FROM hits GROUP BY RegionID HAVING COUNT(*) > 1";
    let want = strings(&[&["1"], &["2"]]);
    for sql in [sql.to_string(), format!("{} LIMIT 10", sql)] {
        let mut got = rows(&t, &sql);
        got.sort();
        assert_eq!(got, want);
    }
    assert_eq!(
        rows(&t, "SELECT SearchPhrase, MIN(RegionID) FROM hits GROUP BY SearchPhrase HAVING COUNT(*) > 2"),
        strings(&[&["cat", "1"]])
    );
}
