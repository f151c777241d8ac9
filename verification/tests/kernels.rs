use coldrun::exec::execute::{execute, Outcome};
use coldrun::exec::group::{group_plain, Answer};
use coldrun::exec::result::Cell;
use coldrun::sql::columns::referenced_columns;
use coldrun::sql::query::parse_query;
use coldrun::storage::column::{ColumnData, ColumnType};
use coldrun::storage::load::hits_column_schema;
use coldrun::storage::pod::PodStorage;
use coldrun::storage::table::{ColumnMeta, Table};
use coldrun::storage::utf8_col::Utf8Column;

struct Dice(u64);

impl Dice {
    fn roll(&mut self, sides: u64) -> u64 {
        self.0 = self.0.wrapping_mul(6364136223846793005).wrapping_add(1442695040888963407);
        (self.0 >> 33) % sides
    }
}

fn number(name: &str, d: &mut Dice, far: bool) -> i64 {
    match name {
        "RegionID" if far => d.roll(9) as i64 - 4,
        "ClientIP" if far => [i32::MIN as i64, i32::MIN as i64 + 2, 5][d.roll(3) as usize],
        "WatchID" | "UserID" if far => (d.roll(3) as i64) << 40,
        "CounterID" => 62 + (d.roll(3) / 2) as i64,
        "EventDate" => 15887 + d.roll(40) as i64,
        "EventTime" => 1_372_636_800_000_000 + (d.roll(4000) * 13_000_000) as i64,
        "URLHash" => [2868770270353813622, 5][d.roll(2) as usize],
        "RefererHash" => [3594120000172545465, 6][d.roll(2) as usize],
        "TraficSourceID" => [-1, 6, 3][d.roll(3) as usize],
        "IsRefresh" | "DontCountHits" | "IsLink" | "IsDownload" => (d.roll(4) / 3) as i64,
        "ResolutionWidth" => 800 + d.roll(500) as i64,
        "AdvEngineID" | "SearchEngineID" | "MobilePhone" => d.roll(4) as i64,
        "RegionID" => d.roll(9) as i64,
        "ClientIP" => d.roll(12) as i64 - 3,
        _ => d.roll(15) as i64,
    }
}

fn text(name: &str, d: &mut Dice) -> &'static str {
    match name {
        "Referer" => {
            ["", "http://www.a.org/x", "https://b.com/", "http://a.org/yy", "odd"]
                [d.roll(5) as usize]
        }
        "URL" => ["", "http://google.ru/", "http://x.google.com/", "http://z/"][d.roll(4) as usize],
        "Title" => ["", "Google", "About Google", "else"][d.roll(4) as usize],
        _ => ["", "cat", "dog", "cow", "hen"][d.roll(5) as usize],
    }
}

fn hits(n: usize) -> Table {
    made(n, false)
}

/// Rows for all columns; `far` ones hold negative and large numbers too.
fn made(n: usize, far: bool) -> Table {
    let schema = hits_column_schema();
    let metas =
        schema.iter().map(|(n, ty)| ColumnMeta { name: n.to_string(), ty: *ty }).collect();
    let mut t = Table::create("hits", metas);
    let mut d = Dice(7);
    for (name, ty) in schema {
        let c = if ty == ColumnType::Utf8 {
            let mut c = Utf8Column::new();
            for _ in 0..n {
                c.push_str(text(name, &mut d));
            }
            ColumnData::Utf8(c)
        } else {
            let v: Vec<i64> = (0..n).map(|_| number(name, &mut d, far)).collect();
            match ty {
                ColumnType::Int64 => ColumnData::Int64(PodStorage::from_vec(v)),
                ColumnType::Timestamp => ColumnData::Timestamp(PodStorage::from_vec(v)),
                ColumnType::Date => {
                    ColumnData::Date(PodStorage::from_vec(v.iter().map(|x| *x as i32).collect()))
                }
                ColumnType::Int32 => {
                    ColumnData::Int32(PodStorage::from_vec(v.iter().map(|x| *x as i32).collect()))
                }
                _ => ColumnData::Int16(PodStorage::from_vec(v.iter().map(|x| *x as i16).collect())),
            }
        };
        t.put_column(name, c);
    }
    t.set_row_count(n as u64);
    t
}

/// The rows, sorted.
fn shown(rows: &Vec<Vec<Cell>>) -> Vec<Vec<String>> {
    let mut out: Vec<Vec<String>> = rows
        .iter()
        .map(|r| {
            r.iter()
                .map(|c| match c {
                    Cell::Text(s) => s.clone(),
                    Cell::Ratio { sum, count } => format!("{}", *sum as f64 / *count as f64),
                })
                .collect()
        })
        .collect();
    out.sort();
    out
}

#[test]
fn kernels_agree_with_plain_grouping() {
    let n = 600;
    let t = hits(n);
    let odd = made(n, true);
    assert!(t.check() && t.check_rows(n));
    assert!(odd.check() && odd.check_rows(n));
    let queries = [
        "SELECT AdvEngineID, COUNT(*) FROM hits WHERE AdvEngineID <> 0 GROUP BY AdvEngineID ORDER BY COUNT(*) DESC",
        "SELECT RegionID, COUNT(DISTINCT UserID) AS u FROM hits GROUP BY RegionID ORDER BY u DESC LIMIT 100000",
        "SELECT RegionID, SUM(AdvEngineID), COUNT(*) AS c, AVG(ResolutionWidth), COUNT(DISTINCT UserID) FROM hits GROUP BY RegionID ORDER BY c DESC LIMIT 100000",
        "SELECT MobilePhoneModel, COUNT(DISTINCT UserID) AS u FROM hits WHERE MobilePhoneModel <> '' GROUP BY MobilePhoneModel ORDER BY u DESC LIMIT 100000",
        "SELECT MobilePhone, MobilePhoneModel, COUNT(DISTINCT UserID) AS u FROM hits WHERE MobilePhoneModel <> '' GROUP BY MobilePhone, MobilePhoneModel ORDER BY u DESC LIMIT 100000",
        "SELECT SearchPhrase, COUNT(*) AS c FROM hits WHERE SearchPhrase <> '' GROUP BY SearchPhrase ORDER BY c DESC LIMIT 100000",
        "SELECT SearchPhrase, COUNT(DISTINCT UserID) AS u FROM hits WHERE SearchPhrase <> '' GROUP BY SearchPhrase ORDER BY u DESC LIMIT 100000",
        "SELECT SearchEngineID, SearchPhrase, COUNT(*) AS c FROM hits WHERE SearchPhrase <> '' GROUP BY SearchEngineID, SearchPhrase ORDER BY c DESC LIMIT 100000",
        "SELECT UserID, COUNT(*) FROM hits GROUP BY UserID ORDER BY COUNT(*) DESC LIMIT 100000",
        "SELECT UserID, SearchPhrase, COUNT(*) FROM hits GROUP BY UserID, SearchPhrase ORDER BY COUNT(*) DESC LIMIT 100000",
        "SELECT UserID, SearchPhrase, COUNT(*) FROM hits GROUP BY UserID, SearchPhrase LIMIT 100000",
        "SELECT UserID, extract(minute FROM EventTime) AS m, SearchPhrase, COUNT(*) FROM hits GROUP BY UserID, m, SearchPhrase ORDER BY COUNT(*) DESC LIMIT 100000",
        "SELECT SearchPhrase, MIN(URL), COUNT(*) AS c FROM hits WHERE URL LIKE '%google%' AND SearchPhrase <> '' GROUP BY SearchPhrase ORDER BY c DESC LIMIT 100000",
        "SELECT SearchPhrase, MIN(URL), MIN(Title), COUNT(*) AS c, COUNT(DISTINCT UserID) FROM hits WHERE Title LIKE '%Google%' AND URL NOT LIKE '%.google.%' AND SearchPhrase <> '' GROUP BY SearchPhrase ORDER BY c DESC LIMIT 100000",
        "SELECT CounterID, AVG(length(URL)) AS l, COUNT(*) AS c FROM hits WHERE URL <> '' GROUP BY CounterID HAVING COUNT(*) > 5 ORDER BY l DESC LIMIT 100000",
        "SELECT REGEXP_REPLACE(Referer, '^https?://(?:www\\.)?([^/]+)/.*$', '\\1') AS k, AVG(length(Referer)) AS l, COUNT(*) AS c, MIN(Referer) FROM hits WHERE Referer <> '' GROUP BY k HAVING COUNT(*) > 5 ORDER BY l DESC LIMIT 100000",
        "SELECT SearchEngineID, ClientIP, COUNT(*) AS c, SUM(IsRefresh), AVG(ResolutionWidth) FROM hits WHERE SearchPhrase <> '' GROUP BY SearchEngineID, ClientIP ORDER BY c DESC LIMIT 100000",
        "SELECT WatchID, ClientIP, COUNT(*) AS c, SUM(IsRefresh), AVG(ResolutionWidth) FROM hits WHERE SearchPhrase <> '' GROUP BY WatchID, ClientIP ORDER BY c DESC LIMIT 100000",
        "SELECT WatchID, ClientIP, COUNT(*) AS c, SUM(IsRefresh), AVG(ResolutionWidth) FROM hits GROUP BY WatchID, ClientIP ORDER BY c DESC LIMIT 100000",
        "SELECT URL, COUNT(*) AS c FROM hits GROUP BY URL ORDER BY c DESC LIMIT 100000",
        "SELECT 1, URL, COUNT(*) AS c FROM hits GROUP BY 1, URL ORDER BY c DESC LIMIT 100000",
        "SELECT ClientIP, ClientIP - 1, ClientIP - 2, ClientIP - 3, COUNT(*) AS c FROM hits GROUP BY ClientIP, ClientIP - 1, ClientIP - 2, ClientIP - 3 ORDER BY c DESC LIMIT 100000",
        "SELECT URL, COUNT(*) AS PageViews FROM hits WHERE CounterID = 62 AND EventDate >= '2013-07-01' AND EventDate <= '2013-07-31' AND DontCountHits = 0 AND IsRefresh = 0 AND URL <> '' GROUP BY URL ORDER BY PageViews DESC LIMIT 100000",
        "SELECT Title, COUNT(*) AS PageViews FROM hits WHERE CounterID = 62 AND EventDate >= '2013-07-01' AND EventDate <= '2013-07-31' AND DontCountHits = 0 AND IsRefresh = 0 AND Title <> '' GROUP BY Title ORDER BY PageViews DESC LIMIT 100000",
        "SELECT URL, COUNT(*) AS PageViews FROM hits WHERE CounterID = 62 AND EventDate >= '2013-07-01' AND EventDate <= '2013-07-31' AND IsRefresh = 0 AND IsLink <> 0 AND IsDownload = 0 GROUP BY URL ORDER BY PageViews DESC LIMIT 100000",
        "SELECT WindowClientWidth, WindowClientHeight, COUNT(*) AS PageViews FROM hits WHERE CounterID = 62 AND EventDate >= '2013-07-01' AND EventDate <= '2013-07-31' AND IsRefresh = 0 AND DontCountHits = 0 AND URLHash = 2868770270353813622 GROUP BY WindowClientWidth, WindowClientHeight ORDER BY PageViews DESC LIMIT 100000",
        "SELECT TraficSourceID, SearchEngineID, AdvEngineID, CASE WHEN (SearchEngineID = 0 AND AdvEngineID = 0) THEN Referer ELSE '' END AS Src, URL AS Dst, COUNT(*) AS PageViews FROM hits WHERE CounterID = 62 AND EventDate >= '2013-07-01' AND EventDate <= '2013-07-31' AND IsRefresh = 0 GROUP BY TraficSourceID, SearchEngineID, AdvEngineID, Src, Dst ORDER BY PageViews DESC LIMIT 100000",
        "SELECT SearchPhrase AS p, MIN(URL), COUNT(*) AS c FROM hits GROUP BY p ORDER BY c DESC LIMIT 100000",
        "SELECT EventDate, RegionID, COUNT(*) AS c FROM hits GROUP BY EventDate, RegionID ORDER BY c DESC LIMIT 100000",
        "SELECT EventDate, AdvEngineID, COUNT(*) AS c, SUM(IsRefresh), AVG(ResolutionWidth) FROM hits GROUP BY EventDate, AdvEngineID ORDER BY c DESC LIMIT 100000",
        "SELECT SearchPhrase, MobilePhoneModel, COUNT(DISTINCT UserID) AS u FROM hits GROUP BY SearchPhrase, MobilePhoneModel ORDER BY u DESC LIMIT 100000",
        "SELECT RegionID, AdvEngineID, MobilePhone, ClientIP, COUNT(*) AS c FROM hits GROUP BY RegionID, AdvEngineID, MobilePhone, ClientIP ORDER BY c DESC LIMIT 100000",
        "SELECT RegionID, MIN(ResolutionWidth), MAX(ResolutionWidth) FROM hits GROUP BY RegionID LIMIT 100000",
        "SELECT RegionID FROM hits GROUP BY RegionID HAVING COUNT(*) > 60 LIMIT 100000",
        "SELECT URLHash, EventDate, COUNT(*) AS PageViews FROM hits WHERE CounterID = 62 AND EventDate >= '2013-07-01' AND EventDate <= '2013-07-31' AND IsRefresh = 0 AND TraficSourceID IN (-1, 6) AND RefererHash = 3594120000172545465 GROUP BY URLHash, EventDate ORDER BY PageViews DESC LIMIT 100000",
        "SELECT AdvEngineID, COUNT(*) FROM hits GROUP BY AdvEngineID ORDER BY COUNT(*) DESC LIMIT 100000",
        "SELECT COUNT(*), AdvEngineID FROM hits GROUP BY AdvEngineID LIMIT 100000",
        "SELECT AdvEngineID AS a, COUNT(*) AS c FROM hits GROUP BY a ORDER BY c LIMIT 100000",
        "SELECT AdvEngineID, COUNT(*) FROM hits GROUP BY AdvEngineID HAVING COUNT(*) > 150 LIMIT 100000",
        "SELECT COUNT(DISTINCT UserID), RegionID FROM hits GROUP BY RegionID LIMIT 100000",
        "SELECT RegionID, COUNT(*) AS c, SUM(AdvEngineID), AVG(ResolutionWidth), COUNT(DISTINCT UserID) FROM hits GROUP BY RegionID ORDER BY c DESC LIMIT 100000",
        "SELECT RegionID, SUM(AdvEngineID), COUNT(*) AS c, AVG(ResolutionWidth), COUNT(DISTINCT UserID) FROM hits GROUP BY RegionID HAVING COUNT(*) > 60 ORDER BY c DESC LIMIT 100000",
        "SELECT COUNT(*) AS c, UserID FROM hits GROUP BY UserID ORDER BY c LIMIT 100000",
        "SELECT UserID, COUNT(*) FROM hits GROUP BY UserID HAVING COUNT(*) > 40 ORDER BY COUNT(*) DESC LIMIT 100000",
        "SELECT COUNT(*), SearchPhrase FROM hits GROUP BY SearchPhrase LIMIT 100000",
        "SELECT SearchPhrase, COUNT(*) FROM hits GROUP BY SearchPhrase HAVING COUNT(*) > 120 LIMIT 100000",
        "SELECT SearchPhrase, UserID, COUNT(*) FROM hits GROUP BY SearchPhrase, UserID LIMIT 100000",
        "SELECT SearchPhrase, UserID, COUNT(*) FROM hits GROUP BY UserID, SearchPhrase LIMIT 100000",
        "SELECT WatchID, UserID, COUNT(*) FROM hits GROUP BY WatchID, UserID LIMIT 100000",
        "SELECT WatchID, UserID, RegionID, COUNT(*) FROM hits GROUP BY WatchID, UserID, RegionID LIMIT 100000",
        "SELECT WatchID, UserID, RegionID, ClientIP, COUNT(*) FROM hits GROUP BY WatchID, UserID, RegionID, ClientIP LIMIT 100000",
        "SELECT RegionID, ClientIP, AdvEngineID, MAX(ResolutionWidth) FROM hits GROUP BY RegionID, ClientIP, AdvEngineID LIMIT 100000",
        "SELECT EventDate, RegionID, COUNT(*) FROM hits GROUP BY EventDate, RegionID LIMIT 100000",
        "SELECT EventDate AS d, COUNT(*) FROM hits GROUP BY d LIMIT 100000",
        "SELECT RegionID, RegionID, COUNT(*) FROM hits GROUP BY RegionID LIMIT 100000",
        "SELECT ClientIP, COUNT(*) AS c FROM hits GROUP BY ClientIP, ClientIP - 1, ClientIP - 2, ClientIP - 3 LIMIT 100000",
        "SELECT ClientIP, ClientIP - 3, ClientIP - 2, ClientIP - 1, COUNT(*) AS c FROM hits GROUP BY ClientIP, ClientIP - 3, ClientIP - 2, ClientIP - 1 ORDER BY c DESC LIMIT 100000",
        "SELECT COUNT(*) AS c, CounterID, AVG(length(URL)) AS l FROM hits GROUP BY CounterID HAVING COUNT(*) > 5 ORDER BY l DESC LIMIT 100000",
        "SELECT CounterID, AVG(length(URL)) AS l, COUNT(*) AS c FROM hits GROUP BY CounterID HAVING COUNT(*) > 5 ORDER BY c LIMIT 100000",
        "SELECT REGEXP_REPLACE(Referer, '^https?://(?:www\\.)?([^/]+)/.*$', '\\1') AS k, AVG(length(Referer)) AS l, COUNT(*) AS c, MIN(Referer) FROM hits GROUP BY k HAVING COUNT(*) > 5 ORDER BY l DESC LIMIT 100000",
        "SELECT MIN(URL), SearchPhrase, COUNT(*) AS c FROM hits GROUP BY SearchPhrase ORDER BY c DESC LIMIT 100000",
        "SELECT SearchEngineID, ClientIP, SUM(IsRefresh), COUNT(*) AS c, AVG(ResolutionWidth) FROM hits GROUP BY SearchEngineID, ClientIP ORDER BY c DESC LIMIT 100000",
        "SELECT DATE_TRUNC('minute', EventTime) AS M, COUNT(*) AS c FROM hits GROUP BY DATE_TRUNC('minute', EventTime) ORDER BY c DESC LIMIT 100000",
        "SELECT DATE_TRUNC('minute', EventTime) AS M, COUNT(*) AS PageViews FROM hits WHERE CounterID = 62 AND EventDate >= '2013-07-14' AND EventDate <= '2013-07-15' AND IsRefresh = 0 AND DontCountHits = 0 GROUP BY DATE_TRUNC('minute', EventTime) ORDER BY DATE_TRUNC('minute', EventTime) LIMIT 100000",
    ];
    let mut wrong: Vec<String> = Vec::new();
    for (sql, far) in queries.iter().flat_map(|s| [(s, false), (s, true)]) {
        let t = if far { &odd } else { &t };
        let q = parse_query(sql).ok().unwrap();
        let got = match execute(t, &q, n) {
            Err(e) => vec![vec![format!("error {}", e.message())]],
            Ok(Outcome::Done(r)) => shown(&r.rows),
            Ok(Outcome::Sort(u)) => shown(&u.rows),
            Ok(Outcome::Scan(_)) => panic!("a scan"),
        };
        let want = match group_plain(t, &q, n) {
            Err(e) => vec![vec![format!("error {}", e.message())]],
            Ok(Answer::Done(r)) => shown(&r.rows),
            Ok(Answer::Sort(u)) => shown(&u.rows),
        };
        if got != want {
            let k = got.iter().zip(&want).position(|(a, b)| a != b).unwrap_or(0);
            wrong.push(format!("{}\n  {} {:?}\n  {} {:?}", sql, got.len(), got.get(k), want.len(), want.get(k)));
        }
    }
    assert!(wrong.is_empty(), "{}", wrong.join("\n"));
}

#[test]
fn groups_without_a_limit_are_complete() {
    let n = 500;
    let t = made(n, true);
    assert!(t.check() && t.check_rows(n));
    for (keys, sql) in [
        (1, "SELECT AdvEngineID, COUNT(*) FROM hits GROUP BY AdvEngineID ORDER BY COUNT(*) DESC"),
        (1, "SELECT RegionID, COUNT(*) FROM hits GROUP BY RegionID"),
        (1, "SELECT Referer, COUNT(*) FROM hits GROUP BY Referer"),
        (3, "SELECT WatchID, UserID, RegionID, COUNT(*) FROM hits GROUP BY WatchID, UserID, RegionID"),
        (2, "SELECT EventDate, SearchPhrase, COUNT(*) FROM hits GROUP BY EventDate, SearchPhrase"),
        (4, "SELECT ClientIP, ClientIP - 1, ClientIP - 2, ClientIP - 3, COUNT(*) FROM hits GROUP BY ClientIP, ClientIP - 1, ClientIP - 2, ClientIP - 3"),
    ] {
        let rows = answer(&t, sql, n);
        let mut seen: Vec<Vec<String>> = rows.iter().map(|r| r[..keys].to_vec()).collect();
        let sum: usize = rows.iter().map(|r| r[keys].parse::<usize>().unwrap()).sum();
        assert_eq!(sum, n, "{}", sql);
        seen.dedup();
        assert_eq!(seen.len(), rows.len(), "{}", sql);
        assert!(rows.len() > 1);
    }
}

#[test]
fn dashboard_groups_add_up() {
    let n = 600;
    let t = hits(n);
    assert!(t.check() && t.check_rows(n));
    let total = |sql: &str| -> (usize, u64) {
        let q = parse_query(sql).ok().unwrap();
        let rows = match execute(&t, &q, n) {
            Err(e) => panic!("{}", e.message()),
            Ok(Outcome::Done(r)) => shown(&r.rows),
            Ok(Outcome::Sort(u)) => shown(&u.rows),
            Ok(Outcome::Scan(_)) => panic!("a scan"),
        };
        let sum = rows.iter().map(|r| r.last().unwrap().parse::<u64>().unwrap()).sum();
        (rows.len(), sum)
    };
    let pages = [
        "SELECT TraficSourceID, SearchEngineID, AdvEngineID, CASE WHEN (SearchEngineID = 0 AND AdvEngineID = 0) THEN Referer ELSE '' END AS Src, URL AS Dst, COUNT(*) AS PageViews FROM hits WHERE CounterID = 62 AND EventDate >= '2013-07-01' AND EventDate <= '2013-07-31' AND IsRefresh = 0 GROUP BY TraficSourceID, SearchEngineID, AdvEngineID, Src, Dst ORDER BY PageViews DESC LIMIT 100000",
        "SELECT URLHash, EventDate, COUNT(*) AS PageViews FROM hits WHERE CounterID = 62 AND EventDate >= '2013-07-01' AND EventDate <= '2013-07-31' AND IsRefresh = 0 AND TraficSourceID IN (-1, 6) AND RefererHash = 3594120000172545465 GROUP BY URLHash, EventDate ORDER BY PageViews DESC LIMIT 100000",
    ];
    for sql in pages {
        let from = sql.find("FROM").unwrap();
        let group = sql.find("GROUP BY").unwrap();
        let count = format!("SELECT COUNT(*) {}", &sql[from..group]);
        let (groups, sum) = total(sql);
        assert!(groups > 1);
        assert_eq!(sum, total(&count).1);
    }
}

fn answer(t: &Table, sql: &str, n: usize) -> Vec<Vec<String>> {
    let q = parse_query(sql).ok().unwrap();
    match execute(t, &q, n) {
        Err(e) => panic!("{}", e.message()),
        Ok(Outcome::Done(r)) => shown(&r.rows),
        Ok(Outcome::Sort(u)) => shown(&u.rows),
        Ok(Outcome::Scan(s)) => s.rows,
    }
}

#[test]
fn referenced_columns_are_enough() {
    let n = 300;
    let whole = hits(n);
    for sql in [
        "SELECT SearchPhrase, COUNT(*) AS c FROM hits WHERE AdvEngineID <> 0 GROUP BY SearchPhrase ORDER BY c DESC LIMIT 10",
        "SELECT RegionID, SUM(AdvEngineID), AVG(ResolutionWidth) FROM hits GROUP BY RegionID",
        "SELECT SUM(AdvEngineID), COUNT(DISTINCT UserID) FROM hits WHERE URL LIKE '%google%'",
        "SELECT UserID, URL FROM hits WHERE CounterID = 62 ORDER BY EventTime LIMIT 5",
    ] {
        let q = parse_query(sql).ok().unwrap();
        let mut part = hits(n);
        part.retain_columns(&referenced_columns(&q).unwrap());
        assert!(!part.is_column_loaded("WatchID"));
        assert!(part.check() && part.check_rows(n));
        assert_eq!(answer(&part, sql, n), answer(&whole, sql, n));
    }
}

#[test]
fn totals_are_exact() {
    let n = 300;
    let t = hits(n);
    let column = |name: &str| -> Vec<String> {
        let c = t.column(name).ok().unwrap();
        (0..n).map(|i| ColumnData::cell_to_string(c, i)).collect()
    };
    let widths: i64 = column("ResolutionWidth").iter().map(|s| s.parse::<i64>().unwrap()).sum();
    assert_eq!(answer(&t, "SELECT SUM(ResolutionWidth) FROM hits", n), vec![vec![widths.to_string()]]);
    let mut users = column("UserID");
    users.sort();
    users.dedup();
    assert_eq!(
        answer(&t, "SELECT COUNT(DISTINCT UserID) FROM hits", n),
        vec![vec![users.len().to_string()]]
    );
    let mut phrases = column("SearchPhrase");
    phrases.sort();
    phrases.dedup();
    assert_eq!(
        answer(&t, "SELECT COUNT(DISTINCT SearchPhrase) FROM hits", n),
        vec![vec![phrases.len().to_string()]]
    );
    let adv = column("AdvEngineID").iter().filter(|s| s.as_str() != "0").count();
    assert_eq!(
        answer(&t, "SELECT COUNT(*) FROM hits WHERE AdvEngineID <> 0", n),
        vec![vec![adv.to_string()]]
    );
    let liked = column("URL").iter().filter(|s| s.contains("google")).count();
    assert_eq!(
        answer(&t, "SELECT COUNT(*) FROM hits WHERE URL LIKE '%google%'", n),
        vec![vec![liked.to_string()]]
    );
}

#[test]
fn rows_of_kernels_are_plain_rows() {
    let n = 600;
    for t in [hits(n), made(n, true)] {
        assert!(t.check() && t.check_rows(n));
        for sql in [
            "SELECT EventDate, RegionID, COUNT(*) AS c FROM hits GROUP BY EventDate, RegionID ORDER BY c DESC",
            "SELECT SearchEngineID, ClientIP, COUNT(*) AS c, SUM(IsRefresh), AVG(ResolutionWidth) FROM hits GROUP BY SearchEngineID, ClientIP ORDER BY c DESC",
            "SELECT RegionID, AdvEngineID, MobilePhone, ClientIP - 1, COUNT(*) AS c FROM hits GROUP BY RegionID, AdvEngineID, MobilePhone, ClientIP - 1 ORDER BY c DESC",
            "SELECT ClientIP, ClientIP - 1, ClientIP - 2, ClientIP - 3, COUNT(*) AS c FROM hits GROUP BY ClientIP, ClientIP - 1, ClientIP - 2, ClientIP - 3 ORDER BY c DESC",
            "SELECT UserID, COUNT(*) FROM hits GROUP BY UserID ORDER BY COUNT(*) DESC",
            "SELECT UserID, SearchPhrase, COUNT(*) FROM hits GROUP BY UserID, SearchPhrase ORDER BY COUNT(*) DESC",
            "SELECT UserID, extract(minute FROM EventTime) AS m, SearchPhrase, COUNT(*) FROM hits GROUP BY UserID, m, SearchPhrase ORDER BY COUNT(*) DESC",
            "SELECT MobilePhone, MobilePhoneModel, COUNT(DISTINCT UserID) AS u FROM hits GROUP BY MobilePhone, MobilePhoneModel ORDER BY u DESC",
            "SELECT SearchPhrase, MobilePhoneModel, COUNT(DISTINCT UserID) AS u FROM hits GROUP BY SearchPhrase, MobilePhoneModel ORDER BY u DESC",
            "SELECT SearchPhrase, COUNT(DISTINCT UserID) AS u FROM hits GROUP BY SearchPhrase ORDER BY u DESC",
            "SELECT SearchPhrase, COUNT(DISTINCT WatchID) AS u FROM hits GROUP BY SearchPhrase ORDER BY u DESC",
            "SELECT SearchPhrase, MIN(URL), COUNT(*) AS c FROM hits WHERE SearchPhrase <> '' GROUP BY SearchPhrase ORDER BY c DESC",
            "SELECT AdvEngineID, COUNT(*) AS c FROM hits GROUP BY AdvEngineID ORDER BY c DESC",
            "SELECT RegionID, COUNT(DISTINCT UserID) AS u FROM hits GROUP BY RegionID ORDER BY u DESC",
            "SELECT RegionID, SUM(AdvEngineID), COUNT(*) AS c, AVG(ResolutionWidth), COUNT(DISTINCT UserID) FROM hits GROUP BY RegionID ORDER BY c DESC",
            "SELECT REGEXP_REPLACE(Referer, '^https?://(?:www\\.)?([^/]+)/.*$', '\\1') AS k, AVG(length(Referer)) AS l, COUNT(*) AS c, MIN(Referer) FROM hits GROUP BY k HAVING COUNT(*) > 5 ORDER BY l DESC",
        ] {
            let got = answer(&t, &format!("{} LIMIT 2 OFFSET 1", sql), n);
            let q = parse_query(sql).ok().unwrap();
            let plain = match group_plain(&t, &q, n) {
                Err(e) => panic!("{}", e.message()),
                Ok(Answer::Done(r)) => shown(&r.rows),
                Ok(Answer::Sort(u)) => shown(&u.rows),
            };
            assert!(got.len() >= 2, "{}", sql);
            for row in &got {
                assert!(plain.contains(row), "{}: {:?}", sql, row);
            }
        }
    }
}
