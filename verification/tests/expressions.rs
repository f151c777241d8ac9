use coldrun::error::Error;
use coldrun::exec::filter;
use coldrun::exec::filter_fast;
use coldrun::exec::having::{having_can_match, parse_having_count_gt};
use coldrun::exec::mask_util::{for_each_selected, mask_is_sparse, selected_indices};
use coldrun::exec::simd_count::{
    count_i16_ne_zero, count_i32_ne_zero, count_i64_ne_zero, count_utf8_nonempty,
};
use coldrun::expr::eval::{
    compare_i64, compare_str, eval_bool, eval_group_key, eval_i64, eval_string, is_date_string,
    is_string_value, value_to_i64, value_to_string,
};
use coldrun::expr::matching::{
    choose_host, eval_like_match, pattern_asks_host, referer_host, regexp_replace, str_contains,
};
use coldrun::expr::time::{
    event_time_minute_of_hour, finish_date, finish_timestamp, format_date_days,
    format_timestamp_micros, parse_date_lit,
};
use coldrun::protocol::{join_tabs, parse_timing_footer, print_result, request_text};
use coldrun::sql::ast::{BinaryOperator, Expr, Literal, ParsedQuery, SelectItemKind};
use coldrun::sql::columns::{referenced_columns, referenced_columns_for_sql};
use coldrun::sql::query::{parse_query, projection_label};
use coldrun::sql::same::exprs_alike;
use coldrun::storage::column::{ColumnData, ColumnType};
use coldrun::storage::pod::PodStorage;
use coldrun::storage::table::{ColumnMeta, Table};
use coldrun::storage::utf8_col::Utf8Column;
use coldrun::text::{int_text, parse_i64, parse_u64, str_less};

fn said<T>(r: Result<T, Error>) -> String {
    match r {
        Ok(_) => "fine".to_string(),
        Err(e) => e.message().to_string(),
    }
}

fn parsed(sql: &str) -> ParsedQuery {
    match parse_query(sql) {
        Ok(p) => p,
        Err(e) => panic!("{}", e.message()),
    }
}

fn condition(text: &str) -> Expr {
    parsed(&format!("SELECT COUNT(*) FROM hits WHERE {}", text)).where_expr.unwrap()
}

fn table() -> Table {
    let declared = [
        ("UserID", ColumnType::Int64),
        ("CounterID", ColumnType::Int32),
        ("AdvEngineID", ColumnType::Int16),
        ("URL", ColumnType::Utf8),
        ("EventDate", ColumnType::Date),
        ("EventTime", ColumnType::Timestamp),
    ];
    let metas =
        declared.iter().map(|(n, ty)| ColumnMeta { name: n.to_string(), ty: *ty }).collect();
    let mut t = Table::create("hits", metas);
    t.put_column("UserID", ColumnData::Int64(PodStorage::from_vec(vec![7, -7, i64::MAX])));
    t.put_column("CounterID", ColumnData::Int32(PodStorage::from_vec(vec![62, 63, 62])));
    t.put_column("AdvEngineID", ColumnData::Int16(PodStorage::from_vec(vec![0, 2, 3])));
    let mut urls = Utf8Column::new();
    urls.push_str("https://www.google.com/x");
    urls.push_str("");
    urls.push_str("plain");
    t.put_column("URL", ColumnData::Utf8(urls));
    t.put_column("EventDate", ColumnData::Date(PodStorage::from_vec(vec![15887, 15888, 15889])));
    t.put_column(
        "EventTime",
        ColumnData::Timestamp(PodStorage::from_vec(vec![
            1_372_636_800_000_000,
            1_372_636_800_000_000 + 125_000_000,
            1_372_636_800_000_000 + 3_725_000_000,
        ])),
    );
    t.set_row_count(3);
    t
}

fn holds(text: &str) -> Vec<bool> {
    let t = table();
    assert!(t.check() && t.check_rows(3));
    let e = condition(text);
    (0..3).map(|i| eval_bool(&t, &e, i).ok().unwrap()).collect()
}

#[test]
fn empty_string_literal_is_quoted() {
    let sql = "SELECT 1 FROM hits WHERE MobilePhoneModel <> ''";
    let q = parsed(sql);
    let Expr::BinaryOp { right, .. } = q.where_expr.as_ref().unwrap() else {
        panic!("no where");
    };
    let Expr::Value(v) = right.as_ref() else {
        panic!("right not value");
    };
    assert!(is_string_value(v));
    assert_eq!(value_to_string(v).ok().unwrap(), "");
}

#[test]
fn literals_have_values() {
    assert_eq!(value_to_i64(&Literal::Number("-12".to_string())).ok(), Some(-12));
    assert!(value_to_i64(&Literal::Number("x".to_string())).is_err());
    assert!(value_to_i64(&Literal::Other).is_err());
    assert!(is_date_string(&Literal::SingleQuotedString("2013-07-01".to_string())));
    assert!(!is_date_string(&Literal::SingleQuotedString("hello".to_string())));
    assert!(!is_string_value(&Literal::Number("1".to_string())));
    assert!(value_to_string(&Literal::Other).is_err());
}

#[test]
fn conditions_are_decided() {
    assert_eq!(holds("UserID = 7"), vec![true, false, false]);
    assert_eq!(holds("UserID <> 7"), vec![false, true, true]);
    assert_eq!(holds("UserID > 0 AND AdvEngineID >= 3"), vec![false, false, true]);
    assert_eq!(holds("UserID < 0 OR CounterID = 62"), vec![true, true, true]);
    assert_eq!(holds("NOT (UserID = 7)"), vec![false, true, true]);
    assert_eq!(holds("URL <> ''"), vec![true, false, true]);
    assert_eq!(holds("URL LIKE '%google%'"), vec![true, false, false]);
    assert_eq!(holds("URL NOT LIKE '%google%'"), vec![false, true, true]);
    assert_eq!(holds("URL ILIKE '%GOOGLE%'"), vec![true, false, false]);
    assert_eq!(holds("AdvEngineID IN (2, 3)"), vec![false, true, true]);
    assert_eq!(holds("AdvEngineID NOT IN (2, 3)"), vec![true, false, false]);
    assert_eq!(holds("EventDate >= '2013-07-02'"), vec![false, true, true]);
    assert_eq!(holds("EventDate = '2013-07-01'"), vec![true, false, false]);
}

#[test]
fn conditions_that_fail() {
    let t = table();
    let absent = condition("Nowhere = 1");
    assert!(eval_bool(&t, &absent, 0).is_err());
    let date = condition("EventDate >= '2013-13-45'");
    assert!(eval_bool(&t, &date, 0).is_err());
}

fn selected(text: &str) -> Expr {
    let mut q = parsed(&format!("SELECT {} FROM hits", text));
    let p = q.select_items.remove(0);
    match p.kind {
        SelectItemKind::Column(e) | SelectItemKind::Other(e) => e,
        _ => panic!("an aggregate"),
    }
}

#[test]
fn expressions_have_values() {
    let t = table();
    assert_eq!(eval_i64(&t, &selected("UserID - 3"), 0).ok(), Some(4));
    assert_eq!(eval_i64(&t, &selected("AdvEngineID + 40"), 2).ok(), Some(43));
    assert_eq!(eval_i64(&t, &selected("UserID + 1"), 2).ok(), Some(i64::MAX));
    assert_eq!(eval_i64(&t, &selected("UserID / 0"), 0).ok(), Some(0));
    assert_eq!(eval_string(&t, &selected("URL"), 2).ok(), Some("plain".to_string()));
    assert_eq!(
        eval_i64(&t, &selected("extract(minute FROM EventTime)"), 1).ok(),
        Some(2)
    );
    assert_eq!(
        eval_group_key(
            &t,
            &selected("CASE WHEN AdvEngineID = 0 THEN URL ELSE '' END"),
            0
        )
        .ok(),
        Some("https://www.google.com/x".to_string())
    );
    assert_eq!(
        eval_string(&t, &selected("CASE WHEN AdvEngineID = 0 THEN URL ELSE '' END"), 2).ok(),
        Some("".to_string())
    );
    assert_eq!(eval_group_key(&t, &selected("EventDate"), 1).ok(), Some("2013-07-02".to_string()));
    assert_eq!(
        eval_group_key(&t, &selected("DATE_TRUNC('minute', EventTime)"), 1).ok(),
        Some("2013-06-30 17:02:00".to_string())
    );
    assert_eq!(eval_group_key(&t, &selected("UserID"), 1).ok(), Some("-7".to_string()));
}

#[test]
fn values_are_compared() {
    assert_eq!(compare_i64(1, 2, &BinaryOperator::Lt).ok(), Some(true));
    assert_eq!(compare_i64(2, 2, &BinaryOperator::NotEq).ok(), Some(false));
    assert!(compare_i64(2, 2, &BinaryOperator::Plus).is_err());
    assert_eq!(compare_str("a", "b", &BinaryOperator::LtEq).ok(), Some(true));
    assert_eq!(compare_str("a", "B", &BinaryOperator::Lt).ok(), Some(false));
    assert!(str_less("ab", "abc"));
    assert!(!str_less("b", "abc"));
}

#[test]
fn patterns_match() {
    assert!(str_contains("haystack", "st"));
    assert!(!str_contains("haystack", "xyz"));
    assert!(eval_like_match("https://google.com", "%google%"));
    assert!(!eval_like_match("https://Google.com", "%google%"));
    assert!(eval_like_match("abc", "a%"));
    assert!(eval_like_match("abc", "%c"));
    assert!(eval_like_match("abc", "abc"));
    assert!(!eval_like_match("abc", "b%"));
}

#[test]
fn hosts_are_found() {
    assert_eq!(referer_host("https://www.example.com/a/b"), "example.com");
    assert_eq!(referer_host("http://example.org/"), "example.org");
    assert_eq!(referer_host("nothing"), "nothing");
    assert_eq!(choose_host("u", Ok(Some("h".to_string()))), "h");
    assert_eq!(choose_host("u", Ok(None)), "u");
    assert!(pattern_asks_host("^https?://(?:www\\.)?([^/]+)/.*$"));
    assert_eq!(regexp_replace("b+", "abbc", "x").ok(), Some("axc".to_string()));
    assert!(regexp_replace("(", "a", "x").is_err());
}

#[test]
fn dates_are_read_and_shown() {
    assert_eq!(parse_date_lit("1970-01-02").ok(), Some(1));
    assert_eq!(parse_date_lit("2013-07-01").ok(), Some(15887));
    assert!(parse_date_lit("2013-13-01").is_err());
    assert_eq!(finish_date("d", Ok(5)).ok(), Some(5));
    assert!(finish_date("d", Err("bad".to_string())).is_err());
    assert_eq!(format_date_days(15887), "2013-07-01");
    assert_eq!(format_date_days(-1), "1969-12-31");
    assert_eq!(format_timestamp_micros(1_372_636_800_000_000), "2013-07-01 00:00:00");
    assert_eq!(finish_timestamp(5, Some("x".to_string())), "x");
    assert_eq!(finish_timestamp(5, None), "5");
    assert_eq!(event_time_minute_of_hour(125_000_000), 2);
    assert_eq!(event_time_minute_of_hour(3_600_000_000), 0);
}

#[test]
fn queries_are_taken_apart() {
    let q = parsed(
        "SELECT RegionID AS r, SUM(AdvEngineID), COUNT(DISTINCT UserID) FROM hits \
         WHERE URL <> '' GROUP BY RegionID HAVING COUNT(*) > 5 ORDER BY r DESC LIMIT 7 OFFSET 3",
    );
    assert_eq!(q.from_table, "hits");
    assert_eq!(q.select_items.len(), 3);
    assert!(matches!(q.select_items[1].kind, SelectItemKind::Sum(_)));
    assert!(matches!(q.select_items[2].kind, SelectItemKind::CountDistinct(_)));
    assert_eq!(projection_label(&q.select_items[0]), "r");
    assert_eq!(q.group_by.len(), 1);
    assert_eq!(q.order_by.len(), 1);
    assert!(q.order_by[0].1);
    assert_eq!(q.limit, Some(7));
    assert_eq!(q.offset, Some(3));
    assert_eq!(parse_having_count_gt(&q.having), Some(5));
    assert!(!having_can_match(q.having.as_ref().unwrap(), 5));
    assert!(having_can_match(q.having.as_ref().unwrap(), 6));
    let star = parsed("SELECT * FROM hits WHERE URL LIKE '%google%' ORDER BY EventTime LIMIT 10");
    assert!(star.select_all);
    assert!(exprs_alike(&condition("UserID = 7"), &condition("UserID = 7")));
    assert!(!exprs_alike(&condition("UserID = 7"), &condition("UserID = 8")));
}

#[test]
fn bad_queries_are_refused() {
    assert_ne!(said(parse_query("SELEC")), "fine");
    assert_ne!(said(parse_query("DELETE FROM hits")), "fine");
    assert_ne!(said(parse_query("")), "fine");
}

#[test]
fn referenced_columns_are_listed() {
    let q = parsed("SELECT UserID, COUNT(*) FROM hits WHERE URL <> '' GROUP BY UserID");
    let mut names = referenced_columns(&q).unwrap();
    names.sort();
    assert_eq!(names, vec!["URL", "UserID"]);
    assert_eq!(referenced_columns_for_sql("SELECT * FROM hits").ok(), Some(None));
}

#[test]
fn quick_masks_agree_with_plain_ones() {
    let t = table();
    for text in [
        "UserID = 7",
        "AdvEngineID <> 0",
        "URL <> '' AND CounterID = 62",
        "URL LIKE '%google%' OR AdvEngineID = 2",
        "AdvEngineID IN (0, 3)",
        "EventDate >= '2013-07-02' AND EventDate <= '2013-07-03' AND CounterID = 62",
    ] {
        let w = Some(condition(text));
        let plain = filter::build_filter_mask(&t, &w, 3).ok().unwrap();
        let quick = filter_fast::build_filter_mask(&t, &w, 3).ok().unwrap();
        assert_eq!(plain, holds(text));
        assert_eq!(quick, plain);
    }
    assert_eq!(filter::build_filter_mask(&t, &None, 3).ok(), Some(vec![true; 3]));
    let range = condition("CounterID = 62 AND EventDate >= '2013-07-01' AND EventDate <= '2013-07-31'");
    assert_eq!(filter_fast::extract_counter_date_range(&range), Some((62, 15887, 15917)));
}

#[test]
fn masks_are_walked() {
    let mask = [true, false, true];
    assert_eq!(selected_indices(&mask), vec![0, 2]);
    assert_eq!(for_each_selected(&mask, 3), vec![0, 2]);
    let mut few = vec![false; 1000];
    few[5] = true;
    assert!(mask_is_sparse(&few));
    assert!(!mask_is_sparse(&vec![true; 1000]));
}

#[test]
fn values_other_than_zero_are_counted() {
    assert_eq!(count_i16_ne_zero(&[0, 1, -1]), 2);
    assert_eq!(count_i32_ne_zero(&[0; 40]), 0);
    assert_eq!(count_i64_ne_zero(&[5; 40]), 40);
    assert_eq!(count_utf8_nonempty(&["".to_string(), "a".to_string()]), 1);
}

#[test]
fn numbers_are_read_and_shown() {
    assert_eq!(int_text(-170), "-170");
    assert_eq!(int_text(0), "0");
    assert_eq!(parse_i64("-9223372036854775808"), Some(i64::MIN));
    assert_eq!(parse_i64("9223372036854775808"), None);
    assert_eq!(parse_i64(""), None);
    assert_eq!(parse_u64("18446744073709551615"), Some(u64::MAX));
    assert_eq!(parse_u64("-1"), None);
}

#[test]
fn results_are_printed() {
    let columns = vec!["a".to_string(), "b".to_string()];
    let rows = vec![vec!["1".to_string(), "x".to_string()]];
    assert_eq!(join_tabs(&columns), "a\tb");
    assert_eq!(print_result(&columns, &rows), "a\tb\n1\tx\n");
    assert_eq!(print_result(&Vec::new(), &rows), "1\tx\n");
    assert_eq!(request_text("SELECT 1"), "SELECT 1\n");
    assert_eq!(request_text("SELECT 1\n"), "SELECT 1\n");
}

#[test]
fn footers_are_read() {
    let shown: String = parse_timing_footer("-- 0.123s").unwrap().into_iter().collect();
    assert_eq!(shown, "0.123");
    assert_eq!(parse_timing_footer("0.123s"), None);
    assert_eq!(parse_timing_footer("-- 0.123"), None);
}

#[test]
fn function_names_are_told_apart() {
    let q = parsed("SELECT count(*), Sum(AdvEngineID) FROM hits");
    assert!(matches!(q.select_items[0].kind, SelectItemKind::CountAll));
    assert!(matches!(q.select_items[1].kind, SelectItemKind::Sum(_)));
    let quoted = parse_query("SELECT \"COUNT\"(*) FROM hits");
    let counts = match quoted {
        Ok(q) => matches!(q.select_items[0].kind, SelectItemKind::CountAll),
        Err(_) => false,
    };
    assert!(!counts);
}
