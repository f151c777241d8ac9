use coldrun::error::Error;
use coldrun::sql::query::parse_query;
use coldrun::storage::column::{
    column_type_tag, decode_column_payload_from_bytes, parse_col_type, ColumnData, ColumnType,
};
use coldrun::storage::column_blocks::{
    encode_v1_single_block, BlockEncoding, ColumnBlockMeta, ColumnBlockReader, ColumnBlocksSidecar,
};
use coldrun::storage::column_staging::StreamingColumnWriter;
use coldrun::storage::column_stream::{
    build_sequential_offsets, Int64ColumnScan, Utf8ColumnScan,
};
use coldrun::storage::database::{Database, Manifest};
use coldrun::storage::demo::load_demo_hits;
use coldrun::storage::load::{
    append_array, append_batch, arrow_type_to_column, clickbench_parquet_schema,
    column_from_array, event_time_to_micros, hits_column_schema, logical_column_type,
    prepare_table, schema_from_parquet, ArrayValues, FieldType, Values,
};
use coldrun::storage::pod::{read_pod_at, read_pod_slice, write_pod_vec, PodStorage};
use coldrun::storage::table::{read_column_file, ColumnFile, ColumnMeta, Table, TableMeta};
use coldrun::storage::utf8_col::{read_utf8_offsets, utf8_idx_sidecar, utf8_str_at, Utf8Column};
use coldrun::storage::zones::ZoneIndex;

fn said<T>(r: Result<T, Error>) -> String {
    match r {
        Ok(_) => "fine".to_string(),
        Err(e) => e.message().to_string(),
    }
}

fn cells(c: &ColumnData) -> Vec<String> {
    (0..c.len()).map(|i| ColumnData::cell_to_string(c, i)).collect()
}

fn numbers(v: Vec<i64>) -> ColumnData {
    ColumnData::Int64(PodStorage::from_vec(v))
}

fn texts(v: &[&str]) -> ColumnData {
    let mut c = Utf8Column::new();
    for s in v {
        c.push_str(s);
    }
    ColumnData::Utf8(c)
}

fn file(name: &str, c: &ColumnData) -> ColumnFile {
    let (data, idx) = c.write_file();
    ColumnFile { name: name.to_string(), data, idx }
}

fn kept(f: Result<ColumnData, Error>) -> Vec<String> {
    match f {
        Ok(c) => cells(&c),
        Err(e) => vec![format!("error: {}", e.message())],
    }
}

#[test]
fn plain_bytes_are_little_endian() {
    let mut out: Vec<u8> = Vec::new();
    write_pod_vec::<i32>(&mut out, &[1, -2]);
    assert_eq!(out, vec![1, 0, 0, 0, 0xfe, 0xff, 0xff, 0xff]);
    assert_eq!(read_pod_at::<i32>(&out, 1).ok(), Some(-2));
    assert!(read_pod_at::<i32>(&out, 2).is_err());
    assert_eq!(read_pod_slice::<i16>(&out, 4).ok().unwrap().as_slice(), &[1, 0, -2, -1]);
    assert!(read_pod_slice::<i16>(&out, 5).is_err());
}

#[test]
fn columns_read_back() {
    let columns = vec![
        numbers(vec![i64::MIN, -1, 0, i64::MAX]),
        ColumnData::Int32(PodStorage::from_vec(vec![7, -7])),
        ColumnData::Int16(PodStorage::from_vec(vec![])),
        ColumnData::Date(PodStorage::from_vec(vec![15887])),
        ColumnData::Timestamp(PodStorage::from_vec(vec![1_372_636_800_000_000])),
        texts(&["", "héllo", "tab\there"]),
    ];
    for c in columns {
        let f = file("c", &c);
        assert_eq!(f.idx.is_some(), matches!(c, ColumnData::Utf8(_)));
        let idx = f.idx.as_deref();
        let back = ColumnData::read_file(&f.data, idx).ok().unwrap();
        assert_eq!(back.column_type(), c.column_type());
        assert_eq!(cells(&back), cells(&c));
        assert_eq!(kept(ColumnData::read_file(&f.data, None)), cells(&c));
    }
}

#[test]
fn large_columns_are_compressed() {
    let c = numbers((0..4000).map(|i| i % 5).collect());
    let (data, _) = c.write_file();
    assert!(data.len() < 4000);
    assert_eq!(kept(ColumnData::read_file(&data, None)), cells(&c));
    let (ty, payload) = decode_column_payload_from_bytes(&data).ok().unwrap();
    assert_eq!(ty, ColumnType::Int64);
    assert_eq!(payload.len(), 8 + 4000 * 8);
    let last = data.len() - 1;
    let cut = ColumnData::read_file(&data[..last], None);
    assert!(cut.is_err());
}

#[test]
fn small_columns_stay_plain() {
    let c = numbers(vec![3, 4]);
    let (data, _) = c.write_file();
    let tail = &data[data.len() - 24..];
    assert_eq!(tail[..8], 2u64.to_le_bytes());
    assert_eq!(tail[8..16], 3i64.to_le_bytes());
    assert_eq!(tail[16..], 4i64.to_le_bytes());
}

#[test]
fn damaged_files_are_refused() {
    let (data, _) = numbers(vec![3, 4]).write_file();
    assert!(ColumnData::read_file(&[], None).is_err());
    let mut other = data.clone();
    other[0] = other[0].wrapping_add(1);
    assert!(ColumnData::read_file(&other, None).is_err());
    assert!(ColumnData::read_file(&data[..data.len() - 1], None).is_err());
}

#[test]
fn texts_must_be_utf8() {
    let (mut data, idx) = texts(&["ab"]).write_file();
    let last = data.len() - 1;
    data[last] = 0xff;
    let c = ColumnData::read_file(&data, idx.as_deref()).ok().unwrap();
    assert!(!c.check());
    assert!(ColumnData::read_cells_at(&data, None, &vec![0]).is_err());
    let f = ColumnFile { name: "c".to_string(), data, idx };
    assert!(read_column_file(&f).is_err());
}

#[test]
fn column_tags_read_back() {
    for ty in [
        ColumnType::Int64,
        ColumnType::Int32,
        ColumnType::Int16,
        ColumnType::Utf8,
        ColumnType::Date,
        ColumnType::Timestamp,
    ] {
        assert_eq!(parse_col_type(column_type_tag(ty)).ok(), Some(ty));
    }
    assert!(parse_col_type(200).is_err());
}

#[test]
fn single_cells_are_read() {
    let c = texts(&["a", "bb", "", "dddd"]);
    let (data, idx) = c.write_file();
    let rows = vec![3, 0, 2];
    let want = vec!["dddd".to_string(), "a".to_string(), "".to_string()];
    assert_eq!(ColumnData::read_cells_at(&data, idx.as_deref(), &rows).ok(), Some(want.clone()));
    assert_eq!(ColumnData::read_cells_at(&data, None, &rows).ok(), Some(want));
    assert!(ColumnData::read_cells_at(&data, None, &vec![4]).is_err());
    assert_eq!(ColumnData::read_cells_at(&[], None, &vec![]).ok(), Some(Vec::new()));
}

#[test]
fn values_of_another_type_are_not_pushed() {
    let mut c = numbers(vec![1]);
    assert!(c.push_i64(5).is_ok());
    assert!(c.push_utf8("x").is_err());
    assert!(c.push_i16(1).is_err());
    assert_eq!(cells(&c), vec!["1", "5"]);
    assert!(c.extend_from(&texts(&["x"])).is_err());
    assert!(c.extend_from(&numbers(vec![9])).is_ok());
    assert_eq!(cells(&c), vec!["1", "5", "9"]);
}

#[test]
fn offsets_read_back() {
    let side = utf8_idx_sidecar(&[0, 5, 12]);
    assert_eq!(read_utf8_offsets(&side), Some(vec![0, 5, 12]));
    assert_eq!(read_utf8_offsets(&side[..side.len() - 1]), None);
    let body = [1, 0, 0, 0, b'a', 2, 0, 0, 0, b'b', b'c'];
    assert_eq!(build_sequential_offsets(&body, 2).ok(), Some(vec![0, 5]));
    assert!(build_sequential_offsets(&body, 3).is_err());
    assert_eq!(utf8_str_at(&body, None, 1, 2).ok().map(|s| s.to_string()), Some("bc".to_string()));
    assert_eq!(
        utf8_str_at(&body, Some(&[5]), 0, 1).ok().map(|s| s.to_string()),
        Some("bc".to_string())
    );
}

#[test]
fn columns_are_scanned() {
    let (data, idx) = texts(&["x", "yy"]).write_file();
    let scan = Utf8ColumnScan::open(&data, idx.as_deref()).ok().unwrap();
    assert_eq!(scan.len(), 2);
    assert_eq!(scan.str_at(1), "yy");
    let (data, _) = numbers(vec![5, -6]).write_file();
    let scan = Int64ColumnScan::open(&data).ok().unwrap();
    assert_eq!(scan.as_slice(), &[5, -6]);
    assert_eq!(scan.at(1), -6);
    let (data, _) = ColumnData::Int16(PodStorage::from_vec(vec![1])).write_file();
    assert!(Int64ColumnScan::open(&data).is_err());
}

fn block(id: usize, start: usize, rows: usize) -> ColumnBlockMeta {
    ColumnBlockMeta {
        block_id: id,
        row_start: start,
        row_count: rows,
        compressed_offset: 0,
        compressed_len: 8,
        decompressed_len: 8,
        encoding: BlockEncoding::Raw,
    }
}

fn blocks(rows: usize, blocks: Vec<ColumnBlockMeta>) -> ColumnBlocksSidecar {
    ColumnBlocksSidecar {
        schema_version: 1,
        column_type: ColumnType::Int64,
        row_count: rows,
        block_rows: 4,
        blocks,
    }
}

#[test]
fn block_descriptions_are_checked() {
    assert_eq!(said(blocks(6, vec![block(0, 0, 4), block(1, 4, 2)]).validate()), "fine");
    assert_eq!(said(blocks(0, vec![]).validate()), "fine");
    assert_eq!(
        said(blocks(6, vec![]).validate()),
        "sidecar blocks missing for non-empty column"
    );
    assert_eq!(
        said(blocks(6, vec![block(1, 0, 6)]).validate()),
        "non-contiguous block_id in sidecar"
    );
    assert_eq!(
        said(blocks(6, vec![block(0, 0, 4), block(1, 5, 2)]).validate()),
        "non-contiguous row ranges in sidecar"
    );
    assert_eq!(said(blocks(6, vec![block(0, 0, 0)]).validate()), "block row_count must be > 0");
    let mut empty = block(0, 0, 6);
    empty.compressed_len = 0;
    assert_eq!(
        said(blocks(6, vec![empty]).validate()),
        "compressed_len is zero for non-empty block"
    );
    assert_eq!(
        said(blocks(7, vec![block(0, 0, 6)]).validate()),
        "sidecar row_count does not match block rows"
    );
    let mut s = blocks(6, vec![block(0, 0, 6)]);
    s.block_rows = 0;
    assert_eq!(said(s.validate()), "block_rows must be > 0");
    let mut s = blocks(6, vec![block(0, 0, 6)]);
    s.schema_version = 9;
    assert_eq!(said(s.validate()), "unsupported block sidecar schema version 9");
}

#[test]
fn blocks_are_read() {
    let mut bytes: Vec<u8> = Vec::new();
    bytes.extend_from_slice(b"plain---");
    let packed = lz4_flex::compress_prepend_size(&[7u8; 64]);
    bytes.extend_from_slice(&packed);
    let first = block(0, 0, 4);
    let mut second = block(1, 4, 2);
    second.compressed_offset = 8;
    second.compressed_len = packed.len() as u64;
    second.decompressed_len = 64;
    second.encoding = BlockEncoding::Lz4;
    let reader = ColumnBlockReader::open(bytes, Some(blocks(6, vec![first, second]))).ok().unwrap();
    assert_eq!(reader.row_count(), 6);
    assert_eq!(reader.iter_blocks().len(), 2);
    assert_eq!(reader.read_block(0).ok().unwrap().bytes, b"plain---".to_vec());
    assert_eq!(reader.read_block(1).ok().unwrap().bytes, vec![7u8; 64]);
    assert_eq!(said(reader.read_block(2)), "block_id out of range: 2");
}

#[test]
fn a_column_file_is_one_block() {
    let c = numbers((0..2000).map(|i| i % 3).collect());
    let (data, _) = c.write_file();
    let (_, payload) = decode_column_payload_from_bytes(&data).ok().unwrap();
    let reader = ColumnBlockReader::open(data.clone(), None).ok().unwrap();
    assert_eq!(reader.blocks().len(), 1);
    assert_eq!(reader.row_count(), 2000);
    assert_eq!(reader.read_block(0).ok().unwrap().bytes, payload);
    let described = encode_v1_single_block(&data).ok().unwrap();
    assert_eq!(said(described.validate()), "fine");
    let reader = ColumnBlockReader::open(data, Some(described)).ok().unwrap();
    assert_eq!(reader.read_block(0).ok().unwrap().bytes, payload);
}

fn staged(ty: ColumnType, chunks: &[ColumnData]) -> (Vec<u8>, Option<Vec<u8>>) {
    let mut w = StreamingColumnWriter::new("c", ty);
    let mut body: Vec<u8> = Vec::new();
    let mut offsets: Vec<u8> = Vec::new();
    for c in chunks {
        let s = w.append(c).ok().unwrap();
        body.extend_from_slice(&s.body);
        offsets.extend_from_slice(&s.offsets);
    }
    w.finalize(&body, &offsets).ok().unwrap()
}

#[test]
fn staged_chunks_read_back() {
    let (data, idx) = staged(ColumnType::Utf8, &[texts(&["a", "bb"]), texts(&["", "c"])]);
    assert_eq!(kept(ColumnData::read_file(&data, idx.as_deref())), vec!["a", "bb", "", "c"]);
    assert_eq!(kept(ColumnData::read_file(&data, None)), vec!["a", "bb", "", "c"]);
    let (data, idx) = staged(ColumnType::Int64, &[numbers(vec![1]), numbers(vec![2, 3])]);
    assert_eq!(idx, None);
    assert_eq!(kept(ColumnData::read_file(&data, None)), vec!["1", "2", "3"]);
}

#[test]
fn staging_refuses_faults() {
    let mut w = StreamingColumnWriter::new("c", ColumnType::Utf8);
    assert_eq!(said(w.append(&numbers(vec![1]))), "staging append type mismatch");
    let s = w.append(&texts(&["a"])).ok().unwrap();
    assert!(w.finalize(&s.body, &[]).is_err());
}

#[test]
fn field_types_have_columns() {
    assert_eq!(arrow_type_to_column(FieldType::Int64), Some(ColumnType::Int64));
    assert_eq!(arrow_type_to_column(FieldType::Utf8), Some(ColumnType::Utf8));
    assert_eq!(arrow_type_to_column(FieldType::Date32), Some(ColumnType::Date));
    assert_eq!(arrow_type_to_column(FieldType::Timestamp), Some(ColumnType::Timestamp));
    assert_eq!(arrow_type_to_column(FieldType::Other), None);
    assert_eq!(logical_column_type("EventTime", FieldType::Int64), Some(ColumnType::Timestamp));
    assert_eq!(logical_column_type("UserID", FieldType::Int64), Some(ColumnType::Int64));
    assert_eq!(event_time_to_micros(1_372_636_800), 1_372_636_800_000_000);
}

#[test]
fn schemas_are_picked() {
    let fields = vec![
        ("UserID".to_string(), FieldType::Int64),
        ("Elsewhere".to_string(), FieldType::Int64),
        ("URL".to_string(), FieldType::Utf8),
    ];
    let picked = clickbench_parquet_schema(&fields).ok().unwrap();
    assert_eq!(picked.len(), 2);
    assert!(picked.iter().any(|(n, t)| n == "UserID" && *t == ColumnType::Int64));
    let none = vec![("Elsewhere".to_string(), FieldType::Int64)];
    assert_eq!(
        said(clickbench_parquet_schema(&none)),
        "parquet file has none of the ClickBench hits columns coldrun needs"
    );
    let all = schema_from_parquet(&fields).ok().unwrap();
    assert_eq!(all.len(), 3);
    let odd = vec![("Odd".to_string(), FieldType::Other)];
    assert!(schema_from_parquet(&odd).is_err());
    let names: Vec<&str> = hits_column_schema().iter().map(|(n, _)| *n).collect();
    assert!(names.contains(&"SearchPhrase"));
}

fn array(values: Values) -> ArrayValues {
    ArrayValues { kind: "SomeType".to_string(), values }
}

#[test]
fn arrays_become_columns() {
    let a = array(Values::Int64(vec![Some(4), None]));
    assert_eq!(kept(column_from_array(&a, ColumnType::Int64)), vec!["4", "0"]);
    let a = array(Values::Int32(vec![Some(-4), None]));
    assert_eq!(kept(column_from_array(&a, ColumnType::Int32)), vec!["-4", "0"]);
    let a = array(Values::Int16(vec![Some(3)]));
    assert_eq!(kept(column_from_array(&a, ColumnType::Int16)), vec!["3"]);
    let a = array(Values::Date32(vec![Some(15887)]));
    assert_eq!(kept(column_from_array(&a, ColumnType::Date)), vec!["15887"]);
    let a = array(Values::Text(vec![Some("x".to_string()), None]));
    assert_eq!(kept(column_from_array(&a, ColumnType::Utf8)), vec!["x", ""]);
    let a = array(Values::Other);
    assert!(column_from_array(&a, ColumnType::Utf8).is_err());
    let mut c = numbers(vec![1]);
    let a = array(Values::Int64(vec![Some(2)]));
    assert!(append_array(&mut c, &a, ColumnType::Int64).is_ok());
    assert_eq!(cells(&c), vec!["1", "2"]);
    assert_eq!(
        said(append_array(&mut c, &a, ColumnType::Int16)),
        "column type mismatch during load"
    );
    let mut shared = ColumnData::Int64(PodStorage::Shared(std::sync::Arc::from(vec![1i64])));
    assert_eq!(
        said(append_array(&mut shared, &a, ColumnType::Int64)),
        "cannot push into shared column buffer"
    );
    let none = array(Values::Int64(vec![]));
    assert!(append_array(&mut shared, &none, ColumnType::Int64).is_ok());
    assert_eq!(cells(&shared), vec!["1"]);
}

#[test]
fn batches_are_appended() {
    let schema = vec![
        ("UserID".to_string(), ColumnType::Int64),
        ("URL".to_string(), ColumnType::Utf8),
    ];
    let mut t = prepare_table("hits", &schema);
    let batch = |u: i64, s: &str| {
        vec![
            ("URL".to_string(), array(Values::Text(vec![Some(s.to_string())]))),
            ("UserID".to_string(), array(Values::Int64(vec![Some(u)]))),
        ]
    };
    assert!(append_batch(&mut t, &schema, &batch(1, "a")).is_ok());
    assert!(append_batch(&mut t, &schema, &batch(2, "b")).is_ok());
    assert_eq!(cells(t.column("UserID").ok().unwrap()), vec!["1", "2"]);
    assert_eq!(cells(t.column("URL").ok().unwrap()), vec!["a", "b"]);
    let short = vec![("URL".to_string(), array(Values::Text(vec![])))];
    assert!(append_batch(&mut t, &schema, &short).is_err());
    assert_eq!(cells(t.column("UserID").ok().unwrap()), vec!["1", "2"]);
}

#[test]
fn tables_read_back() {
    let mut t = Table::create(
        "hits",
        vec![
            ColumnMeta { name: "UserID".to_string(), ty: ColumnType::Int64 },
            ColumnMeta { name: "URL".to_string(), ty: ColumnType::Utf8 },
        ],
    );
    t.put_column("UserID", numbers(vec![5, 6]));
    t.put_column("URL", texts(&["u", "v"]));
    t.set_row_count(2);
    let files = t.flush();
    assert_eq!(files.len(), 2);
    let meta = || TableMeta {
        name: "hits".to_string(),
        row_count: 2,
        columns: vec![
            ColumnMeta { name: "UserID".to_string(), ty: ColumnType::Int64 },
            ColumnMeta { name: "URL".to_string(), ty: ColumnType::Utf8 },
        ],
        demo_near_unique: false,
    };
    let back = Table::open(meta(), &files, None).ok().unwrap();
    assert_eq!(cells(back.column("URL").ok().unwrap()), vec!["u", "v"]);
    let only = vec!["UserID".to_string()];
    let mut part = Table::open_columns(meta(), &files, Some(&only), None).ok().unwrap();
    assert!(part.is_column_loaded("UserID"));
    assert!(!part.is_column_loaded("URL"));
    assert!(part.column("URL").is_err());
    let (names, rows) = part.project_rows(&vec![1], &files).ok().unwrap();
    assert_eq!(names, vec!["UserID", "URL"]);
    assert_eq!(rows, vec![vec!["6".to_string(), "v".to_string()]]);
    assert_eq!(back.project_rows(&vec![1], &files).ok().unwrap().1, rows);
    assert_eq!(cells(back.column("UserID").ok().unwrap()), vec!["5", "6"]);
    assert!(part.load_columns(&vec!["URL".to_string()], &files).is_ok());
    assert_eq!(cells(part.column("URL").ok().unwrap()), vec!["u", "v"]);
    part.drop_column("URL");
    assert!(!part.is_column_loaded("URL"));
    part.retain_columns(&vec![]);
    assert!(!part.is_column_loaded("UserID"));
}

fn zoned(n: usize) -> Table {
    let names = ["CounterID", "EventDate", "AdvEngineID", "EventTime"];
    let types =
        [ColumnType::Int32, ColumnType::Date, ColumnType::Int16, ColumnType::Timestamp];
    let metas = names
        .iter()
        .zip(types)
        .map(|(n, ty)| ColumnMeta { name: n.to_string(), ty })
        .collect();
    let mut t = Table::create("hits", metas);
    let counters: Vec<i32> = (0..n).map(|i| (i / 40_000) as i32).collect();
    let dates: Vec<i32> = (0..n).map(|i| 15000 + (i / 10_000) as i32).collect();
    let adv: Vec<i16> = (0..n).map(|i| if i < 10 { 2 } else { 0 }).collect();
    let times: Vec<i64> = (0..n).map(|i| i as i64 * 10).collect();
    t.put_column("CounterID", ColumnData::Int32(PodStorage::from_vec(counters)));
    t.put_column("EventDate", ColumnData::Date(PodStorage::from_vec(dates)));
    t.put_column("AdvEngineID", ColumnData::Int16(PodStorage::from_vec(adv)));
    t.put_column("EventTime", ColumnData::Timestamp(PodStorage::from_vec(times)));
    t.set_row_count(n as u64);
    t
}

#[test]
fn zones_bound_the_rows() {
    let n = 200_000;
    let t = zoned(n);
    let z = ZoneIndex::build(&t).unwrap();
    assert!(z.zones.len() > 1);
    assert_eq!(z.zones[0].min_counter, 0);
    assert_eq!(z.zones[0].adv_nonzero, 10);
    assert_eq!(z.zones[0].max_adv, 2);
    assert_eq!(z.count_adv_nonzero_total(), Some(10));
    assert!(z.event_time_monotonic_in_row_order());
    let mask = z.build_sparse_dashboard_mask(n, 4, 15000, 16000);
    assert_eq!(mask.len(), n);
    assert!(mask[160_000..].iter().all(|b| *b));
    assert!(!mask[0]);
    let mut pruned = vec![true; n];
    z.apply_dashboard_prune(&mut pruned, 4, 15000, 16000);
    assert!(pruned[160_000..].iter().all(|b| *b));
    assert!(!pruned[0]);
    let mut adv = vec![true; n];
    z.apply_adv_ne_zero_prune(&mut adv);
    assert!(adv[..10].iter().all(|b| *b));
    assert!(!adv[n - 1]);
    let empty = Table::create("hits", Vec::new());
    assert!(ZoneIndex::build(&empty).is_none());
}

#[test]
fn zones_are_built_from_files() {
    let mut t = zoned(100);
    let files = t.flush();
    assert!(t.zones().is_some());
    let mut cold = Table::create(
        "hits",
        vec![
            ColumnMeta { name: "CounterID".to_string(), ty: ColumnType::Int32 },
            ColumnMeta { name: "EventDate".to_string(), ty: ColumnType::Date },
            ColumnMeta { name: "AdvEngineID".to_string(), ty: ColumnType::Int16 },
            ColumnMeta { name: "EventTime".to_string(), ty: ColumnType::Timestamp },
        ],
    );
    assert!(cold.build_zones_from_disk(&files).is_ok());
    assert_eq!(cold.zones().unwrap().zones.len(), 1);
    assert!(!cold.is_column_loaded("CounterID"));
}

#[test]
fn demo_rows_follow_their_pattern() {
    let t = load_demo_hits(20);
    assert_eq!(t.row_count(), 20);
    assert!(t.demo_near_unique());
    let day = chrono::NaiveDate::from_ymd_opt(2013, 7, 1).unwrap();
    let start = day.and_hms_opt(0, 0, 0).unwrap().and_utc().timestamp_micros();
    let times = cells(t.column("EventTime").ok().unwrap());
    assert_eq!(times[0], start.to_string());
    assert_eq!(times[0], "1372636800000000");
    assert_eq!(times[3], "1372636980000000");
    let days = cells(load_demo_hits(33).column("EventDate").ok().unwrap());
    assert_eq!((days[0].as_str(), days[30].as_str(), days[32].as_str()), ("15887", "15917", "15888"));
    assert_eq!(t.column("URL").ok().unwrap().len(), 20);
}

#[test]
fn databases_list_their_tables() {
    let mut db = Database::open("/data", None);
    assert!(!db.has_table("hits"));
    assert!(db.open_table("hits").is_err());
    assert!(db.register_table("hits"));
    assert!(!db.register_table("hits"));
    assert!(db.has_table("hits"));
    assert_eq!(db.open_table("hits").ok(), Some(db.table_path("hits")));
    let parsed = parse_query("SELECT COUNT(*) FROM hits WHERE AdvEngineID <> 0").ok().unwrap();
    assert!(db.open_table_for_query("hits", &parsed).is_ok());
    assert!(db.open_table_for_query("other", &parsed).is_err());
    let again = Manifest { version: db.manifest.version, tables: db.manifest.tables.clone() };
    assert!(Database::open("/data", Some(again)).has_table("hits"));
}

#[test]
fn typed_values_are_pushed() {
    let mut c = ColumnData::Int32(PodStorage::from_vec(vec![1]));
    assert!(c.push_i32(2).is_ok());
    assert!(c.push_timestamp(3).is_err());
    let mut d = ColumnData::Date(PodStorage::from_vec(vec![]));
    assert!(d.push_i32(15887).is_ok());
    let mut s = ColumnData::Timestamp(PodStorage::from_vec(vec![]));
    assert!(s.push_timestamp(7).is_ok());
    assert_eq!(cells(&c), vec!["1", "2"]);
    assert_eq!(cells(&d), vec!["15887"]);
    assert_eq!(cells(&s), vec!["7"]);
}

#[test]
fn absent_columns_are_listed() {
    let mut t = Table::create(
        "hits",
        vec![
            ColumnMeta { name: "UserID".to_string(), ty: ColumnType::Int64 },
            ColumnMeta { name: "URL".to_string(), ty: ColumnType::Utf8 },
        ],
    );
    t.put_column("URL", texts(&["u"]));
    assert_eq!(t.unload_columns(), vec!["UserID"]);
    assert_eq!(t.column_type("UserID"), Some(ColumnType::Int64));
    assert_eq!(t.column_type("Other"), None);
}

#[test]
fn overlong_lengths_are_refused() {
    let mut body: Vec<u8> = vec![64, 0, 0, 0, 0xF0];
    body.resize(body.len() + 16_843_010, 0xFF);
    assert_eq!(
        said(BlockEncoding::Lz4.decode(&body)),
        "lz4 block decompress: a length is too long"
    );
    let mut file: Vec<u8> = b"CRUN".to_vec();
    file.extend_from_slice(&[1, column_type_tag(ColumnType::Int64), 1]);
    let head = numbers(vec![7; 2000]).write_file().0[..7].to_vec();
    assert_eq!(file, head);
    file.extend_from_slice(&body);
    assert_eq!(
        said(decode_column_payload_from_bytes(&file)),
        "lz4 decompress: a length is too long"
    );
}
