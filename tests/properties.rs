use std::sync::Arc;

use daft_ingest::bulk::collect_in_order;
use daft_ingest::cell::{check_float_text, parse_bool, parse_i64, Value};
use daft_ingest::error::Error;
use daft_ingest::expr::{filter_table, CmpOp, Predicate};
use daft_ingest::options::{str_delimiter_to_byte, CsvConvertOptions, CsvParseOptions, CsvReadOptions};
use daft_ingest::partition::{MicroPartition, TableState};
use daft_ingest::reader::read_csv;
use daft_ingest::records::RecordReader;
use daft_ingest::schema::{fields_to_projection_indices, DataType, Field, Schema};
use daft_ingest::reader::{read_batch, resolve_fields};
use daft_ingest::sizing::{batch_rows, isqrt, BatchPlanner, RowSizeEstimate};
use daft_ingest::stats::{statistics_refute, ColumnRange, TableStatistics};
use daft_ingest::table::Table;

fn sample() -> Vec<u8> {
    let mut s = String::from("id,name,score\n");
    for i in 0..37 {
        s.push_str(&format!("{},\"n,{}\",{}.25\n", i, i, i * 3));
    }
    s.into_bytes()
}

fn fingerprint(t: &Table) -> Vec<String> {
    let mut out = Vec::new();
    for f in t.schema.fields.iter() {
        out.push(format!("{}:{:?}", f.name, f.dtype));
    }
    out.push(format!("rows={}", t.len()));
    for c in t.columns.iter() {
        out.push(format!("{:?}", c));
    }
    out
}

fn names(v: &[&str]) -> Vec<String> {
    v.iter().map(|s| s.to_string()).collect()
}

fn int_table(values: &[i64]) -> Table {
    Table {
        schema: Schema { fields: vec![Field::new("x".to_string(), DataType::Int64)] },
        columns: vec![values.iter().map(|v| Value::Int64(*v)).collect()],
        num_rows: values.len(),
    }
}

fn pred(op: CmpOp, value: i64) -> Predicate {
    Predicate { column: "x".to_string(), op, value }
}

fn int_values(t: &Table) -> Vec<i64> {
    t.columns[0]
        .iter()
        .map(|v| match v {
            Value::Int64(i) => *i,
            other => panic!("unexpected {:?}", other),
        })
        .collect()
}

#[test]
fn limit_yields_min_of_limit_and_rows() {
    for (limit, expected) in [(0usize, 0usize), (5, 5), (37, 37), (137, 37)] {
        let t = read_csv(sample(), Some(CsvConvertOptions::default().with_limit(Some(limit))), None, None).unwrap();
        assert_eq!(t.len(), expected);
        assert_eq!(t.schema.fields.len(), 3);
    }
}

#[test]
fn batch_sizes_do_not_change_the_table() {
    let reference = fingerprint(&read_csv(sample(), None, None, Some(CsvReadOptions::new(None, Some(1 << 30)))).unwrap());
    for (b, c) in [(Some(1), None), (None, Some(1)), (Some(7), Some(3)), (Some(1 << 20), None), (None, None)] {
        let t = read_csv(sample(), None, None, Some(CsvReadOptions::new(b, c))).unwrap();
        assert_eq!(fingerprint(&t), reference);
    }
}

#[test]
fn projection_keeps_requested_order() {
    let t = read_csv(
        sample(),
        Some(CsvConvertOptions::default().with_include_columns(Some(names(&["score", "id"])))),
        None,
        None,
    )
    .unwrap();
    assert_eq!(t.schema.fields[0].name, "score");
    assert_eq!(t.schema.fields[1].name, "id");
    assert!(matches!(t.columns[1][3], Value::Int64(3)));
    let fields = vec![
        Field::new("a".to_string(), DataType::Int64),
        Field::new("b".to_string(), DataType::Int64),
        Field::new("c".to_string(), DataType::Int64),
    ];
    assert_eq!(fields_to_projection_indices(&fields, &Some(names(&["c", "a", "b"]))).unwrap(), vec![2, 0, 1]);
    assert_eq!(fields_to_projection_indices(&fields, &None).unwrap(), vec![0, 1, 2]);
    assert!(matches!(
        fields_to_projection_indices(&fields, &Some(names(&["z"]))),
        Err(Error::ColumnNotFound { .. })
    ));
}

#[test]
fn unknown_projected_column_is_an_error() {
    let r = read_csv(sample(), Some(CsvConvertOptions::default().with_include_columns(Some(names(&["nope"])))), None, None);
    assert!(matches!(r, Err(Error::ColumnNotFound { .. })));
}

#[test]
fn header_only_gives_empty_table() {
    let t = read_csv(b"a,b,c\n".to_vec(), None, None, None).unwrap();
    assert_eq!(t.len(), 0);
    assert_eq!(t.schema.fields.len(), 3);
    assert_eq!(t.schema.fields[2].name, "c");
    let declared = Schema { fields: vec![Field::new("a".to_string(), DataType::Int64), Field::new("b".to_string(), DataType::Utf8)] };
    let t = read_csv(b"a,b\n".to_vec(), Some(CsvConvertOptions::default().with_schema(Some(declared))), None, None).unwrap();
    assert_eq!(t.len(), 0);
    assert_eq!(t.schema.fields[0].dtype, DataType::Int64);
    let t = read_csv(Vec::new(), None, None, None).unwrap();
    assert_eq!(t.len(), 0);
    assert_eq!(t.num_columns(), 0);
}

#[test]
fn mismatch_after_limit_is_not_read() {
    let data = b"a,b\n1,2\n3,4\n5\n".to_vec();
    let declared = Schema { fields: vec![Field::new("a".to_string(), DataType::Int64), Field::new("b".to_string(), DataType::Int64)] };
    let t = read_csv(data.clone(), Some(CsvConvertOptions::new(Some(2), None, None, Some(declared))), None, None).unwrap();
    assert_eq!(t.len(), 2);
    assert!(matches!(read_csv(data, None, None, None), Err(Error::FieldCountMismatch { expected: 2, found: 1 })));
}

#[test]
fn quoted_fields_keep_delimiters_and_quotes() {
    let mut r = RecordReader::new(b"\"a,b\",\"say \"\"hi\"\"\"\r\nx,\n\n".to_vec(), b',');
    let rows = r.read_rows(10).unwrap();
    assert_eq!(rows.len(), 2);
    assert_eq!(rows[0], vec![b"a,b".to_vec(), b"say \"hi\"".to_vec()]);
    assert_eq!(rows[1], vec![b"x".to_vec(), b"".to_vec()]);
    assert_eq!(r.read_rows(10).unwrap().len(), 0);
}

#[test]
fn no_header_names_are_numbered() {
    let t = read_csv(b"1,true\n2,FALSE\n".to_vec(), None, Some(CsvParseOptions::new(false, ",").unwrap()), None).unwrap();
    assert_eq!(t.schema.fields[0].name, "column_1");
    assert_eq!(t.schema.fields[1].name, "column_2");
    assert_eq!(t.schema.fields[0].dtype, DataType::Int64);
    assert_eq!(t.schema.fields[1].dtype, DataType::Boolean);
    assert!(matches!(t.columns[1][1], Value::Boolean(false)));
}

#[test]
fn renaming_with_fewer_names_drops_fields() {
    let t = read_csv(
        b"a,b,c\n1,2,3\n".to_vec(),
        Some(CsvConvertOptions::default().with_column_names(Some(names(&["x", "y"])))),
        None,
        None,
    )
    .unwrap();
    assert_eq!(t.schema.fields.len(), 2);
    assert_eq!(t.schema.fields[1].name, "y");
}

#[test]
fn cell_parsers() {
    assert_eq!(parse_i64(b"-9223372036854775808"), Some(i64::MIN));
    assert_eq!(parse_i64(b"9223372036854775807"), Some(i64::MAX));
    assert_eq!(parse_i64(b"9223372036854775808"), None);
    assert_eq!(parse_i64(b"+42"), Some(42));
    assert_eq!(parse_i64(b"-"), None);
    assert_eq!(parse_i64(b"4x"), None);
    assert!(check_float_text(b"1.5e-3"));
    assert!(check_float_text(b".2"));
    assert!(check_float_text(b"-7."));
    assert!(!check_float_text(b"."));
    assert!(!check_float_text(b"1e"));
    assert!(!check_float_text(b"abc"));
    assert_eq!(parse_bool(b"TrUe"), Some(true));
    assert_eq!(parse_bool(b"false"), Some(false));
    assert_eq!(parse_bool(b"yes"), None);
}

#[test]
fn invalid_utf8_text_is_null() {
    let declared = Schema { fields: vec![Field::new("s".to_string(), DataType::Utf8)] };
    let t = read_csv(b"s\nok\n\xff\xfe\n".to_vec(), Some(CsvConvertOptions::default().with_schema(Some(declared))), None, None).unwrap();
    assert!(matches!(t.columns[0][0], Value::Utf8(_)));
    assert!(matches!(t.columns[0][1], Value::Null));
}

#[test]
fn option_defaults_and_sizes() {
    let p = CsvParseOptions::default();
    assert!(p.has_header);
    assert_eq!(p.delimiter, b',');
    assert_eq!(CsvReadOptions::resolve_buffer_size(None), 512 * 1024);
    assert_eq!(CsvReadOptions::resolve_chunk_size(None), 64 * 1024);
    assert_eq!(CsvReadOptions::resolve_buffer_size(Some(CsvReadOptions::new(None, Some(100)))), 800);
    assert_eq!(CsvReadOptions::resolve_chunk_size(Some(CsvReadOptions::new(Some(128), None))), 16);
    assert_eq!(CsvReadOptions::resolve_chunk_size(Some(CsvReadOptions::new(Some(128), Some(3)))), 3);
    assert_eq!(CsvReadOptions::resolve_buffer_size(Some(CsvReadOptions::new(None, Some(usize::MAX)))), usize::MAX);
    assert_eq!(str_delimiter_to_byte("|").unwrap(), b'|');
    assert!(matches!(str_delimiter_to_byte("||"), Err(Error::InvalidDelimiter { .. })));
    assert!(matches!(CsvParseOptions::new(true, ""), Err(Error::InvalidDelimiter { .. })));
    let c = CsvConvertOptions::default().with_limit(Some(3)).with_include_columns(Some(names(&["a"])));
    assert_eq!(c.get_limit(), Some(3));
    assert_eq!(c.get_include_columns(), Some(names(&["a"])));
    assert_eq!(c.get_column_names(), None);
    assert!(c.get_schema().is_none());
}

#[test]
fn batch_sizing() {
    assert_eq!(batch_rows(64 * 1024, 200, usize::MAX), 327);
    assert_eq!(batch_rows(100, 200, usize::MAX), 8);
    assert_eq!(batch_rows(100, 200, 3), 3);
    assert_eq!(batch_rows(100, 0, usize::MAX), 100);
    assert_eq!(isqrt(0), 0);
    assert_eq!(isqrt(15), 3);
    assert_eq!(isqrt(16), 4);
    assert_eq!(isqrt(u64::MAX), 4294967295);
}

#[test]
fn welford_estimate() {
    let mut e = RowSizeEstimate::new(None, None);
    assert_eq!(e.mean, 200);
    assert_eq!(e.record_buffer_size(), 220);
    for x in [10u64, 20, 30] {
        e.observe(x);
    }
    assert_eq!(e.count, 3);
    assert_eq!(e.mean, 20);
    assert_eq!(e.m2, 200);
    assert_eq!(e.stddev(), 10);
    assert_eq!(e.record_buffer_size(), 30);
}

#[test]
fn filter_table_keeps_passing_rows() {
    let t = int_table(&[5, 1, 9, 3, 7]);
    let f = filter_table(&t, &vec![pred(CmpOp::Gt, 2), pred(CmpOp::LtEq, 7)]).unwrap();
    assert_eq!(int_values(&f), vec![5, 3, 7]);
    assert_eq!(f.len(), 3);
    let bad = filter_table(&t, &vec![Predicate { column: "y".to_string(), op: CmpOp::Eq, value: 1 }]);
    assert!(matches!(bad, Err(Error::ColumnNotFound { .. })));
}

#[test]
fn statistics_refutation() {
    let fields = vec![Field::new("x".to_string(), DataType::Int64)];
    let stats = TableStatistics { columns: vec![Some(ColumnRange { min: 10, max: 20 })] };
    assert!(statistics_refute(&fields, &vec![pred(CmpOp::Gt, 20)], &stats));
    assert!(statistics_refute(&fields, &vec![pred(CmpOp::Lt, 10)], &stats));
    assert!(statistics_refute(&fields, &vec![pred(CmpOp::Eq, 5)], &stats));
    assert!(!statistics_refute(&fields, &vec![pred(CmpOp::Eq, 15)], &stats));
    assert!(!statistics_refute(&fields, &vec![pred(CmpOp::GtEq, 20)], &stats));
    assert!(statistics_refute(&fields, &vec![pred(CmpOp::GtEq, 0), pred(CmpOp::LtEq, 9)], &stats));
}

fn deferred(stats: Option<TableStatistics>) -> MicroPartition {
    let schema = Schema { fields: vec![Field::new("x".to_string(), DataType::Int64)] };
    let scan = MicroPartition::read_csv_deferred(names(&["mem://a.csv"]), None, None, Schema::empty(), None, true);
    let plan = scan.deferred_params().expect("deferred").with_filters(&vec![]);
    MicroPartition::new(schema, TableState::Unloaded(plan), stats)
}

#[test]
fn empty_filter_gives_empty_partition() {
    let d = deferred(None);
    let f = d.filter(&vec![]).unwrap();
    assert!(f.is_loaded());
    assert_eq!(f.cached_tables().unwrap().len(), 0);
    assert_eq!(f.column_names(), names(&["x"]));
    assert!(!d.is_loaded());
    let m = MicroPartition::from_tables(vec![int_table(&[1, 2])]);
    let f = m.filter(&vec![]).unwrap();
    assert_eq!(f.cached_tables().unwrap().len(), 0);
    assert_eq!(f.column_names(), names(&["x"]));
}

#[test]
fn statistics_prune_without_reading() {
    let reads = std::cell::Cell::new(0usize);
    let read = || {
        reads.set(reads.get() + 1);
        Ok(vec![int_table(&[1, 2, 3])])
    };
    let d = deferred(Some(TableStatistics { columns: vec![Some(ColumnRange { min: 0, max: 9 })] }));
    let mut f = d.filter(&vec![pred(CmpOp::Gt, 100)]).unwrap();
    assert!(f.is_loaded());
    let input = if f.is_loaded() { Ok(Vec::new()) } else { read() };
    let tables = f.tables_or_read(input).unwrap();
    assert_eq!(tables.len(), 0);
    assert_eq!(f.column_names(), names(&["x"]));
    // A predicate the statistics cannot refute is absorbed into the plan.
    let mut g = d.filter(&vec![pred(CmpOp::Gt, 5)]).unwrap();
    assert!(!g.is_loaded());
    assert_eq!(g.deferred_params().unwrap().filters.len(), 1);
    assert_eq!(reads.get(), 0);
    let input = if g.is_loaded() { Ok(Vec::new()) } else { read() };
    let tables = g.tables_or_read(input).unwrap();
    assert_eq!(tables[0].len(), 0);
    assert_eq!(reads.get(), 1);
}

#[test]
fn materialization_is_cached() {
    let d = deferred(None);
    let mut g = d.filter(&vec![pred(CmpOp::Gt, 2)]).unwrap();
    let mut reads = 0;
    let mut reader = || {
        reads += 1;
        Ok(vec![int_table(&[1, 3, 5])])
    };
    let first = g.tables_or_read(reader()).unwrap();
    assert_eq!(int_values(&first[0]), vec![3, 5]);
    let second = g.tables_or_read(Err(Error::WorkerHandoff)).unwrap();
    assert!(Arc::ptr_eq(&first, &second));
    assert_eq!(reads, 1);
}

#[test]
fn failed_materialization_stays_deferred() {
    let mut d = deferred(None);
    let r = d.tables_or_read(Err(Error::Io { message: "down".to_string() }));
    assert!(matches!(r, Err(Error::Io { .. })));
    assert!(!d.is_loaded());
    let t = d.tables_or_read(Ok(vec![int_table(&[4])])).unwrap();
    assert_eq!(t.len(), 1);
    assert!(d.is_loaded());
}

#[test]
fn loaded_filter_applies_now() {
    let m = MicroPartition::from_tables(vec![int_table(&[1, 2, 3]), int_table(&[4, 5])]);
    let f = m.filter(&vec![pred(CmpOp::GtEq, 2), pred(CmpOp::Lt, 5)]).unwrap();
    let ts = f.cached_tables().unwrap();
    assert_eq!(int_values(&ts[0]), vec![2, 3]);
    assert_eq!(int_values(&ts[1]), vec![4]);
    let e = MicroPartition::empty(None);
    assert!(e.is_loaded());
    assert_eq!(e.column_names().len(), 0);
    assert_eq!(e.len(), Some(0));
}

#[test]
fn partition_accessors() {
    let m = MicroPartition::from_tables(vec![int_table(&[1, 2, 3]), int_table(&[4, 5])]);
    assert_eq!(m.len(), Some(5));
    let col = m.get_column(&"x".to_string()).unwrap();
    let vals: Vec<i64> = col.iter().map(|v| if let Value::Int64(i) = v { *i } else { -1 }).collect();
    assert_eq!(vals, vec![1, 2, 3, 4, 5]);
    assert!(m.get_column(&"y".to_string()).is_none());
    let d = deferred(None);
    assert_eq!(d.len(), None);
    assert!(d.get_column(&"x".to_string()).is_none());
}

#[test]
fn bulk_results_follow_input_order() {
    let done: Vec<(usize, Result<&str, Error>)> = vec![(2, Ok("c")), (0, Ok("a")), (3, Ok("d")), (1, Ok("b"))];
    assert_eq!(collect_in_order(done).unwrap(), vec!["a", "b", "c", "d"]);
    let done: Vec<(usize, Result<&str, Error>)> = vec![
        (1, Ok("b")),
        (2, Err(Error::Io { message: "first".to_string() })),
        (0, Err(Error::Io { message: "second".to_string() })),
    ];
    match collect_in_order(done) {
        Err(Error::Io { message }) => assert_eq!(message, "first"),
        other => panic!("unexpected {:?}", other.is_ok()),
    }
    let none: Vec<(usize, Result<u8, Error>)> = vec![];
    assert_eq!(collect_in_order(none).unwrap(), Vec::<u8>::new());
}

#[test]
fn row_group_statistics_fold_and_prune() {
    let groups = vec![
        TableStatistics { columns: vec![Some(ColumnRange { min: 3, max: 8 }), None] },
        TableStatistics { columns: vec![Some(ColumnRange { min: -2, max: 5 }), Some(ColumnRange { min: 0, max: 0 })] },
    ];
    let u = TableStatistics::union_of(&groups).unwrap();
    assert_eq!(u.columns, vec![Some(ColumnRange { min: -2, max: 8 }), None]);
    assert!(TableStatistics::union_of(&vec![]).is_none());
    let wide = TableStatistics { columns: vec![None, None, None] };
    assert!(groups[0].union(&wide).is_none());
    let schema = Schema { fields: vec![Field::new("x".to_string(), DataType::Int64), Field::new("y".to_string(), DataType::Int64)] };
    let p = MicroPartition::read_parquet_deferred(names(&["a.parquet"]), schema, &groups, true);
    let pruned = p.filter(&vec![pred(CmpOp::Gt, 8)]).unwrap();
    assert!(pruned.is_loaded());
    let kept = p.filter(&vec![pred(CmpOp::Gt, 7)]).unwrap();
    assert!(!kept.is_loaded());
}

#[test]
fn planner_stops_at_limit() {
    let mut p = BatchPlanner::new(100, Some(20), None);
    assert_eq!(p.next_request(), 8);
    p.record(8, 80);
    assert_eq!(p.estimate.mean, 10);
    assert_eq!(p.next_request(), 10);
    p.record(10, 100);
    assert_eq!(p.next_request(), 2);
    p.record(2, 20);
    assert_eq!(p.next_request(), 0);
    assert_eq!(p.total, 20);
    let unlimited = BatchPlanner::new(64 * 1024, None, Some(100));
    assert_eq!(unlimited.next_request(), 655);
}

#[test]
fn fields_resolve_from_header_or_declaration() {
    let data = b"a,b\n1,x\n2.5,y\n".to_vec();
    let (fields, seed) = resolve_fields(&data, &CsvConvertOptions::default(), CsvParseOptions::default());
    assert_eq!(fields.len(), 2);
    assert_eq!(fields[0].name, "a");
    assert_eq!(fields[0].dtype, DataType::Float64);
    assert_eq!(fields[1].dtype, DataType::Utf8);
    assert_eq!(seed, Some(4));
    let renamed = CsvConvertOptions::default().with_column_names(Some(names(&["p", "q"])));
    let (fields, _) = resolve_fields(&data, &renamed, CsvParseOptions::default());
    assert_eq!(fields[1].name, "q");
    let declared = CsvConvertOptions::default()
        .with_schema(Some(Schema { fields: vec![Field::new("z".to_string(), DataType::Int64)] }));
    let (fields, seed) = resolve_fields(&data, &declared, CsvParseOptions::default());
    assert_eq!(fields.len(), 1);
    assert_eq!(fields[0].name, "z");
    assert_eq!(seed, None);
}

#[test]
fn sizes_in_bytes() {
    let t = Table {
        schema: Schema {
            fields: vec![Field::new("a".to_string(), DataType::Int64), Field::new("b".to_string(), DataType::Utf8)],
        },
        columns: vec![
            vec![Value::Int64(1), Value::Null],
            vec![Value::Utf8(b"abc".to_vec()), Value::Boolean(true)],
        ],
        num_rows: 2,
    };
    assert_eq!(t.size_bytes(), Some(8 + 3 + 1));
    let m = MicroPartition::from_tables(vec![t, int_table(&[1, 2])]);
    assert_eq!(m.size_bytes(), Some(12 + 16));
    assert_eq!(deferred(None).size_bytes(), None);
}

#[test]
fn unresolved_predicates_fail_and_resolved_ones_succeed() {
    let m = MicroPartition::from_tables(vec![int_table(&[1, 2])]);
    let bad = vec![Predicate { column: "y".to_string(), op: CmpOp::Eq, value: 1 }];
    assert!(matches!(m.filter(&bad), Err(Error::ColumnNotFound { .. })));
    assert!(m.filter(&vec![pred(CmpOp::Eq, 1)]).is_ok());
    let mut d = deferred(None).filter(&bad).unwrap();
    assert!(matches!(d.tables_or_read(Ok(vec![int_table(&[1])])), Err(Error::ColumnNotFound { .. })));
    assert!(!d.is_loaded());
}

#[test]
fn absorbing_equals_filtering_after_loading() {
    let tables = || vec![int_table(&[1, 4, 6, 9, 3]), int_table(&[7, 8])];
    let first = vec![pred(CmpOp::Gt, 2)];
    let second = vec![pred(CmpOp::Lt, 8)];
    let mut absorbed = deferred(None).filter(&first).unwrap().filter(&second).unwrap();
    let a = absorbed.tables_or_read(Ok(tables())).unwrap();
    let mut plain = deferred(None).filter(&first).unwrap();
    plain.tables_or_read(Ok(tables())).unwrap();
    let b = plain.filter(&second).unwrap().cached_tables().unwrap();
    assert_eq!(a.len(), b.len());
    for (x, y) in a.iter().zip(b.iter()) {
        assert_eq!(int_values(x), int_values(y));
    }
    assert_eq!(int_values(&a[0]), vec![4, 6, 3]);
    assert_eq!(int_values(&a[1]), vec![7]);
}

#[test]
fn plan_convert_options() {
    let schema = Schema { fields: vec![Field::new("x".to_string(), DataType::Int64)] };
    let p = MicroPartition::read_csv_deferred(names(&["a.csv"]), None, None, schema, Some(names(&["x"])), true);
    let c = p.deferred_params().unwrap().csv_convert_options(p.schema()).unwrap();
    assert_eq!(c.limit, None);
    assert_eq!(c.column_names, Some(names(&["x"])));
    assert_eq!(c.schema.unwrap().fields[0].name, "x");
    let q = MicroPartition::read_parquet_deferred(names(&["a.parquet"]), Schema::empty(), &vec![], true);
    assert!(q.deferred_params().unwrap().csv_convert_options(q.schema()).is_none());
}

#[test]
fn delimiter_error_names_the_delimiter() {
    match str_delimiter_to_byte("::") {
        Err(Error::InvalidDelimiter { delimiter }) => assert_eq!(delimiter, "::"),
        other => panic!("unexpected {:?}", other),
    }
    let e = CsvParseOptions::new(true, "ab").unwrap_err();
    assert!(e.message().contains("ab"));
}

#[test]
fn batches_follow_the_planner() {
    let mut s = String::from("a\n");
    for i in 0..30 {
        s.push_str(&format!("{}\n", i));
    }
    let mut reader = RecordReader::new(s.into_bytes(), b',');
    reader.read_rows(1).unwrap();
    let mut planner = BatchPlanner::new(10, Some(25), Some(3));
    let mut sizes = Vec::new();
    let mut seen = Vec::new();
    while let Some(rows) = read_batch(&mut reader, &mut planner).unwrap() {
        sizes.push(rows.len());
        for r in rows {
            seen.push(String::from_utf8(r[0].clone()).unwrap());
        }
    }
    assert_eq!(sizes[0], 8);
    assert_eq!(sizes.iter().sum::<usize>(), 25);
    assert_eq!(seen, (0..25).map(|i| i.to_string()).collect::<Vec<_>>());
    assert_eq!(planner.total, 25);
}
