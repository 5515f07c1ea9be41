use daft_ingest::cell::Value;
use daft_ingest::error::Error;
use daft_ingest::options::{CsvConvertOptions, CsvParseOptions, CsvReadOptions};
use daft_ingest::reader::read_csv;
use daft_ingest::schema::{DataType, Field, Schema};
use daft_ingest::table::Table;

const IRIS_ROWS: [&str; 20] = [
    "5.1,3.5,1.4,.2,\"Setosa\"",
    "4.9,3,1.4,.2,\"Setosa\"",
    "4.7,3.2,1.3,.2,\"Setosa\"",
    "4.6,3.1,1.5,.2,\"Setosa\"",
    "5,3.6,1.4,.2,\"Setosa\"",
    "5.4,3.9,1.7,.4,\"Setosa\"",
    "4.6,3.4,1.4,.3,\"Setosa\"",
    "5,3.4,1.5,.2,\"Setosa\"",
    "4.4,2.9,1.4,.2,\"Setosa\"",
    "4.9,3.1,1.5,.1,\"Setosa\"",
    "7,3.2,4.7,1.4,\"Versicolor\"",
    "6.4,3.2,4.5,1.5,\"Versicolor\"",
    "6.9,3.1,4.9,1.5,\"Versicolor\"",
    "5.5,2.3,4,1.3,\"Versicolor\"",
    "6.5,2.8,4.6,1.5,\"Versicolor\"",
    "6.3,3.3,6,2.5,\"Virginica\"",
    "5.8,2.7,5.1,1.9,\"Virginica\"",
    "7.1,3,5.9,2.1,\"Virginica\"",
    "6.3,2.9,5.6,1.8,\"Virginica\"",
    "6.5,3,5.8,2.2,\"Virginica\"",
];

const IRIS_HEADER: &str = "\"sepal.length\",\"sepal.width\",\"petal.length\",\"petal.width\",\"variety\"";

const IRIS_NAMES: [&str; 5] = ["sepal.length", "sepal.width", "petal.length", "petal.width", "variety"];

fn iris(header: bool, delimiter: &str) -> Vec<u8> {
    let mut s = String::new();
    if header {
        s.push_str(&IRIS_HEADER.replace(',', delimiter));
        s.push('\n');
    }
    for row in IRIS_ROWS.iter() {
        s.push_str(&row.replace(',', delimiter));
        s.push('\n');
    }
    s.into_bytes()
}

fn names(v: &[&str]) -> Vec<String> {
    v.iter().map(|s| s.to_string()).collect()
}

fn assert_fields(table: &Table, expected: &[(&str, DataType)]) {
    assert_eq!(table.schema.fields.len(), expected.len());
    for (f, (n, t)) in table.schema.fields.iter().zip(expected.iter()) {
        assert_eq!(f.name, *n);
        assert_eq!(f.dtype, *t);
    }
}

fn iris_fields() -> Vec<(&'static str, DataType)> {
    vec![
        ("sepal.length", DataType::Float64),
        ("sepal.width", DataType::Float64),
        ("petal.length", DataType::Float64),
        ("petal.width", DataType::Float64),
        ("variety", DataType::Utf8),
    ]
}

fn text(v: &Value) -> String {
    match v {
        Value::Float64(t) | Value::Utf8(t) => String::from_utf8(t.clone()).unwrap(),
        other => format!("{:?}", other),
    }
}

fn check_iris_cells(table: &Table, rows: usize, columns: &[usize]) {
    assert_eq!(table.len(), rows);
    for (k, &src) in columns.iter().enumerate() {
        let col = table.get_column_by_index(k).unwrap();
        for r in 0..rows {
            let raw = IRIS_ROWS[r].split(',').nth(src).unwrap().trim_matches('"');
            assert_eq!(text(&col[r]), raw);
        }
    }
}

#[test]
fn test_csv_read_local() {
    let table = read_csv(iris(true, ","), None, None, None).unwrap();
    assert_eq!(table.len(), 20);
    assert_fields(&table, &iris_fields());
    check_iris_cells(&table, 20, &[0, 1, 2, 3, 4]);
}

#[test]
fn test_csv_read_local_no_headers() {
    let table = read_csv(
        iris(false, ","),
        Some(CsvConvertOptions::default().with_column_names(Some(names(&IRIS_NAMES)))),
        Some(CsvParseOptions::default().with_has_header(false)),
        None,
    )
    .unwrap();
    assert_eq!(table.len(), 20);
    assert_fields(&table, &iris_fields());
    check_iris_cells(&table, 20, &[0, 1, 2, 3, 4]);
}

#[test]
fn test_csv_read_local_delimiter() {
    let table = read_csv(
        iris(true, "|"),
        None,
        Some(CsvParseOptions::default().with_delimiter(b'|')),
        None,
    )
    .unwrap();
    assert_eq!(table.len(), 20);
    assert_fields(&table, &iris_fields());
    check_iris_cells(&table, 20, &[0, 1, 2, 3, 4]);
}

#[test]
fn test_csv_read_local_limit() {
    let table = read_csv(
        iris(true, ","),
        Some(CsvConvertOptions::default().with_limit(Some(5))),
        None,
        None,
    )
    .unwrap();
    assert_eq!(table.len(), 5);
    assert_fields(&table, &iris_fields());
    check_iris_cells(&table, 5, &[0, 1, 2, 3, 4]);
}

#[test]
fn test_csv_read_local_projection() {
    let table = read_csv(
        iris(true, ","),
        Some(CsvConvertOptions::default().with_include_columns(Some(names(&["petal.length", "petal.width"])))),
        None,
        None,
    )
    .unwrap();
    assert_eq!(table.len(), 20);
    assert_fields(&table, &[("petal.length", DataType::Float64), ("petal.width", DataType::Float64)]);
    check_iris_cells(&table, 20, &[2, 3]);
}

#[test]
fn test_csv_read_local_no_headers_and_projection() {
    let table = read_csv(
        iris(false, ","),
        Some(
            CsvConvertOptions::default()
                .with_column_names(Some(names(&IRIS_NAMES)))
                .with_include_columns(Some(names(&["petal.length", "petal.width"]))),
        ),
        Some(CsvParseOptions::default().with_has_header(false)),
        None,
    )
    .unwrap();
    assert_eq!(table.len(), 20);
    assert_fields(&table, &[("petal.length", DataType::Float64), ("petal.width", DataType::Float64)]);
    check_iris_cells(&table, 20, &[2, 3]);
}

#[test]
fn test_csv_read_local_larger_than_buffer_size() {
    let table = read_csv(
        iris(true, ","),
        None,
        None,
        Some(CsvReadOptions::default().with_buffer_size(Some(128))),
    )
    .unwrap();
    assert_eq!(table.len(), 20);
    assert_fields(&table, &iris_fields());
    check_iris_cells(&table, 20, &[0, 1, 2, 3, 4]);
}

#[test]
fn test_csv_read_local_larger_than_chunk_size() {
    let table = read_csv(
        iris(true, ","),
        None,
        None,
        Some(CsvReadOptions::default().with_chunk_size(Some(100))),
    )
    .unwrap();
    assert_eq!(table.len(), 20);
    assert_fields(&table, &iris_fields());
    check_iris_cells(&table, 20, &[0, 1, 2, 3, 4]);
}

#[test]
fn test_csv_read_local_throttled_streaming() {
    let table = read_csv(
        iris(true, ","),
        None,
        None,
        Some(CsvReadOptions::new(Some(5), Some(5))),
    )
    .unwrap();
    assert_eq!(table.len(), 20);
    assert_fields(&table, &iris_fields());
    check_iris_cells(&table, 20, &[0, 1, 2, 3, 4]);
}

#[test]
fn test_csv_read_local_nulls() {
    let data = format!(
        "{}\n5.1,3.5,1.4,.2,\"Setosa\"\n4.9,,1.4,.2,\"Setosa\"\n,3.2,1.3,.2,\"Setosa\"\n4.6,3.1,,.2,\n5,3.6,1.4,,\"Setosa\"\n5.4,3.9,1.7,.4,\"Setosa\"\n",
        IRIS_HEADER
    );
    let table = read_csv(data.into_bytes(), None, None, None).unwrap();
    assert_eq!(table.len(), 6);
    assert_fields(&table, &iris_fields());
    for c in 0..5 {
        assert_eq!(table.null_count(c), Some(1));
    }
    assert!(matches!(table.get_column_by_index(1).unwrap()[1], Value::Null));
}

#[test]
fn test_csv_read_local_empty_lines_dropped() {
    let data = format!(
        "{}\n\n5.1,3.5,1.4,.2,\"Setosa\"\n\n\n4.9,3,1.4,.2,\"Setosa\"\n\n4.7,3.2,1.3,.2,\"Setosa\"\n\n",
        IRIS_HEADER
    );
    let table = read_csv(data.into_bytes(), None, None, None).unwrap();
    assert_eq!(table.len(), 3);
    assert_fields(&table, &iris_fields());
    check_iris_cells(&table, 3, &[0, 1, 2, 3, 4]);
}

#[test]
fn test_csv_read_local_wrong_type_yields_nulls() {
    let schema = Schema {
        fields: vec![
            Field::new("sepal.length".to_string(), DataType::Boolean),
            Field::new("sepal.width".to_string(), DataType::Boolean),
            Field::new("petal.length".to_string(), DataType::Boolean),
            Field::new("petal.width".to_string(), DataType::Boolean),
            Field::new("variety".to_string(), DataType::Int64),
        ],
    };
    let table = read_csv(
        iris(true, ","),
        Some(CsvConvertOptions::default().with_schema(Some(schema))),
        None,
        None,
    )
    .unwrap();
    let num_rows = table.len();
    assert_eq!(num_rows, 20);
    for idx in 0..table.num_columns() {
        assert_eq!(table.null_count(idx), Some(num_rows));
    }
}

#[test]
fn test_csv_read_local_invalid_cols_header_mismatch() {
    let data = format!("{}\n5.1,3.5,1.4,.2,\"Setosa\"\n4.9,3,1.4,\"Setosa\"\n", IRIS_HEADER);
    let err = read_csv(data.into_bytes(), None, None, None);
    assert!(err.is_err());
    let err = err.unwrap_err();
    assert!(matches!(err, Error::FieldCountMismatch { expected: 5, found: 4 }), "{:?}", err);
    assert!(
        err.message().contains("found record with 4 fields, but the previous record has 5 fields"),
        "{}",
        err.message()
    );
}

#[test]
fn test_csv_read_local_invalid_no_header_variable_num_cols() {
    let data = "5.1,3.5,1.4,\"Setosa\"\n4.9,3,1.4,.2,\"Setosa\"\n".to_string();
    let err = read_csv(
        data.into_bytes(),
        None,
        Some(CsvParseOptions::default().with_has_header(false)),
        None,
    );
    assert!(err.is_err());
    let err = err.unwrap_err();
    assert!(matches!(err, Error::FieldCountMismatch { expected: 4, found: 5 }), "{:?}", err);
    assert!(
        err.message().contains("found record with 5 fields, but the previous record has 4 fields"),
        "{}",
        err.message()
    );
}

fn mvp(header: bool) -> Vec<u8> {
    let mut s = String::new();
    if header {
        s.push_str("a,b\n");
    }
    for i in 0..100 {
        s.push_str(&format!("{},{}\n", i, ["aa", "bb", "cc"][i % 3]));
    }
    s.into_bytes()
}

fn medium() -> Vec<u8> {
    let mut s = String::from("id,name,score,flag\n");
    for i in 0..5000 {
        s.push_str(&format!("{},name_{},{}.5,{}\n", i, i, i % 97, i % 2 == 0));
    }
    s.into_bytes()
}

#[test]
fn test_csv_read_s3_no_headers() {
    let table = read_csv(
        mvp(false),
        Some(CsvConvertOptions::default().with_column_names(Some(names(&["a", "b"])))),
        Some(CsvParseOptions::default().with_has_header(false)),
        None,
    )
    .unwrap();
    assert_eq!(table.len(), 100);
    assert_fields(&table, &[("a", DataType::Int64), ("b", DataType::Utf8)]);
}

#[test]
fn test_csv_read_s3_no_headers_and_projection() {
    let table = read_csv(
        mvp(false),
        Some(
            CsvConvertOptions::default()
                .with_column_names(Some(names(&["a", "b"])))
                .with_include_columns(Some(names(&["b"]))),
        ),
        Some(CsvParseOptions::default().with_has_header(false)),
        None,
    )
    .unwrap();
    assert_eq!(table.len(), 100);
    assert_fields(&table, &[("b", DataType::Utf8)]);
}

#[test]
fn test_csv_read_s3_limit() {
    let table = read_csv(mvp(true), Some(CsvConvertOptions::default().with_limit(Some(10))), None, None).unwrap();
    assert_eq!(table.len(), 10);
    assert_fields(&table, &[("a", DataType::Int64), ("b", DataType::Utf8)]);
}

#[test]
fn test_csv_read_s3_projection() {
    let table = read_csv(
        mvp(true),
        Some(CsvConvertOptions::default().with_include_columns(Some(names(&["b"])))),
        None,
        None,
    )
    .unwrap();
    assert_eq!(table.len(), 100);
    assert_fields(&table, &[("b", DataType::Utf8)]);
}

#[test]
fn test_csv_read_s3_larger_than_buffer_size() {
    let table = read_csv(medium(), None, None, Some(CsvReadOptions::default().with_buffer_size(Some(100)))).unwrap();
    assert_eq!(table.len(), 5000);
}

#[test]
fn test_csv_read_s3_larger_than_chunk_size() {
    let table = read_csv(medium(), None, None, Some(CsvReadOptions::default().with_chunk_size(Some(100)))).unwrap();
    assert_eq!(table.len(), 5000);
}

#[test]
fn test_csv_read_s3_throttled_streaming() {
    let table = read_csv(medium(), None, None, Some(CsvReadOptions::new(Some(40), Some(5)))).unwrap();
    assert_eq!(table.len(), 5000);
}
