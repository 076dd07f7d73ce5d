use plano::partition::{time_component, CivilTime};
use plano::{
    build_column_index_map, group_rows_by_partition, plan_export, validate_partition_keys,
    Column, ColumnBatch, ColumnValues, ExportError, ExportPlan,
};

fn text_column(name: &str, values: &[&str]) -> Column {
    Column {
        name: name.to_string(),
        values: ColumnValues::Utf8(values.iter().map(|v| v.to_string()).collect()),
    }
}

fn key_value_batch() -> ColumnBatch {
    ColumnBatch::new(
        3,
        vec![text_column("key", &["a", "b", "a"]), text_column("value", &["1", "2", "3"])],
    )
    .unwrap()
}

fn keys(list: &[&str]) -> Vec<String> {
    list.iter().map(|k| k.to_string()).collect()
}

#[test]
fn test_build_column_index_map() {
    let names = vec!["col1".to_string(), "col2".to_string()];
    let idx_map = build_column_index_map(&names);
    assert_eq!(idx_map.get("col1"), Some(&0));
    assert_eq!(idx_map.get("col2"), Some(&1));
}

#[test]
fn index_map_keeps_last_position_of_repeated_name() {
    let names = keys(&["a", "b", "a"]);
    let idx_map = build_column_index_map(&names);
    assert_eq!(idx_map.get("a"), Some(&2));
    assert_eq!(idx_map.get("c"), None);
}

#[test]
fn test_group_rows_by_partition() {
    let batch = key_value_batch();
    let groups = group_rows_by_partition(&batch, &keys(&["key"]), &None).unwrap();
    assert_eq!(groups.get("key=a").unwrap().len(), 2);
    assert_eq!(groups.get("key=b").unwrap().len(), 1);
}

#[test]
fn grouping_gives_exact_rows_per_key() {
    let batch = key_value_batch();
    let groups = group_rows_by_partition(&batch, &keys(&["key"]), &None).unwrap();
    assert_eq!(groups.len(), 2);
    assert_eq!(groups.key(0), "key=a");
    assert_eq!(groups.rows(0), &vec![0u32, 2]);
    assert_eq!(groups.key(1), "key=b");
    assert_eq!(groups.rows(1), &vec![1u32]);
}

#[test]
fn grouping_covers_every_row_once() {
    let batch = ColumnBatch::new(
        5,
        vec![
            text_column("k", &["x", "y", "x", "z", "y"]),
            text_column("j", &["1", "1", "2", "1", "1"]),
        ],
    )
    .unwrap();
    let groups = group_rows_by_partition(&batch, &keys(&["k", "j"]), &None).unwrap();
    let mut seen = vec![0; 5];
    for g in 0..groups.len() {
        for &r in groups.rows(g) {
            seen[r as usize] += 1;
        }
    }
    assert_eq!(seen, vec![1, 1, 1, 1, 1]);
    assert_eq!(groups.get("k=y/j=1").unwrap(), &vec![1u32, 4]);
    assert_eq!(groups.get("k=x/j=2").unwrap(), &vec![2u32]);
}

#[test]
fn keys_are_case_sensitive() {
    let batch = ColumnBatch::new(2, vec![text_column("c", &["A", "a"])]).unwrap();
    let groups = group_rows_by_partition(&batch, &keys(&["c"]), &None).unwrap();
    assert_eq!(groups.len(), 2);
}

#[test]
fn timestamp_decomposition_year_month() {
    let batch = ColumnBatch::new(
        1,
        vec![Column {
            name: "ts".to_string(),
            values: ColumnValues::TimestampMicros(vec![1_709_643_600_000_000]),
        }],
    )
    .unwrap();
    let ts = Some("ts".to_string());
    let groups = group_rows_by_partition(&batch, &keys(&["year", "month"]), &ts).unwrap();
    assert_eq!(groups.len(), 1);
    assert_eq!(groups.key(0), "year=2024/month=03");
    let groups = group_rows_by_partition(&batch, &keys(&["day", "hour"]), &ts).unwrap();
    assert_eq!(groups.key(0), "day=05/hour=13");
}

#[test]
fn timestamp_before_epoch() {
    let batch = ColumnBatch::new(
        1,
        vec![Column {
            name: "ts".to_string(),
            values: ColumnValues::TimestampMicros(vec![-3_600_000_000]),
        }],
    )
    .unwrap();
    let ts = Some("ts".to_string());
    let groups =
        group_rows_by_partition(&batch, &keys(&["year", "month", "day", "hour"]), &ts).unwrap();
    assert_eq!(groups.key(0), "year=1969/month=12/day=31/hour=23");
}

#[test]
fn time_component_formats() {
    let t = CivilTime { year: -44, month: 3, day: 15, hour: 0 };
    assert_eq!(time_component("year", &t), "-44");
    assert_eq!(time_component("month", &t), "03");
    assert_eq!(time_component("day", &t), "15");
    assert_eq!(time_component("hour", &t), "00");
}

#[test]
fn timestamp_out_of_range_is_reported() {
    let batch = ColumnBatch::new(
        1,
        vec![Column { name: "ts".to_string(), values: ColumnValues::TimestampMicros(vec![i64::MAX]) }],
    )
    .unwrap();
    let err = group_rows_by_partition(&batch, &keys(&["year"]), &Some("ts".to_string()))
        .err()
        .unwrap();
    assert!(matches!(err, ExportError::TimestampOutOfRange(v) if v == i64::MAX));
    assert_eq!(err.message(), format!("invalid timestamp value {}", i64::MAX));
}

#[test]
fn reserved_keyword_without_timestamp_is_rejected() {
    let err = validate_partition_keys(&keys(&["year"]), &None).unwrap_err();
    assert!(matches!(&err, ExportError::ReservedKeyWithoutTimestamp(k) if k == "year"));
    assert_eq!(
        err.message(),
        "reserved partition key `year`, but --timestamp-col is not set"
    );
    assert!(validate_partition_keys(&keys(&["year"]), &Some("ts".to_string())).is_ok());
    assert!(validate_partition_keys(&keys(&["region"]), &None).is_ok());
}

#[test]
fn plan_rejects_reserved_keyword_before_reading_rows() {
    // the batch has no column "year" at all: validation fails first
    let batch = key_value_batch();
    let err = plan_export(&batch, &keys(&["key", "hour"]), &None, "/out", "t").err().unwrap();
    assert!(matches!(&err, ExportError::ReservedKeyWithoutTimestamp(k) if k == "hour"));
}

#[test]
fn grouping_errors_name_their_cause() {
    let batch = ColumnBatch::new(
        1,
        vec![
            text_column("s", &["v"]),
            Column { name: "n".to_string(), values: ColumnValues::Other },
        ],
    )
    .unwrap();
    let e = group_rows_by_partition(&batch, &keys(&["missing"]), &None).err().unwrap();
    assert!(matches!(&e, ExportError::UnknownColumn(c) if c == "missing"));
    assert_eq!(e.message(), "column not found: missing");
    let e = group_rows_by_partition(&batch, &keys(&["n"]), &None).err().unwrap();
    assert!(matches!(&e, ExportError::NotTextColumn(c) if c == "n"));
    let e = group_rows_by_partition(&batch, &keys(&["year"]), &Some("s".to_string())).err().unwrap();
    assert!(matches!(&e, ExportError::NotTimestampColumn(c) if c == "s"));
    let e = group_rows_by_partition(&batch, &keys(&["day"]), &None).err().unwrap();
    assert!(matches!(e, ExportError::NoTimestampColumn));
}

#[test]
fn batch_with_mismatched_column_is_refused() {
    assert!(ColumnBatch::new(2, vec![text_column("a", &["x"])]).is_none());
}

#[test]
fn empty_batch_has_no_groups() {
    let batch = ColumnBatch::new(0, vec![text_column("key", &[])]).unwrap();
    let groups = group_rows_by_partition(&batch, &keys(&["key"]), &None).unwrap();
    assert_eq!(groups.len(), 0);
}

#[test]
fn plan_writes_one_file_per_partition() {
    let batch = key_value_batch();
    match plan_export(&batch, &keys(&["key"]), &None, "/out", "test_table").unwrap() {
        ExportPlan::Partitioned(files) => {
            assert_eq!(files.len(), 2);
            assert_eq!(files[0].dir, "/out/test_table/key=a");
            assert_eq!(files[0].path, "/out/test_table/key=a/part-00000.parquet");
            assert_eq!(files[0].rows, vec![0, 2]);
            assert_eq!(files[1].path, "/out/test_table/key=b/part-00000.parquet");
            assert_eq!(files[1].rows, vec![1]);
        }
        ExportPlan::Single { .. } => panic!("expected partitioned output"),
    }
}

#[test]
fn plan_without_partitions_writes_one_file() {
    let batch = key_value_batch();
    match plan_export(&batch, &Vec::new(), &None, "/tmp/", "events").unwrap() {
        ExportPlan::Single { dir, path } => {
            assert_eq!(dir, "/tmp/");
            assert_eq!(path, "/tmp/events.parquet");
        }
        ExportPlan::Partitioned(_) => panic!("expected a single file"),
    }
}

#[test]
fn test_write_partition() {
    let batch = key_value_batch();
    let plan = plan_export(&batch, &keys(&["key"]), &None, "/tmp/plano-out", "test_table").unwrap();
    let ExportPlan::Partitioned(files) = plan else {
        panic!("expected partitioned output");
    };
    let file = files.iter().find(|f| f.key == "key=a").unwrap();
    assert_eq!(file.rows, vec![0, 2]);
    assert_eq!(file.path, "/tmp/plano-out/test_table/key=a/part-00000.parquet");
}
