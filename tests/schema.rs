use plano::{
    clean_schema, column_type_of, infer_schema, sync_supported, ColumnDescription, ColumnType,
};

fn described(name: &str, sql_type: &str, nullable: &str) -> ColumnDescription {
    ColumnDescription {
        name: name.to_string(),
        sql_type: sql_type.to_string(),
        is_nullable: nullable.to_string(),
    }
}

fn names(list: &[&str]) -> Vec<String> {
    list.iter().map(|n| n.to_string()).collect()
}

#[test]
fn clean_schema_drops_partition_columns_in_order() {
    let fields = names(&["id", "year", "name", "month", "value"]);
    let kept = clean_schema(&fields, &names(&["year", "month", "day"]));
    assert_eq!(kept, vec![0, 2, 4]);
}

#[test]
fn clean_schema_without_partitions_keeps_all() {
    let fields = names(&["a", "b"]);
    assert_eq!(clean_schema(&fields, &Vec::new()), vec![0, 1]);
    assert_eq!(clean_schema(&Vec::new(), &names(&["a"])), Vec::<usize>::new());
}

#[test]
fn clean_schema_matches_names_exactly() {
    let fields = names(&["Year", "year"]);
    assert_eq!(clean_schema(&fields, &names(&["year"])), vec![0]);
}

#[test]
fn sql_type_names_map_to_column_types() {
    assert_eq!(column_type_of("integer"), Some(ColumnType::Int32));
    assert_eq!(column_type_of("int8"), Some(ColumnType::Int64));
    assert_eq!(column_type_of("smallint"), Some(ColumnType::Int16));
    assert_eq!(column_type_of("character varying"), Some(ColumnType::Utf8));
    assert_eq!(column_type_of("boolean"), Some(ColumnType::Boolean));
    assert_eq!(
        column_type_of("timestamp without time zone"),
        Some(ColumnType::TimestampMicros)
    );
    assert_eq!(column_type_of("date"), Some(ColumnType::Date32));
    assert_eq!(column_type_of("double precision"), Some(ColumnType::Float64));
    assert_eq!(column_type_of("jsonb"), None);
}

#[test]
fn infer_schema_builds_fields() {
    let cols = vec![described("id", "bigint", "NO"), described("name", "text", "YES")];
    let fields = infer_schema(&cols).unwrap();
    assert_eq!(fields.len(), 2);
    assert_eq!(fields[0].name, "id");
    assert_eq!(fields[0].data_type, ColumnType::Int64);
    assert!(!fields[0].nullable);
    assert_eq!(fields[1].data_type, ColumnType::Utf8);
    assert!(fields[1].nullable);
}

#[test]
fn infer_schema_reports_unsupported_type() {
    let cols = vec![
        described("id", "bigint", "NO"),
        described("doc", "jsonb", "YES"),
        described("geo", "point", "YES"),
    ];
    let err = infer_schema(&cols).unwrap_err();
    assert_eq!(err.column, "doc");
    assert_eq!(err.sql_type, "jsonb");
    assert_eq!(err.message(), "Unsupported SQL type: jsonb in column doc");
}

#[test]
fn sync_support_by_type() {
    assert!(sync_supported(ColumnType::TimestampMicros));
    assert!(sync_supported(ColumnType::Float64));
    assert!(!sync_supported(ColumnType::Int16));
    assert!(!sync_supported(ColumnType::Date32));
}
