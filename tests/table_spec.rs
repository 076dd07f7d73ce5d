use plano::{first_of_each_root, parse_table, parse_table_spec, TableSpec};

#[test]
fn test_parse_valid_spec() {
    let spec = TableSpec::parse("events=/data/parquet/events:year,month,day").unwrap();
    assert_eq!(spec.name, "events");
    assert_eq!(spec.root, "/data/parquet/events");
    assert_eq!(spec.partitions, vec!["year", "month", "day"]);
}

#[test]
fn test_parse_no_partitions() {
    let spec = TableSpec::parse("users=s3://bucket/users").unwrap();
    assert_eq!(spec.name, "users");
    assert_eq!(spec.root, "s3://bucket/users");
    assert!(spec.partitions.is_empty());
}

#[test]
fn test_parse_error_message() {
    let result = TableSpec::parse("invalid_spec");
    assert!(result.is_err());
    assert_eq!(
        result.unwrap_err().to_string(),
        "Invalid table-spec `invalid_spec`"
    );
}

#[test]
fn test_parse_invalid_spec() {
    let result = TableSpec::parse("invalid_spec");
    assert!(result.is_err());
}

#[test]
fn test_parse_single_partition() {
    let spec = TableSpec::parse("data=/path/to/data:year").unwrap();
    assert_eq!(spec.partitions, vec!["year"]);
}

#[test]
fn test_parse_multiple_partitions() {
    let spec = TableSpec::parse("data=/path/to/data:year,month,day").unwrap();
    assert_eq!(spec.partitions, vec!["year", "month", "day"]);
}

#[test]
fn test_parse_empty_input() {
    let result = TableSpec::parse("");
    assert!(result.is_err());
}

#[test]
fn test_parse_malformed_input() {
    let result = TableSpec::parse("invalid_spec");
    assert!(result.is_err());
}

#[test]
fn test_parse_complex_uri() {
    let spec = TableSpec::parse("data=s3://bucket-name/folder:year,month").unwrap();
    assert_eq!(spec.name, "data");
    assert_eq!(spec.root, "s3://bucket-name/folder");
    assert_eq!(spec.partitions, vec!["year", "month"]);
}

#[test]
fn parse_events_round_trip() {
    let spec = TableSpec::parse("events=/data/events:year,month,day").unwrap();
    assert_eq!(spec.name, "events");
    assert_eq!(spec.root, "/data/events");
    assert_eq!(spec.partitions, vec!["year", "month", "day"]);
}

#[test]
fn parse_written_spec_with_colon_in_root() {
    let spec = TableSpec::parse("t=file:///a:b/c:x,y").unwrap();
    assert_eq!(spec.name, "t");
    assert_eq!(spec.root, "file:///a:b/c");
    assert_eq!(spec.partitions, vec!["x", "y"]);
}

#[test]
fn parse_tail_with_slash_stays_in_root() {
    let spec = TableSpec::parse("logs=/x:a/b").unwrap();
    assert_eq!(spec.root, "/x:a/b");
    assert!(spec.partitions.is_empty());
}

#[test]
fn parse_trailing_colon_gives_no_partitions() {
    let spec = TableSpec::parse("logs=/x:").unwrap();
    assert_eq!(spec.root, "/x");
    assert!(spec.partitions.is_empty());
}

#[test]
fn parse_splits_at_first_equals() {
    let spec = TableSpec::parse("a=b=c").unwrap();
    assert_eq!(spec.name, "a");
    assert_eq!(spec.root, "b=c");
}

#[test]
fn parse_empty_input_message_quotes_it() {
    assert_eq!(TableSpec::parse("").unwrap_err(), "Invalid table-spec ``");
}

#[test]
fn parse_table_spec_stops_at_first_bad_entry() {
    let good = vec!["a=/x:p".to_string(), "b=/y".to_string()];
    let specs = parse_table_spec(&good).unwrap();
    assert_eq!(specs.len(), 2);
    assert_eq!(specs[1].name, "b");
    let bad = vec!["a=/x".to_string(), "nope".to_string(), "alsobad".to_string()];
    assert_eq!(parse_table_spec(&bad).unwrap_err(), "Invalid table-spec `nope`");
}

#[test]
fn parse_table_name_and_glob() {
    let (name, pattern) = parse_table("t=/data/*.parquet").unwrap();
    assert_eq!(name, "t");
    assert_eq!(pattern, "/data/*.parquet");
    assert_eq!(parse_table("t").unwrap_err(), "Expected format: name=glob");
}

#[test]
fn shared_roots_are_set_up_once() {
    let specs = parse_table_spec(&vec![
        "a=file:///data:x".to_string(),
        "b=file:///other".to_string(),
        "c=file:///data:y".to_string(),
        "d=file:///other".to_string(),
        "e=s3://bucket/t".to_string(),
    ])
    .unwrap();
    assert_eq!(first_of_each_root(&specs), vec![0, 1, 4]);
}

#[test]
fn parse_rejects_empty_name_root_or_repeated_partition() {
    assert_eq!(TableSpec::parse("=x").unwrap_err(), "Invalid table-spec `=x`");
    assert_eq!(TableSpec::parse("t=").unwrap_err(), "Invalid table-spec `t=`");
    assert_eq!(TableSpec::parse("t=:a").unwrap_err(), "Invalid table-spec `t=:a`");
    assert_eq!(
        TableSpec::parse("t=/p:a,a").unwrap_err(),
        "Invalid table-spec `t=/p:a,a`"
    );
    assert!(TableSpec::parse("t=/p:a,b").is_ok());
}
