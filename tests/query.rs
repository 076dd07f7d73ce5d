use plano::{
    count_query, determine_content_type, determine_output_format,
    determine_tables_output_format, extract_query, format_from_name, query_from_body,
    select_query, MyQueryService, OutputFormat, PlanoBadRequest, PlanoServerError,
};

#[test]
fn test_determine_output_format() {
    assert_eq!(determine_output_format(Some("application/json")), OutputFormat::Json);
    assert_eq!(determine_output_format(Some("text/csv")), OutputFormat::Csv);
    assert_eq!(determine_output_format(Some("text/plain")), OutputFormat::Text);
    assert_eq!(determine_output_format(None), OutputFormat::Text);
}

#[test]
fn test_determine_content_type() {
    assert_eq!(determine_content_type(&OutputFormat::Json), "application/json");
    assert_eq!(determine_content_type(&OutputFormat::Csv), "text/csv");
    assert_eq!(determine_content_type(&OutputFormat::Text), "text/plain");
}

#[test]
fn test_extract_query_success() {
    let form = vec![("sql".to_string(), "SELECT * FROM test_table".to_string())];
    match extract_query(&form) {
        Ok(query) => assert_eq!(query, "SELECT * FROM test_table"),
        Err(_) => panic!("Expected to extract query successfully"),
    }
}

#[test]
fn test_extract_query_failure() {
    let form: Vec<(String, String)> = Vec::new();
    let result = extract_query(&form);
    assert!(result.is_err());
}

#[test]
fn extract_query_takes_last_sql_field() {
    let form = vec![
        ("sql".to_string(), "first".to_string()),
        ("other".to_string(), "x".to_string()),
        ("sql".to_string(), "second".to_string()),
    ];
    assert_eq!(extract_query(&form).unwrap(), "second");
    let err = extract_query(&vec![("q".to_string(), "x".to_string())]).unwrap_err();
    assert_eq!(err.reason, "no 'sql' key in request");
}

#[test]
fn query_from_body_decodes_form() {
    let q = query_from_body(b"sql=SELECT%20*%20FROM%20test&x=1").unwrap();
    assert_eq!(q, "SELECT * FROM test");
    let q = query_from_body(b"sql=a+b").unwrap();
    assert_eq!(q, "a b");
    assert!(query_from_body(b"invalid_body").is_err());
    assert!(query_from_body(b"").is_err());
}

#[test]
fn tables_format_defaults_to_json() {
    assert_eq!(determine_tables_output_format(None), OutputFormat::Json);
    assert_eq!(determine_tables_output_format(Some("text/csv")), OutputFormat::Csv);
    assert_eq!(determine_tables_output_format(Some("text/plain")), OutputFormat::Text);
    assert_eq!(determine_tables_output_format(Some("text/html")), OutputFormat::Json);
}

#[test]
fn query_format_unknown_accept_is_text() {
    assert_eq!(determine_output_format(Some("text/html")), OutputFormat::Text);
}

#[test]
fn format_names() {
    assert_eq!(format_from_name("json"), OutputFormat::Json);
    assert_eq!(format_from_name("csv"), OutputFormat::Csv);
    assert_eq!(format_from_name("text"), OutputFormat::Text);
    assert_eq!(format_from_name("JSON"), OutputFormat::Text);
}

#[test]
fn error_messages() {
    let e = PlanoServerError { reason: "boom".to_string() };
    assert_eq!(e.message(), "Plano Server Error: boom");
    let e = PlanoBadRequest { reason: "no sql".to_string() };
    assert_eq!(e.message(), "Bad Request: no sql");
}

#[test]
fn count_query_text() {
    assert_eq!(count_query("events"), "SELECT COUNT(*) AS cnt FROM events");
}

#[test]
fn query_service_answers_no_rows() {
    assert!(MyQueryService.run_query("SELECT 1").is_empty());
}

#[test]
fn query_from_body_reports_missing_sql() {
    let err = query_from_body(b"q=1&x=2").unwrap_err();
    assert_eq!(err.reason, "no 'sql' key in request");
}

#[test]
fn select_query_lists_columns() {
    let cols = vec!["id".to_string(), "name".to_string(), "ts".to_string()];
    assert_eq!(select_query(&cols, "events"), "SELECT id, name, ts FROM events");
    assert_eq!(select_query(&vec!["a".to_string()], "t"), "SELECT a FROM t");
}
