use slowlog::instant::Timestamp;
use slowlog::parser::{parse_log, LineRules, LogParser, Query};

fn parser() -> LogParser {
    LogParser::new(LineRules::new().expect("the patterns compile"))
}

fn seconds(micros: u64) -> f64 {
    micros as f64 / 1e6
}

#[test]
fn test_parse_block_standard() {
    let block = r#"# Time: 2023-10-27T10:00:00.123456Z
# User@Host: root[root] @ localhost []
# Query_time: 0.001234  Lock_time: 0.000123 Rows_sent: 10  Rows_examined: 100
SELECT * FROM users;"#;
    let parser = parser();
    let query = parser.parse_block(block).unwrap();

    assert_eq!(seconds(query.query_time), 0.001234);
    assert_eq!(seconds(query.lock_time), 0.000123);
    assert_eq!(query.query_time, 1234);
    assert_eq!(query.lock_time, 123);
    assert_eq!(query.rows_sent, 10);
    assert_eq!(query.rows_examined, 100);
    assert_eq!(query.user_host, "root[root] @ localhost []");
    assert_eq!(query.sql_text, "SELECT * FROM users;");
    assert!(query.timestamp.is_some());
    assert_eq!(query.timestamp, Some(Timestamp { secs: 1698400800, nanos: 123_456_000 }));
}

#[test]
fn test_parse_block_multiline_sql() {
    let block = r#"# User@Host: root @ localhost
# Query_time: 1.0  Lock_time: 0.0 Rows_sent: 1  Rows_examined: 1
SELECT *
FROM users
WHERE id = 1;"#;
    let parser = parser();
    let query = parser.parse_block(block).unwrap();

    assert_eq!(query.sql_text, "SELECT *\nFROM users\nWHERE id = 1;");
}

#[test]
fn test_parse_block_missing_header() {
    let block = "SELECT 1;";
    let parser = parser();
    let query = parser.parse_block(block).unwrap();

    assert_eq!(query.sql_text, "SELECT 1;");
    assert_eq!(seconds(query.query_time), 0.0);
    assert_eq!(query.query_time, 0);
}

#[test]
fn block_without_metrics_has_zero_fields() {
    let query = parser().parse_block("# User@Host: app @ db\nSELECT 2;\n").unwrap();
    assert_eq!(
        query,
        Query {
            query_time: 0,
            lock_time: 0,
            rows_sent: 0,
            rows_examined: 0,
            timestamp: None,
            user_host: "app @ db".to_string(),
            sql_text: "SELECT 2;".to_string(),
        }
    );
}

#[test]
fn block_without_sql_gives_nothing() {
    let parser = parser();
    assert!(parser.parse_block("").is_none());
    assert!(parser.parse_block("# Time: 2023-10-27T10:00:00Z\n# User@Host: a @ b\n").is_none());
    assert!(parser.parse_block("SET timestamp=1698400800;\n   \n").is_none());
}

#[test]
fn malformed_time_is_left_unset() {
    let query = parser().parse_block("# Time: yesterday\nSELECT 1;").unwrap();
    assert_eq!(query.timestamp, None);
    assert_eq!(query.sql_text, "SELECT 1;");
}

#[test]
fn time_with_offset_is_the_same_instant() {
    let query = parser().parse_block("# Time: 2023-10-27T19:00:00+09:00\nSELECT 1;").unwrap();
    assert_eq!(query.timestamp, Some(Timestamp { secs: 1698400800, nanos: 0 }));
}

#[test]
fn malformed_number_is_zero_and_the_rest_is_kept() {
    let block = "# Query_time: 1.2.3  Lock_time: 0.5 Rows_sent: 99999999999999999999999  Rows_examined: 7\nSELECT 1;";
    let query = parser().parse_block(block).unwrap();
    assert_eq!(query.query_time, 0);
    assert_eq!(query.lock_time, 500_000);
    assert_eq!(query.rows_sent, 0);
    assert_eq!(query.rows_examined, 7);
}

#[test]
fn directives_and_other_annotations_are_dropped() {
    let block = "# Schema: shop\nSET timestamp=1698400800;\n  SELECT 1;  \n# Bytes_sent: 5\n";
    let query = parser().parse_block(block).unwrap();
    assert_eq!(query.sql_text, "SELECT 1;");
}

#[test]
fn carriage_returns_are_trimmed() {
    let query = parser().parse_block("# User@Host: a @ b \r\nSELECT 1;\r\nFROM t\r\n").unwrap();
    assert_eq!(query.user_host, "a @ b");
    assert_eq!(query.sql_text, "SELECT 1;\nFROM t");
}

#[test]
fn blank_lines_inside_the_body_are_kept() {
    let query = parser().parse_block("\nSELECT 1\n\nFROM t\n\n").unwrap();
    assert_eq!(query.sql_text, "SELECT 1\n\nFROM t");
}

#[test]
fn has_sql_sees_content_lines_only() {
    let parser = parser();
    assert!(!parser.has_sql(""));
    assert!(!parser.has_sql("# Time: 2023-10-27T10:00:00Z\n# User@Host: a @ b\n"));
    assert!(!parser.has_sql("SET timestamp=1;\n \n"));
    assert!(parser.has_sql("# Time: 2023-10-27T10:00:00Z\nSELECT 1;\n"));
    assert!(parser.has_sql("   x"));
}

#[test]
fn boundary_closes_a_block_that_holds_sql() {
    let mut parser = parser();
    assert!(parser.push_line("# Time: 2023-10-27T10:00:00Z\n").is_none());
    assert!(parser.push_line("# User@Host: a @ b\n").is_none());
    assert!(parser.push_line("# Query_time: 0.5  Lock_time: 0.0 Rows_sent: 1  Rows_examined: 2\n").is_none());
    assert!(parser.push_line("SELECT 1;\n").is_none());
    let first = parser.push_line("# Time: 2023-10-27T12:30:00Z\n").unwrap();
    assert_eq!(first.sql_text, "SELECT 1;");
    assert_eq!(first.query_time, 500_000);
    assert_eq!(first.user_host, "a @ b");
    assert_eq!(first.timestamp, Some(Timestamp { secs: 1698400800, nanos: 0 }));
    assert!(parser.push_line("SELECT 2;\n").is_none());
    let second = parser.finish().unwrap();
    assert_eq!(second.sql_text, "SELECT 2;");
    assert_eq!(second.timestamp, Some(Timestamp { secs: 1698409800, nanos: 0 }));
    assert!(parser.finish().is_none());
}

#[test]
fn parse_log_gives_the_queries_in_order() {
    let text = "# Time: 2023-10-27T10:00:00Z\n# User@Host: a @ b\n# Query_time: 0.1  Lock_time: 0.0 Rows_sent: 1  Rows_examined: 1\nSELECT * FROM t WHERE id = 1;\n# Time: 2023-10-27T12:30:00Z\n# User@Host: a @ b\n# Query_time: 0.5  Lock_time: 0.0 Rows_sent: 1  Rows_examined: 1\nSELECT * FROM t WHERE id = 2;\n";
    let lines: Vec<String> = text.split_inclusive('\n').map(|l| l.to_string()).collect();
    let queries = parse_log(LineRules::new().unwrap(), &lines);
    assert_eq!(queries.len(), 2);
    assert_eq!(queries[0].sql_text, "SELECT * FROM t WHERE id = 1;");
    assert_eq!(queries[0].query_time, 100_000);
    assert_eq!(queries[1].sql_text, "SELECT * FROM t WHERE id = 2;");
    assert_eq!(queries[1].query_time, 500_000);
}

#[test]
fn parse_log_of_nothing_is_empty() {
    assert!(parse_log(LineRules::new().unwrap(), &Vec::new()).is_empty());
    let only_headers = vec!["# Time: 2023-10-27T10:00:00Z\n".to_string(), "# User@Host: a @ b\n".to_string()];
    assert!(parse_log(LineRules::new().unwrap(), &only_headers).is_empty());
}

#[test]
fn metrics_are_found_anywhere_in_a_line() {
    let query = parser()
        .parse_block("x Query_time: 2  Lock_time: .25 Rows_sent: 3  Rows_examined: 4 y\nSELECT 1;")
        .unwrap();
    assert_eq!(query.query_time, 2_000_000);
    assert_eq!(query.lock_time, 250_000);
    assert_eq!(query.rows_sent, 3);
    assert_eq!(query.rows_examined, 4);
    assert_eq!(query.sql_text, "SELECT 1;");
}
