use slowlog::aggregator::{aggregate, Aggregation};
use slowlog::fingerprint::Fingerprinter;
use slowlog::instant::Timestamp;
use slowlog::parser::Query;
use slowlog::report::{
    format_query, format_summary_query, html_escape, percentile, prepare_report_items, ratio, time_range,
    zone_offset, Fraction, OutputFormat, Ratio,
};

fn query(sql: &str, micros: u64) -> Query {
    Query {
        query_time: micros,
        lock_time: 0,
        rows_sent: 0,
        rows_examined: 0,
        timestamp: None,
        user_host: String::new(),
        sql_text: sql.to_string(),
    }
}

fn fraction(num: u64, den: u64) -> Fraction {
    Fraction::new(num, den).expect("the denominator is not zero")
}

#[test]
fn percentile_of_ten_samples() {
    let times: Vec<u64> = (1..=10).map(|i| i * 100_000).collect();
    let p95 = percentile(&times, fraction(95, 100));
    assert_eq!(p95, 1_000_000);
    assert_eq!(p95 as f64 / 1e6, 1.0);
    assert_eq!(percentile(&times, fraction(99, 100)), 1_000_000);
    assert_eq!(percentile(&times, fraction(1, 2)), 500_000);
    assert_eq!(percentile(&times, fraction(51, 100)), 600_000);
    assert_eq!(percentile(&times, fraction(1, 10)), 100_000);
    assert_eq!(percentile(&times, fraction(0, 1)), 100_000);
}

#[test]
fn percentile_at_one_is_the_greatest() {
    let times = vec![3, 5, 5, 8, 13];
    assert_eq!(percentile(&times, fraction(1, 1)), 13);
    assert_eq!(percentile(&times, fraction(7, 7)), 13);
    assert_eq!(percentile(&times, fraction(3, 2)), 13);
}

#[test]
fn percentile_of_one_sample_is_that_sample() {
    for (num, den) in [(0, 1), (1, 100), (1, 2), (95, 100), (1, 1), (9, 2)] {
        assert_eq!(percentile(&vec![42], fraction(num, den)), 42);
    }
}

#[test]
fn percentile_of_no_samples_is_zero() {
    assert_eq!(percentile(&Vec::new(), fraction(95, 100)), 0);
}

#[test]
fn fraction_needs_a_denominator() {
    assert_eq!(Fraction::new(1, 0), None);
    assert_eq!(Fraction::new(95, 100), Some(Fraction { num: 95, den: 100 }));
}

#[test]
fn ratio_is_zero_without_rows_sent() {
    assert_eq!(ratio(100, 10), Ratio { num: 100, den: 10 });
    assert_eq!(ratio(0, 10), Ratio { num: 0, den: 10 });
    assert_eq!(ratio(100, 0), Ratio { num: 0, den: 1 });
    assert_eq!(ratio(0, 0), Ratio { num: 0, den: 1 });
}

#[test]
fn html_escape_replaces_the_five_characters() {
    assert_eq!(html_escape("a < b && c > 'd' \"e\""), "a &lt; b &amp;&amp; c &gt; &#39;d&#39; &quot;e&quot;");
    assert_eq!(html_escape("&amp;"), "&amp;amp;");
    assert_eq!(html_escape("plain"), "plain");
    assert_eq!(html_escape(""), "");
}

#[test]
fn format_query_cuts_long_text_for_a_table() {
    let long = "SELECT a,\nb FROM a_table_with_a_long_name WHERE something = 1";
    let shown = format_query(long, &OutputFormat::Table);
    assert_eq!(shown, "SELECT a, b FROM a_table_with_a_long_name WHERE...");
    assert_eq!(shown.chars().count(), 50);
    assert_eq!(
        format_query(long, &OutputFormat::Html),
        "SELECT a, b FROM a_table_with_a_long_name WHERE something = 1"
    );
}

#[test]
fn format_query_keeps_fifty_characters() {
    let fifty = "x".repeat(50);
    assert_eq!(format_query(&fifty, &OutputFormat::Table), fifty);
    let more = "x".repeat(51);
    assert_eq!(format_query(&more, &OutputFormat::Table), format!("{}...", "x".repeat(47)));
    assert_eq!(format_query("a\nb\n", &OutputFormat::Table), "a b ");
}

#[test]
fn time_range_is_written_at_the_offset() {
    let first = Some(Timestamp { secs: 1698400800, nanos: 123_456_000 });
    let last = Some(Timestamp { secs: 1698409800, nanos: 0 });
    assert_eq!(time_range(first, last, 9 * 3600), "2023-10-27 19:00:00 +0900 - 2023-10-27 21:30:00 +0900");
    assert_eq!(time_range(first, last, 0), "2023-10-27 10:00:00 +0000 - 2023-10-27 12:30:00 +0000");
    assert_eq!(time_range(first, last, -5 * 3600 - 1800), "2023-10-27 04:30:00 -0530 - 2023-10-27 07:00:00 -0530");
    assert_eq!(time_range(first, None, 0), "N/A");
    assert_eq!(time_range(None, last, 0), "N/A");
    assert_eq!(time_range(first, last, 86_400), "N/A");
    assert_eq!(time_range(Some(Timestamp { secs: i64::MAX, nanos: 0 }), last, 0), "N/A");
}

#[test]
fn items_are_ranked_by_total_time() {
    let rules = Fingerprinter::new().unwrap();
    let mut queries = vec![
        query("ABC", 300),
        query("SELECT 1", 900),
        query("abc", 100),
        query("DELETE FROM t", 5_000),
        query("SELECT 2", 200),
        query("abc", 50),
    ];
    queries[0].timestamp = Some(Timestamp { secs: 1698409800, nanos: 0 });
    queries[2].timestamp = Some(Timestamp { secs: 1698400800, nanos: 0 });
    queries[0].rows_sent = 4;
    queries[0].rows_examined = 10;
    queries[2].rows_examined = 2;
    queries[0].lock_time = 6;
    let items = prepare_report_items(aggregate(&rules, &queries), "+09:00", 20);
    assert_eq!(items.len(), 3);
    let keys: Vec<&str> = items.iter().map(|i| i.normalized_query.as_str()).collect();
    assert_eq!(keys, vec!["delete from t", "select ?", "abc"]);
    let ranks: Vec<usize> = items.iter().map(|i| i.rank).collect();
    assert_eq!(ranks, vec![1, 2, 3]);
    let totals: Vec<u128> = items.iter().map(|i| i.total_time).collect();
    assert_eq!(totals, vec![5_000, 1_100, 450]);

    let abc = &items[2];
    assert_eq!(abc.query_id, "900150983cd24fb0d6963f7d28e17f72");
    assert_eq!(abc.count, 3);
    assert_eq!(abc.mean_time, Ratio { num: 450, den: 3 });
    assert_eq!(abc.p95, 300);
    assert_eq!(abc.p99, 300);
    assert_eq!(abc.total_lock_time, 6);
    assert_eq!(abc.mean_lock_time, Ratio { num: 6, den: 3 });
    assert_eq!(abc.rows_sent, 4);
    assert_eq!(abc.rows_examined, 12);
    assert_eq!(abc.ratio, Ratio { num: 12, den: 4 });
    assert_eq!(abc.time_range, "2023-10-27 19:00:00 +0900 - 2023-10-27 21:30:00 +0900");
    assert_eq!(abc.example_query, "ABC");
    assert_eq!(abc.worst_example_query, "ABC");

    let select = &items[1];
    assert_eq!(select.query_id, "1fe1379fe2a31b8d16219655761820a2");
    assert_eq!(select.ratio, Ratio { num: 0, den: 1 });
    assert_eq!(select.time_range, "N/A");
    assert_eq!(select.p95, 900);
}

#[test]
fn percentiles_are_taken_of_the_sorted_times() {
    let rules = Fingerprinter::new().unwrap();
    let times = [70, 10, 100, 30, 20, 90, 40, 60, 50, 80, 5, 1, 2, 3, 4, 6, 7, 8, 9, 11];
    let queries: Vec<Query> = times.iter().map(|t| query("SELECT 1", *t)).collect();
    let items = prepare_report_items(aggregate(&rules, &queries), "+00:00", 1);
    assert_eq!(items.len(), 1);
    assert_eq!(items[0].p95, 90);
    assert_eq!(items[0].p99, 100);
    assert_eq!(items[0].count, 20);
}

#[test]
fn limit_bounds_the_items() {
    let rules = Fingerprinter::new().unwrap();
    let queries = vec![query("SELECT a", 1), query("SELECT b", 3), query("SELECT c", 2)];
    let two = prepare_report_items(aggregate(&rules, &queries), "+00:00", 2);
    let keys: Vec<&str> = two.iter().map(|i| i.normalized_query.as_str()).collect();
    assert_eq!(keys, vec!["select b", "select c"]);
    assert!(prepare_report_items(aggregate(&rules, &queries), "+00:00", 0).is_empty());
    assert!(prepare_report_items(Aggregation::new(), "+00:00", 5).is_empty());
}

#[test]
fn an_invalid_time_zone_means_utc() {
    let rules = Fingerprinter::new().unwrap();
    let mut q = query("SELECT 1", 1);
    q.timestamp = Some(Timestamp { secs: 1698400800, nanos: 0 });
    let items = prepare_report_items(aggregate(&rules, &vec![q]), "Tokyo", 5);
    assert_eq!(items[0].time_range, "2023-10-27 10:00:00 +0000 - 2023-10-27 10:00:00 +0000");
}

#[test]
fn summary_query_is_cut_to_a_hundred_characters() {
    let hundred = "y".repeat(100);
    assert_eq!(format_summary_query(&hundred), hundred);
    let more = format!("SELECT\n{}", "y".repeat(100));
    assert_eq!(format_summary_query(&more), format!("SELECT {}...", "y".repeat(90)));
}

#[test]
fn zone_offset_reads_hours_and_minutes() {
    assert_eq!(zone_offset("+09:00"), (32_400, false));
    assert_eq!(zone_offset("-05:30"), (-19_800, false));
    assert_eq!(zone_offset("+00:00"), (0, false));
    assert_eq!(zone_offset("Tokyo"), (0, true));
    assert_eq!(zone_offset(""), (0, true));
}

#[test]
fn format_query_measures_bytes() {
    let fits = "\u{e9}".repeat(25);
    assert_eq!(fits.len(), 50);
    assert_eq!(format_query(&fits, &OutputFormat::Table), fits);

    let at_boundary = format!("{}\u{e9}\u{e9}", "x".repeat(47));
    assert_eq!(at_boundary.len(), 51);
    assert_eq!(format_query(&at_boundary, &OutputFormat::Table), format!("{}...", "x".repeat(47)));

    let inside_a_character = "\u{e9}".repeat(26);
    assert_eq!(inside_a_character.len(), 52);
    assert_eq!(
        format_query(&inside_a_character, &OutputFormat::Table),
        format!("{}...", "\u{e9}".repeat(23))
    );
    assert_eq!(format_query(&inside_a_character, &OutputFormat::Html), inside_a_character);
}
