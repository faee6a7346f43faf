use slowlog::aggregator::{aggregate, Aggregation, QueryStats};
use slowlog::fingerprint::{fingerprint, Fingerprinter};
use slowlog::instant::Timestamp;
use slowlog::parser::Query;

fn query(sql: &str, micros: u64) -> Query {
    Query {
        query_time: micros,
        lock_time: 10,
        rows_sent: 2,
        rows_examined: 8,
        timestamp: None,
        user_host: String::new(),
        sql_text: sql.to_string(),
    }
}

fn stats_of(all: Aggregation, key: &str) -> QueryStats {
    all.into_groups().into_iter().find(|g| g.fingerprint == key).expect("the group is there").stats
}

#[test]
fn default_stats_are_those_of_no_query() {
    let stats = QueryStats::default();
    assert_eq!(stats.count, 0);
    assert_eq!(stats.total_time, 0);
    assert_eq!(stats.min_time, u64::MAX);
    assert_eq!(stats.max_time, 0);
    assert_eq!(stats.example_query, "");
    assert_eq!(stats.worst_example_query, "");
    assert!(stats.all_query_times.is_empty());
    assert_eq!(stats.first_seen, None);
    assert_eq!(stats.last_seen, None);
}

#[test]
fn two_queries_of_one_shape_make_one_group() {
    let rules = Fingerprinter::new().unwrap();
    let queries = vec![
        query("SELECT * FROM t WHERE id = 1", 100_000),
        query("SELECT * FROM t WHERE id = 2", 500_000),
    ];
    let groups = aggregate(&rules, &queries).into_groups();
    assert_eq!(groups.len(), 1);
    let stats = &groups[0].stats;
    assert_eq!(groups[0].fingerprint, "select * from t where id = ?");
    assert_eq!(stats.count, 2);
    assert_eq!(stats.total_time, 600_000);
    assert_eq!(stats.total_time as f64 / 1e6, 0.6);
    assert_eq!(stats.min_time, 100_000);
    assert_eq!(stats.min_time as f64 / 1e6, 0.1);
    assert_eq!(stats.max_time, 500_000);
    assert_eq!(stats.max_time as f64 / 1e6, 0.5);
    assert_eq!(stats.worst_example_query, "SELECT * FROM t WHERE id = 2");
    assert_eq!(stats.example_query, "SELECT * FROM t WHERE id = 1");
    assert_eq!(stats.all_query_times, vec![100_000, 500_000]);
    assert_eq!(stats.total_lock_time, 20);
    assert_eq!(stats.total_rows_sent, 4);
    assert_eq!(stats.total_rows_examined, 16);
}

#[test]
fn first_of_equal_longest_times_stays_the_worst_example() {
    let rules = Fingerprinter::new().unwrap();
    let queries = vec![query("SELECT 1", 7), query("SELECT 2", 9), query("SELECT 3", 9), query("SELECT 4", 8)];
    let stats = stats_of(aggregate(&rules, &queries), "select ?");
    assert_eq!(stats.max_time, 9);
    assert_eq!(stats.worst_example_query, "SELECT 2");
    assert_eq!(stats.example_query, "SELECT 1");
}

#[test]
fn a_time_of_zero_sets_no_worst_example() {
    let rules = Fingerprinter::new().unwrap();
    let stats = stats_of(aggregate(&rules, &vec![query("SELECT 1", 0)]), "select ?");
    assert_eq!(stats.count, 1);
    assert_eq!(stats.min_time, 0);
    assert_eq!(stats.max_time, 0);
    assert_eq!(stats.worst_example_query, "");
    assert_eq!(stats.example_query, "SELECT 1");
}

#[test]
fn each_group_counts_the_queries_of_its_fingerprint() {
    let rules = Fingerprinter::new().unwrap();
    let texts = ["SELECT 1", "UPDATE t SET a = 1", "select   2", "DELETE FROM t", "UPDATE t SET a = 'x'", "SELECT 3"];
    let queries: Vec<Query> = texts.iter().enumerate().map(|(i, t)| query(t, 10 * (i as u64 + 1))).collect();
    let groups = aggregate(&rules, &queries).into_groups();
    assert_eq!(groups.len(), 3);
    for group in &groups {
        let mine: Vec<&Query> =
            queries.iter().filter(|q| fingerprint(&rules, &q.sql_text) == group.fingerprint).collect();
        assert_eq!(group.stats.count as usize, mine.len());
        let times: Vec<u64> = mine.iter().map(|q| q.query_time).collect();
        assert_eq!(group.stats.all_query_times, times);
        assert_eq!(group.stats.total_time, times.iter().map(|t| *t as u128).sum::<u128>());
        for t in &times {
            assert!(group.stats.min_time <= *t && *t <= group.stats.max_time);
        }
    }
    let keys: Vec<&str> = groups.iter().map(|g| g.fingerprint.as_str()).collect();
    assert_eq!(keys, vec!["select ?", "update t set a = ?", "delete from t"]);
}

#[test]
fn first_and_last_seen_are_the_earliest_and_latest() {
    let rules = Fingerprinter::new().unwrap();
    let at = |secs: i64, nanos: u32| Some(Timestamp { secs, nanos });
    let mut queries = vec![query("SELECT 1", 1), query("SELECT 1", 1), query("SELECT 1", 1), query("SELECT 1", 1)];
    queries[0].timestamp = at(100, 5);
    queries[1].timestamp = None;
    queries[2].timestamp = at(100, 4);
    queries[3].timestamp = at(250, 0);
    let stats = stats_of(aggregate(&rules, &queries), "select ?");
    assert_eq!(stats.first_seen, at(100, 4));
    assert_eq!(stats.last_seen, at(250, 0));
}

#[test]
fn totals_do_not_overflow_sixty_four_bits() {
    let rules = Fingerprinter::new().unwrap();
    let mut big = query("SELECT 1", u64::MAX);
    big.rows_sent = u64::MAX;
    let mut all = Aggregation::new();
    all.record(&rules, &big);
    all.record(&rules, &big);
    let stats = stats_of(all, "select ?");
    assert_eq!(stats.total_time, 2 * (u64::MAX as u128));
    assert_eq!(stats.total_rows_sent, 2 * (u64::MAX as u128));
    assert_eq!(stats.count, 2);
}
