//! Running statistics, one set per fingerprint.
use vstd::prelude::*;
use vstd::hash_map::StringHashMap;
use crate::fingerprint::{fingerprint, fingerprint_of, Fingerprinter};
use crate::instant::Timestamp;
use crate::parser::{Query, QueryData};

verus! {

/// The statistics of the queries that share one fingerprint. Times are in
/// microseconds.
#[derive(Debug)]
pub struct QueryStats {
    pub count: u64,
    pub total_time: u128,
    pub min_time: u64,
    pub max_time: u64,
    pub total_lock_time: u128,
    pub total_rows_sent: u128,
    pub total_rows_examined: u128,
    pub example_query: String,
    pub all_query_times: Vec<u64>,
    pub first_seen: Option<Timestamp>,
    pub last_seen: Option<Timestamp>,
    pub worst_example_query: String,
}

/// What a `QueryStats` holds, as numbers and sequences.
pub struct StatsData {
    pub count: nat,
    pub total_time: nat,
    pub min_time: u64,
    pub max_time: u64,
    pub total_lock_time: nat,
    pub total_rows_sent: nat,
    pub total_rows_examined: nat,
    pub example_query: Seq<char>,
    pub all_query_times: Seq<u64>,
    pub first_seen: Option<Timestamp>,
    pub last_seen: Option<Timestamp>,
    pub worst_example_query: Seq<char>,
}

/// The statistics of no query: zeros and empty texts, and as the shortest time
/// the greatest number, so that the first query's time replaces it.
pub open spec fn no_stats() -> StatsData {
    StatsData {
        count: 0,
        total_time: 0,
        min_time: u64::MAX,
        max_time: 0,
        total_lock_time: 0,
        total_rows_sent: 0,
        total_rows_examined: 0,
        example_query: Seq::empty(),
        all_query_times: Seq::empty(),
        first_seen: None,
        last_seen: None,
        worst_example_query: Seq::empty(),
    }
}

/// The earlier of an instant seen so far, if any, and a new one.
pub open spec fn earlier(seen: Option<Timestamp>, at: Timestamp) -> Timestamp {
    match seen {
        Some(t) => if at.is_before(t) {
            at
        } else {
            t
        },
        None => at,
    }
}

/// The later of an instant seen so far, if any, and a new one.
pub open spec fn later(seen: Option<Timestamp>, at: Timestamp) -> Timestamp {
    match seen {
        Some(t) => if t.is_before(at) {
            at
        } else {
            t
        },
        None => at,
    }
}

/// The statistics after one more query. The worst example is the text of the
/// first query that took the longest time; the example is the first text that
/// is not empty.
pub open spec fn with_query(s: StatsData, q: QueryData) -> StatsData {
    StatsData {
        count: s.count + 1,
        total_time: s.total_time + q.query_time as nat,
        min_time: if q.query_time < s.min_time {
            q.query_time
        } else {
            s.min_time
        },
        max_time: if q.query_time > s.max_time {
            q.query_time
        } else {
            s.max_time
        },
        total_lock_time: s.total_lock_time + q.lock_time as nat,
        total_rows_sent: s.total_rows_sent + q.rows_sent as nat,
        total_rows_examined: s.total_rows_examined + q.rows_examined as nat,
        example_query: if s.example_query.len() == 0 {
            q.sql_text
        } else {
            s.example_query
        },
        all_query_times: s.all_query_times.push(q.query_time),
        first_seen: match q.timestamp {
            Some(at) => Some(earlier(s.first_seen, at)),
            None => s.first_seen,
        },
        last_seen: match q.timestamp {
            Some(at) => Some(later(s.last_seen, at)),
            None => s.last_seen,
        },
        worst_example_query: if q.query_time > s.max_time {
            q.sql_text
        } else {
            s.worst_example_query
        },
    }
}

/// The statistics of a sequence of queries, taken in order.
pub open spec fn summary(records: Seq<QueryData>) -> StatsData
    decreases records.len(),
{
    if records.len() == 0 {
        no_stats()
    } else {
        with_query(summary(records.drop_last()), records.last())
    }
}

/// The sum of a sequence of times.
pub open spec fn sum_of(times: Seq<u64>) -> nat
    decreases times.len(),
{
    if times.len() == 0 {
        0
    } else {
        sum_of(times.drop_last()) + times.last() as nat
    }
}

/// The test that a query's statement has the fingerprint `f`.
pub open spec fn has_fingerprint(f: Seq<char>) -> spec_fn(QueryData) -> bool {
    |q: QueryData| fingerprint_of(q.sql_text) == f
}

/// The records whose statement has the fingerprint `f`, in order.
pub open spec fn with_fingerprint(records: Seq<QueryData>, f: Seq<char>) -> Seq<QueryData> {
    records.filter(has_fingerprint(f))
}

impl View for QueryStats {
    type V = StatsData;

    open spec fn view(&self) -> StatsData {
        StatsData {
            count: self.count as nat,
            total_time: self.total_time as nat,
            min_time: self.min_time,
            max_time: self.max_time,
            total_lock_time: self.total_lock_time as nat,
            total_rows_sent: self.total_rows_sent as nat,
            total_rows_examined: self.total_rows_examined as nat,
            example_query: self.example_query@,
            all_query_times: self.all_query_times@,
            first_seen: self.first_seen,
            last_seen: self.last_seen,
            worst_example_query: self.worst_example_query@,
        }
    }
}

impl QueryStats {
    /// The count is the number of times kept, and no total is more than the
    /// count allows.
    pub open spec fn wf(&self) -> bool {
        &&& self.count == self.all_query_times@.len()
        &&& self.total_time <= self.count * 0xFFFF_FFFF_FFFF_FFFF
        &&& self.total_lock_time <= self.count * 0xFFFF_FFFF_FFFF_FFFF
        &&& self.total_rows_sent <= self.count * 0xFFFF_FFFF_FFFF_FFFF
        &&& self.total_rows_examined <= self.count * 0xFFFF_FFFF_FFFF_FFFF
    }

    /// Takes one more query into the statistics.
    pub fn add(&mut self, query: &Query)
        requires
            old(self).wf(),
        ensures
            final(self).wf(),
            final(self)@ == with_query(old(self)@, query@),
    {
        self.all_query_times.push(query.query_time);
        let kept: usize = self.all_query_times.len();
        self.count = kept as u64;
        self.total_time = self.total_time + query.query_time as u128;
        if query.query_time < self.min_time {
            self.min_time = query.query_time;
        }
        if query.query_time > self.max_time {
            self.max_time = query.query_time;
            self.worst_example_query = query.sql_text.clone();
        }
        self.total_lock_time = self.total_lock_time + query.lock_time as u128;
        self.total_rows_sent = self.total_rows_sent + query.rows_sent as u128;
        self.total_rows_examined = self.total_rows_examined + query.rows_examined as u128;
        match query.timestamp {
            Some(at) => {
                let first = match self.first_seen {
                    Some(t) => if at.before(&t) {
                        at
                    } else {
                        t
                    },
                    None => at,
                };
                let last = match self.last_seen {
                    Some(t) => if t.before(&at) {
                        at
                    } else {
                        t
                    },
                    None => at,
                };
                self.first_seen = Some(first);
                self.last_seen = Some(last);
            },
            None => {},
        }
        if self.example_query.as_str().is_empty() {
            self.example_query = query.sql_text.clone();
        }
    }
}

impl Default for QueryStats {
    /// The statistics of no query.
    fn default() -> (stats: QueryStats)
        ensures
            stats.wf(),
            stats@ == no_stats(),
    {
        QueryStats {
            count: 0,
            total_time: 0,
            min_time: u64::MAX,
            max_time: 0,
            total_lock_time: 0,
            total_rows_sent: 0,
            total_rows_examined: 0,
            example_query: String::new(),
            all_query_times: Vec::new(),
            first_seen: None,
            last_seen: None,
            worst_example_query: String::new(),
        }
    }
}

/// The statistics of one fingerprint.
#[derive(Debug)]
pub struct Group {
    pub fingerprint: String,
    pub stats: QueryStats,
}

/// The map after one more query: the statistics under the query's fingerprint
/// take the query in, starting from those of no query where the fingerprint
/// is new. No other entry changes.
pub open spec fn with_record(m: Map<Seq<char>, StatsData>, q: QueryData) -> Map<
    Seq<char>,
    StatsData,
> {
    let f = fingerprint_of(q.sql_text);
    let before = if m.contains_key(f) {
        m[f]
    } else {
        no_stats()
    };
    m.insert(f, with_query(before, q))
}

/// The statistics of a sequence of queries, by fingerprint.
pub open spec fn aggregated(records: Seq<QueryData>) -> Map<Seq<char>, StatsData>
    decreases records.len(),
{
    if records.len() == 0 {
        Map::empty()
    } else {
        with_record(aggregated(records.drop_last()), records.last())
    }
}

/// The fingerprints of a sequence of queries, each once, in the order in
/// which they first come.
pub open spec fn first_seen_order(records: Seq<QueryData>) -> Seq<Seq<char>>
    decreases records.len(),
{
    if records.len() == 0 {
        Seq::empty()
    } else {
        let before = first_seen_order(records.drop_last());
        let f = fingerprint_of(records.last().sql_text);
        if aggregated(records.drop_last()).contains_key(f) {
            before
        } else {
            before.push(f)
        }
    }
}

/// The groups are those of the map: each is an entry of it, no fingerprint
/// comes twice, and every entry has its group.
pub open spec fn lists_all(groups: Seq<Group>, m: Map<Seq<char>, StatsData>) -> bool {
    &&& forall|i: int|
        0 <= i < groups.len() ==> m.contains_key(#[trigger] groups[i].fingerprint@)
            && m[groups[i].fingerprint@] == groups[i].stats@ && groups[i].stats.wf()
    &&& forall|i: int, j: int|
        0 <= i < groups.len() && 0 <= j < groups.len() && i != j
            ==> #[trigger] groups[i].fingerprint@ != #[trigger] groups[j].fingerprint@
    &&& forall|k: Seq<char>|
        m.contains_key(k) ==> exists|i: int|
            0 <= i < groups.len() && #[trigger] groups[i].fingerprint@ == k
}

/// The statistics of the queries taken in so far, one group per fingerprint.
/// Groups are only ever added.
pub struct Aggregation {
    index: StringHashMap<usize>,
    groups: Vec<Group>,
}

impl View for Aggregation {
    type V = Map<Seq<char>, StatsData>;

    /// The statistics by fingerprint.
    closed spec fn view(&self) -> Map<Seq<char>, StatsData> {
        Map::new(
            |k: Seq<char>| self.index@.contains_key(k),
            |k: Seq<char>| self.groups@[self.index@[k] as int].stats@,
        )
    }
}

impl Aggregation {
    /// The fingerprints of the groups, in the order in which they were first
    /// seen.
    pub closed spec fn keys(&self) -> Seq<Seq<char>> {
        Seq::new(self.groups@.len(), |i: int| self.groups@[i].fingerprint@)
    }

    /// The index finds each group under its fingerprint, and nothing else.
    pub closed spec fn wf(&self) -> bool {
        &&& forall|i: int|
            0 <= i < self.groups@.len() ==> (#[trigger] self.groups@[i]).stats.wf()
                && self.index@.contains_key(self.groups@[i].fingerprint@)
                && self.index@[self.groups@[i].fingerprint@] == i
        &&& forall|k: Seq<char>|
            self.index@.contains_key(k) ==> (#[trigger] self.index@[k]) < self.groups@.len()
                && self.groups@[self.index@[k] as int].fingerprint@ == k
    }

    /// No statistics yet.
    pub fn new() -> (out: Aggregation)
        ensures
            out.wf(),
            out@ == Map::<Seq<char>, StatsData>::empty(),
            out.keys() == Seq::<Seq<char>>::empty(),
    {
        let out = Aggregation { index: StringHashMap::new(), groups: Vec::new() };
        proof {
            assert(out@ =~= Map::<Seq<char>, StatsData>::empty());
            assert(out.keys() =~= Seq::<Seq<char>>::empty());
        }
        out
    }

    /// Takes one query into the statistics of its fingerprint.
    pub fn record(&mut self, rules: &Fingerprinter, query: &Query)
        requires
            old(self).wf(),
            rules.wf(),
        ensures
            final(self).wf(),
            final(self)@ == with_record(old(self)@, query@),
            final(self).keys() == (if old(self)@.contains_key(fingerprint_of(query.sql_text@)) {
                old(self).keys()
            } else {
                old(self).keys().push(fingerprint_of(query.sql_text@))
            }),
    {
        let key = fingerprint(rules, query.sql_text.as_str());
        let found: Option<usize> = match self.index.get(key.as_str()) {
            Some(i) => Some(*i),
            None => None,
        };
        let ghost before = *self;
        match found {
            Some(i) => {
                let group = &mut self.groups[i];
                group.stats.add(query);
                proof {
                    assert(self.groups@.len() == before.groups@.len());
                    assert forall|j: int| 0 <= j < self.groups@.len() implies (
                    #[trigger] self.groups@[j]).fingerprint@ == before.groups@[j].fingerprint@ by {}
                }
            },
            None => {
                let mut stats = QueryStats::default();
                stats.add(query);
                let at: usize = self.groups.len();
                self.index.insert(key.clone(), at);
                self.groups.push(Group { fingerprint: key, stats });
            },
        }
        proof {
            assert(self@ =~= with_record(before@, query@));
            if before@.contains_key(key@) {
                assert(self.keys() =~= before.keys());
            } else {
                assert(self.keys() =~= before.keys().push(key@));
            }
        }
    }

    /// Gives the groups out, in the order in which their fingerprints were
    /// first seen.
    pub fn into_groups(self) -> (groups: Vec<Group>)
        requires
            self.wf(),
        ensures
            lists_all(groups@, self@),
            groups@.len() == self.keys().len(),
            forall|i: int|
                0 <= i < groups@.len() ==> (#[trigger] groups@[i]).fingerprint@ == self.keys()[i],
    {
        proof {
            assert forall|k: Seq<char>| self@.contains_key(k) implies exists|i: int|
                0 <= i < self.groups@.len() && #[trigger] self.groups@[i].fingerprint@ == k by {
                let i = self.index@[k] as int;
                assert(self.groups@[i].fingerprint@ == k);
            }
        }
        self.groups
    }
}

/// Takes the queries one by one, in order, into the statistics of their
/// fingerprints.
pub fn aggregate(rules: &Fingerprinter, queries: &Vec<Query>) -> (out: Aggregation)
    requires
        rules.wf(),
    ensures
        out.wf(),
        out@ == aggregated(queries.deep_view()),
        out.keys() == first_seen_order(queries.deep_view()),
{
    let mut out = Aggregation::new();
    let ghost all = queries.deep_view();
    let mut i: usize = 0;
    while i < queries.len()
        invariant
            i <= queries.len(),
            rules.wf(),
            out.wf(),
            all == queries.deep_view(),
            out@ == aggregated(all.take(i as int)),
            out.keys() == first_seen_order(all.take(i as int)),
        decreases queries.len() - i,
    {
        proof {
            assert(all.take(i + 1).drop_last() =~= all.take(i as int));
            assert(all.take(i + 1).last() == queries@[i as int]@);
        }
        out.record(rules, &queries[i]);
        i = i + 1;
    }
    proof {
        assert(all.take(queries.len() as int) =~= all);
    }
    out
}

/// The statistics of a sequence of queries count the queries, keep their times
/// in order, hold the sum of those times as the total, and have every time
/// between the shortest and the longest.
pub proof fn lemma_summary_bounds(records: Seq<QueryData>)
    ensures
        summary(records).count == records.len(),
        summary(records).all_query_times.len() == records.len(),
        forall|i: int|
            0 <= i < records.len() ==> #[trigger] summary(records).all_query_times[i]
                == records[i].query_time,
        forall|i: int|
            0 <= i < records.len() ==> summary(records).min_time <= #[trigger] summary(
                records,
            ).all_query_times[i] <= summary(records).max_time,
        summary(records).total_time == sum_of(summary(records).all_query_times),
    decreases records.len(),
{
    if records.len() > 0 {
        let before = records.drop_last();
        lemma_summary_bounds(before);
        let s = summary(before);
        let t = summary(records);
        assert(t.all_query_times.drop_last() =~= s.all_query_times);
        assert forall|i: int| 0 <= i < records.len() implies #[trigger] t.all_query_times[i]
            == records[i].query_time by {
            if i < before.len() {
                assert(t.all_query_times[i] == s.all_query_times[i]);
                assert(before[i] == records[i]);
            }
        }
        assert forall|i: int| 0 <= i < records.len() implies t.min_time
            <= #[trigger] t.all_query_times[i] <= t.max_time by {
            if i < before.len() {
                assert(t.all_query_times[i] == s.all_query_times[i]);
            }
        }
    }
}

/// A fingerprint has a group exactly where a query has that fingerprint, and
/// the group holds the statistics of the queries with that fingerprint, taken
/// in order. So its count is the number of those queries.
pub proof fn lemma_group_is_summary(records: Seq<QueryData>, f: Seq<char>)
    ensures
        aggregated(records).contains_key(f) <==> with_fingerprint(records, f).len() > 0,
        aggregated(records).contains_key(f) ==> aggregated(records)[f] == summary(
            with_fingerprint(records, f),
        ),
        aggregated(records).contains_key(f) ==> aggregated(records)[f].count == with_fingerprint(
            records,
            f,
        ).len(),
    decreases records.len(),
{
    reveal(Seq::filter);
    if records.len() > 0 {
        let before = records.drop_last();
        lemma_group_is_summary(before, f);
        if fingerprint_of(records.last().sql_text) == f {
            let mine = with_fingerprint(records, f);
            assert(mine.drop_last() =~= with_fingerprint(before, f));
            assert(mine.last() == records.last());
        }
        lemma_summary_bounds(with_fingerprint(records, f));
    }
}

/// Groups are never removed: a fingerprint that has a group after some of the
/// queries still has one after all of them.
pub proof fn lemma_groups_only_grow(records: Seq<QueryData>, k: int, f: Seq<char>)
    requires
        0 <= k <= records.len(),
        aggregated(records.take(k)).contains_key(f),
    ensures
        aggregated(records).contains_key(f),
    decreases records.len() - k,
{
    if k == records.len() {
        assert(records.take(k) =~= records);
    } else {
        assert(records.drop_last().take(k) =~= records.take(k));
        lemma_groups_only_grow(records.drop_last(), k, f);
    }
}

/// In every group each time kept lies between the group's shortest and
/// longest time, the total time is the sum of the times kept, and there are as
/// many of them as the count says.
pub proof fn lemma_group_bounds(records: Seq<QueryData>, f: Seq<char>)
    requires
        aggregated(records).contains_key(f),
    ensures
        aggregated(records)[f].count == aggregated(records)[f].all_query_times.len(),
        aggregated(records)[f].total_time == sum_of(aggregated(records)[f].all_query_times),
        forall|i: int|
            0 <= i < aggregated(records)[f].all_query_times.len() ==> aggregated(
                records,
            )[f].min_time <= #[trigger] aggregated(records)[f].all_query_times[i] <= aggregated(
                records,
            )[f].max_time,
{
    lemma_group_is_summary(records, f);
    lemma_summary_bounds(with_fingerprint(records, f));
}

} // verus!
