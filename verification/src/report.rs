//! The ranked report: percentiles, means and ratios of each group, and the
//! texts that a renderer shows.
use vstd::prelude::*;
use vstd::string::StringExecFns;
use crate::aggregator::{Aggregation, Group, QueryStats, StatsData};
use crate::instant::{format_instant, instant_text, parse_utc_offset, utc_offset_seconds, Timestamp};
use crate::sorting::{ascending, is_ascending, lemma_ascending_sorts, sort_times};
use crate::text::{byte_len, chars_of, count_fitting, fitting, slice_of, string_of, takes_more_than};

verus! {

/// The kinds of output.
#[derive(Clone, Copy, Debug, PartialEq, Eq, Structural)]
pub enum OutputFormat {
    Table,
    Html,
}

/// A fraction of two whole numbers.
#[derive(Clone, Copy, Debug, PartialEq, Eq, Structural)]
pub struct Fraction {
    pub num: u64,
    pub den: u64,
}

impl Fraction {
    /// The denominator is not zero.
    pub open spec fn wf(&self) -> bool {
        self.den > 0
    }

    /// The fraction `num / den`; `None` where `den` is zero.
    pub fn new(num: u64, den: u64) -> (r: Option<Fraction>)
        ensures
            r == (if den > 0 {
                Some(Fraction { num, den })
            } else {
                None::<Fraction>
            }),
            r matches Some(p) ==> p.wf(),
    {
        if den > 0 {
            Some(Fraction { num, den })
        } else {
            None
        }
    }
}

/// The quotient of two totals, kept exact: `num / den`, with `den` at least 1.
#[derive(Clone, Copy, Debug, PartialEq, Eq, Structural)]
pub struct Ratio {
    pub num: u128,
    pub den: u128,
}

/// `part / whole` where `whole` is more than zero, else zero, written `0 / 1`.
pub open spec fn ratio_of(part: nat, whole: nat) -> (nat, nat) {
    if whole > 0 {
        (part, whole)
    } else {
        (0, 1)
    }
}

/// The quotient of two totals: `part / whole` where `whole` is more than
/// zero, else zero.
pub fn ratio(part: u128, whole: u128) -> (r: Ratio)
    ensures
        (r.num as nat, r.den as nat) == ratio_of(part as nat, whole as nat),
        r.den > 0,
        whole > 0 ==> r.num == part && r.den == whole,
        whole == 0 ==> r.num == 0,
{
    if whole > 0 {
        Ratio { num: part, den: whole }
    } else {
        Ratio { num: 0, den: 1 }
    }
}

/// `a / b`, rounded up.
pub open spec fn ceil_div(a: nat, b: nat) -> nat
    recommends
        b > 0,
{
    if a % b == 0 {
        a / b
    } else {
        a / b + 1
    }
}

/// `ceil_div(a, b)` is the least number of times that `b` must be taken to
/// reach `a`: that many reach it, and so does no smaller number `k`.
pub proof fn lemma_ceil_div_is_least(a: nat, b: nat, k: nat)
    requires
        b > 0,
    ensures
        ceil_div(a, b) * b >= a,
        k < ceil_div(a, b) ==> k * b < a,
{
    let q = a / b;
    let r = a % b;
    vstd::arithmetic::div_mod::lemma_fundamental_div_mod(a as int, b as int);
    assert(a == b * q + r);
    assert(0 <= r < b);
    let c = ceil_div(a, b);
    assert(c * b >= a && (k < c ==> k * b < a)) by (nonlinear_arith)
        requires
            a == b * q + r,
            0 <= r < b,
            0 <= k,
            c == (if r == 0 {
                q
            } else {
                q + 1
            }),
    ;
}

/// The place, counted from zero, of the nearest rank at fraction `p` among
/// `n` values: `n * p` rounded up, less one but not below zero, and not
/// beyond the last place.
pub open spec fn rank_offset(n: nat, p: Fraction) -> nat
    recommends
        n > 0,
        p.wf(),
{
    let rank = ceil_div(n * p.num as nat, p.den as nat);
    let place = if rank == 0 {
        0
    } else {
        (rank - 1) as nat
    };
    if place > n - 1 {
        (n - 1) as nat
    } else {
        place
    }
}

/// The value at the nearest rank at fraction `p`; zero for no values. The
/// values are taken in the order given: sort them first.
pub open spec fn percentile_of(times: Seq<u64>, p: Fraction) -> u64
    recommends
        p.wf(),
{
    if times.len() == 0 {
        0
    } else {
        times[rank_offset(times.len(), p) as int]
    }
}

/// The percentile at fraction `p` of values in ascending order.
pub fn percentile(times: &Vec<u64>, p: Fraction) -> (value: u64)
    requires
        p.wf(),
    ensures
        value == percentile_of(times@, p),
{
    if times.len() == 0 {
        return 0;
    }
    let n: u128 = times.len() as u128;
    let num: u128 = p.num as u128;
    let den: u128 = p.den as u128;
    assert(n * num <= 0xFFFF_FFFF_FFFF_FFFF * 0xFFFF_FFFF_FFFF_FFFF) by (nonlinear_arith)
        requires
            0 <= n <= 0xFFFF_FFFF_FFFF_FFFF,
            0 <= num <= 0xFFFF_FFFF_FFFF_FFFF,
    ;
    let scaled: u128 = n * num;
    let rank: u128 = if scaled % den == 0 {
        scaled / den
    } else {
        scaled / den + 1
    };
    let place: u128 = if rank == 0 {
        0
    } else {
        rank - 1
    };
    let at: usize = if place > n - 1 {
        times.len() - 1
    } else {
        place as usize
    };
    times[at]
}

/// At a fraction of one or more, the percentile of values in ascending order
/// is their greatest.
pub proof fn lemma_percentile_at_one_is_greatest(times: Seq<u64>, p: Fraction)
    requires
        times.len() > 0,
        is_ascending(times),
        p.wf(),
        p.num >= p.den,
    ensures
        percentile_of(times, p) == times.last(),
        forall|i: int| 0 <= i < times.len() ==> times[i] <= percentile_of(times, p),
{
    let n = times.len();
    let num = p.num as nat;
    let den = p.den as nat;
    assert(n * num >= n * den) by (nonlinear_arith)
        requires
            num >= den,
            n >= 0,
    ;
    assert((n * num) / den >= n) by {
        vstd::arithmetic::div_mod::lemma_div_is_ordered((n * den) as int, (n * num) as int, den as int);
        vstd::arithmetic::div_mod::lemma_div_multiples_vanish(n as int, den as int);
        assert(n * den == den * n) by (nonlinear_arith);
    }
    assert(ceil_div(n * num, den) >= n);
    assert(rank_offset(n, p) == n - 1);
}

/// The percentile of a single value is that value, at any fraction.
pub proof fn lemma_percentile_of_one_value(times: Seq<u64>, p: Fraction)
    requires
        times.len() == 1,
    ensures
        percentile_of(times, p) == times[0],
{
}

/// The text that stands for `c` in HTML: an entity for `&`, `<`, `>`, `"` and
/// `'`, the character itself otherwise.
pub open spec fn escape_of(c: char) -> Seq<char> {
    if c == '&' {
        seq!['&', 'a', 'm', 'p', ';']
    } else if c == '<' {
        seq!['&', 'l', 't', ';']
    } else if c == '>' {
        seq!['&', 'g', 't', ';']
    } else if c == '"' {
        seq!['&', 'q', 'u', 'o', 't', ';']
    } else if c == '\'' {
        seq!['&', '#', '3', '9', ';']
    } else {
        seq![c]
    }
}

/// The text with each character escaped for HTML.
pub open spec fn escaped(s: Seq<char>) -> Seq<char>
    decreases s.len(),
{
    if s.len() == 0 {
        Seq::empty()
    } else {
        escaped(s.drop_last()) + escape_of(s.last())
    }
}

/// Escapes a text for HTML.
pub fn html_escape(s: &str) -> (out: String)
    ensures
        out@ == escaped(s@),
{
    let chars = chars_of(s);
    let mut out: Vec<char> = Vec::new();
    let mut i: usize = 0;
    while i < chars.len()
        invariant
            i <= chars.len(),
            out@ == escaped(chars@.subrange(0, i as int)),
        decreases chars.len() - i,
    {
        let c: char = chars[i];
        let ghost before = out@;
        if c == '&' {
            out.push('&');
            out.push('a');
            out.push('m');
            out.push('p');
            out.push(';');
        } else if c == '<' {
            out.push('&');
            out.push('l');
            out.push('t');
            out.push(';');
        } else if c == '>' {
            out.push('&');
            out.push('g');
            out.push('t');
            out.push(';');
        } else if c == '"' {
            out.push('&');
            out.push('q');
            out.push('u');
            out.push('o');
            out.push('t');
            out.push(';');
        } else if c == '\'' {
            out.push('&');
            out.push('#');
            out.push('3');
            out.push('9');
            out.push(';');
        } else {
            out.push(c);
        }
        proof {
            let now = chars@.subrange(0, i + 1);
            assert(now.drop_last() =~= chars@.subrange(0, i as int));
            assert(now.last() == c);
            assert(out@ =~= before + escape_of(c));
        }
        i = i + 1;
    }
    proof {
        assert(chars@.subrange(0, chars.len() as int) =~= chars@);
    }
    string_of(&out)
}

/// The text with each line feed made a blank.
pub open spec fn on_one_line(s: Seq<char>) -> Seq<char> {
    Seq::new(
        s.len(),
        |i: int|
            if s[i] == '\n' {
                ' '
            } else {
                s[i]
            },
    )
}

/// The text cut to `width` bytes of UTF-8: as it is where it takes no more,
/// else three dots after as many of its leading characters as fit into
/// `width - 3` bytes.
pub open spec fn cut_to(s: Seq<char>, width: nat) -> Seq<char>
    recommends
        width >= 3,
{
    if byte_len(s) > width {
        s.subrange(0, fitting(s, (width - 3) as nat) as int) + seq!['.', '.', '.']
    } else {
        s
    }
}

/// A statement as the given kind of output shows it: on one line, and cut to
/// 50 bytes for a table.
pub open spec fn shown_query(s: Seq<char>, format: OutputFormat) -> Seq<char> {
    match format {
        OutputFormat::Table => cut_to(on_one_line(s), 50),
        OutputFormat::Html => on_one_line(s),
    }
}

/// A statement as the summary of the HTML report shows it: on one line and
/// cut to 100 bytes.
pub open spec fn summary_query(s: Seq<char>) -> Seq<char> {
    cut_to(on_one_line(s), 100)
}

/// Puts a text on one line and, where `width` is given and the text takes
/// more bytes, cuts it to that width.
fn one_line_cut(text: &str, width: Option<usize>) -> (out: String)
    requires
        width matches Some(w) ==> 3 <= w <= 1000,
    ensures
        out@ == (match width {
            Some(w) => cut_to(on_one_line(text@), w as nat),
            None => on_one_line(text@),
        }),
{
    let chars = chars_of(text);
    let mut line: Vec<char> = Vec::new();
    let mut i: usize = 0;
    while i < chars.len()
        invariant
            i <= chars.len(),
            line@ == on_one_line(chars@).subrange(0, i as int),
        decreases chars.len() - i,
    {
        let c: char = chars[i];
        line.push(
            if c == '\n' {
                ' '
            } else {
                c
            },
        );
        proof {
            assert(line@ =~= on_one_line(chars@).subrange(0, i + 1));
        }
        i = i + 1;
    }
    proof {
        assert(on_one_line(chars@).subrange(0, chars.len() as int) =~= on_one_line(chars@));
    }
    match width {
        Some(w) => {
            if takes_more_than(&line, w) {
                let keep: usize = count_fitting(&line, w - 3);
                let mut out = slice_of(&line, 0, keep);
                let ghost kept = out@;
                out.push('.');
                out.push('.');
                out.push('.');
                proof {
                    assert(out@ =~= kept + seq!['.', '.', '.']);
                }
                string_of(&out)
            } else {
                string_of(&line)
            }
        },
        None => string_of(&line),
    }
}

/// Prepares a statement for the given kind of output.
pub fn format_query(query: &str, format: &OutputFormat) -> (out: String)
    ensures
        out@ == shown_query(query@, *format),
{
    match format {
        OutputFormat::Table => one_line_cut(query, Some(50)),
        OutputFormat::Html => one_line_cut(query, None),
    }
}

/// Prepares a statement for the summary of the HTML report.
pub fn format_summary_query(query: &str) -> (out: String)
    ensures
        out@ == summary_query(query@),
{
    one_line_cut(query, Some(100))
}

/// At a fraction of one or more, the percentile of the times of a group, put
/// in ascending order, is the longest of them: it is one of the times, and
/// none is longer.
pub proof fn lemma_top_percentile_is_longest(times: Seq<u64>, p: Fraction)
    requires
        times.len() > 0,
        p.wf(),
        p.num >= p.den,
    ensures
        times.contains(percentile_of(ascending(times), p)),
        forall|i: int| 0 <= i < times.len() ==> times[i] <= percentile_of(ascending(times), p),
{
    let sorted = ascending(times);
    lemma_ascending_sorts(times);
    lemma_percentile_at_one_is_greatest(sorted, p);
    times.to_multiset_ensures();
    sorted.to_multiset_ensures();
    assert(sorted.contains(sorted.last()));
    assert(times.to_multiset().count(sorted.last()) > 0);
    assert forall|i: int| 0 <= i < times.len() implies times[i] <= percentile_of(sorted, p) by {
        assert(times.contains(times[i]));
        assert(sorted.to_multiset().count(times[i]) > 0);
        assert(sorted.contains(times[i]));
        let j = choose|j: int| 0 <= j < sorted.len() && sorted[j] == times[i];
        assert(sorted[j] <= sorted.last());
    }
}

/// The MD5 digest of a text, as 32 hexadecimal digits in lower case.
pub uninterp spec fn md5_hex_text(text: Seq<char>) -> Seq<char>;

/// `md5::compute` on the bytes of the text, written with the digest's
/// `LowerHex`. The result depends on the text alone.
#[verifier::external_body]
pub(crate) fn md5_hex(text: &str) -> (out: String)
    ensures
        out@ == md5_hex_text(text@),
{
    format!("{:x}", md5::compute(text))
}

/// How an instant of the time range is written: date, time of day and offset.
pub open spec fn instant_layout() -> Seq<char> {
    "%Y-%m-%d %H:%M:%S %z"@
}

/// The offset that a time zone text names, in seconds east of UTC; UTC itself
/// where the text names none.
pub open spec fn offset_of(timezone: Seq<char>) -> i32 {
    match utc_offset_seconds(timezone) {
        Some(seconds) => seconds,
        None => 0,
    }
}

/// Reads a time zone offset such as `+09:00`. Gives the offset in seconds east
/// of UTC, and whether the text named none, so that UTC stands in for it.
pub fn zone_offset(timezone: &str) -> (r: (i32, bool))
    ensures
        r.0 == offset_of(timezone@),
        r.1 == (utc_offset_seconds(timezone@) is None),
{
    match parse_utc_offset(timezone) {
        Some(seconds) => (seconds, false),
        None => (0, true),
    }
}

/// The time range of a group: its first and last instant as seen at the
/// offset, with ` - ` between them; `N/A` where one of them is missing or
/// cannot be written.
pub open spec fn range_text(first: Option<Timestamp>, last: Option<Timestamp>, offset: i32) -> Seq<
    char,
> {
    match (first, last) {
        (Some(a), Some(b)) => match (
            instant_text(a.secs, a.nanos, offset, instant_layout()),
            instant_text(b.secs, b.nanos, offset, instant_layout()),
        ) {
            (Some(from), Some(to)) => from + " - "@ + to,
            _ => "N/A"@,
        },
        _ => "N/A"@,
    }
}

/// One line of the report: a group with its rank and what is derived from its
/// statistics. Times are in microseconds.
#[derive(Debug)]
pub struct ReportItem {
    pub rank: usize,
    pub query_id: String,
    pub count: u64,
    pub total_time: u128,
    pub mean_time: Ratio,
    pub p95: u64,
    pub p99: u64,
    pub total_lock_time: u128,
    pub mean_lock_time: Ratio,
    pub rows_sent: u128,
    pub rows_examined: u128,
    pub ratio: Ratio,
    pub time_range: String,
    pub example_query: String,
    pub worst_example_query: String,
    pub normalized_query: String,
}

/// What a `ReportItem` holds, as numbers and sequences.
pub struct ReportData {
    pub rank: nat,
    pub query_id: Seq<char>,
    pub count: nat,
    pub total_time: nat,
    pub mean_time: (nat, nat),
    pub p95: u64,
    pub p99: u64,
    pub total_lock_time: nat,
    pub mean_lock_time: (nat, nat),
    pub rows_sent: nat,
    pub rows_examined: nat,
    pub ratio: (nat, nat),
    pub time_range: Seq<char>,
    pub example_query: Seq<char>,
    pub worst_example_query: Seq<char>,
    pub normalized_query: Seq<char>,
}

impl View for ReportItem {
    type V = ReportData;

    open spec fn view(&self) -> ReportData {
        ReportData {
            rank: self.rank as nat,
            query_id: self.query_id@,
            count: self.count as nat,
            total_time: self.total_time as nat,
            mean_time: (self.mean_time.num as nat, self.mean_time.den as nat),
            p95: self.p95,
            p99: self.p99,
            total_lock_time: self.total_lock_time as nat,
            mean_lock_time: (self.mean_lock_time.num as nat, self.mean_lock_time.den as nat),
            rows_sent: self.rows_sent as nat,
            rows_examined: self.rows_examined as nat,
            ratio: (self.ratio.num as nat, self.ratio.den as nat),
            time_range: self.time_range@,
            example_query: self.example_query@,
            worst_example_query: self.worst_example_query@,
            normalized_query: self.normalized_query@,
        }
    }
}

/// The report line of the group with fingerprint `key` and statistics `s`, at
/// the given rank: the identifier is the digest of the fingerprint; the means
/// are the totals over the count; the percentiles are those at 95 and 99
/// hundredths of the times in ascending order; the ratio is that of rows
/// examined to rows sent.
pub open spec fn item_of(rank: nat, key: Seq<char>, s: StatsData, offset: i32) -> ReportData {
    ReportData {
        rank,
        query_id: md5_hex_text(key),
        count: s.count,
        total_time: s.total_time,
        mean_time: ratio_of(s.total_time, s.count),
        p95: percentile_of(ascending(s.all_query_times), Fraction { num: 95, den: 100 }),
        p99: percentile_of(ascending(s.all_query_times), Fraction { num: 99, den: 100 }),
        total_lock_time: s.total_lock_time,
        mean_lock_time: ratio_of(s.total_lock_time, s.count),
        rows_sent: s.total_rows_sent,
        rows_examined: s.total_rows_examined,
        ratio: ratio_of(s.total_rows_examined, s.total_rows_sent),
        time_range: range_text(s.first_seen, s.last_seen, offset),
        example_query: s.example_query,
        worst_example_query: s.worst_example_query,
        normalized_query: key,
    }
}

/// Writes the time range of a group.
pub fn time_range(first: Option<Timestamp>, last: Option<Timestamp>, offset: i32) -> (out: String)
    ensures
        out@ == range_text(first, last, offset),
{
    match (first, last) {
        (Some(a), Some(b)) => {
            let from = format_instant(a.secs, a.nanos, offset, "%Y-%m-%d %H:%M:%S %z");
            let to = format_instant(b.secs, b.nanos, offset, "%Y-%m-%d %H:%M:%S %z");
            match (from, to) {
                (Some(from), Some(to)) => from.concat(" - ").concat(to.as_str()),
                _ => String::from_str("N/A"),
            }
        },
        _ => String::from_str("N/A"),
    }
}

/// Makes the report line of a group.
pub fn make_item(rank: usize, group: Group, offset: i32) -> (item: ReportItem)
    ensures
        item@ == item_of(rank as nat, group.fingerprint@, group.stats@, offset),
{
    let Group { fingerprint, stats } = group;
    let QueryStats {
        count,
        total_time,
        min_time: _,
        max_time: _,
        total_lock_time,
        total_rows_sent,
        total_rows_examined,
        example_query,
        all_query_times,
        first_seen,
        last_seen,
        worst_example_query,
    } = stats;
    let mut times = all_query_times;
    sort_times(&mut times);
    let p95 = percentile(&times, Fraction { num: 95, den: 100 });
    let p99 = percentile(&times, Fraction { num: 99, den: 100 });
    ReportItem {
        rank,
        query_id: md5_hex(fingerprint.as_str()),
        count,
        total_time,
        mean_time: ratio(total_time, count as u128),
        p95,
        p99,
        total_lock_time,
        mean_lock_time: ratio(total_lock_time, count as u128),
        rows_sent: total_rows_sent,
        rows_examined: total_rows_examined,
        ratio: ratio(total_rows_examined, total_rows_sent),
        time_range: time_range(first_seen, last_seen, offset),
        example_query,
        worst_example_query,
        normalized_query: fingerprint,
    }
}

/// The items are report lines of the map, ranked: the item at place `j` is
/// the line of its own fingerprint's group at rank `j + 1`, no fingerprint
/// comes twice, and the total times do not ascend.
pub open spec fn is_ranking(items: Seq<ReportItem>, m: Map<Seq<char>, StatsData>, offset: i32) -> bool {
    &&& forall|j: int|
        0 <= j < items.len() ==> m.contains_key((#[trigger] items[j]).normalized_query@)
            && items[j]@ == item_of(
            (j + 1) as nat,
            items[j].normalized_query@,
            m[items[j].normalized_query@],
            offset,
        )
    &&& forall|i: int, j: int|
        0 <= i < j < items.len() ==> (#[trigger] items[i]).normalized_query@ != (
        #[trigger] items[j]).normalized_query@
    &&& forall|i: int, j: int|
        0 <= i <= j < items.len() ==> (#[trigger] items[i]).total_time >= (
        #[trigger] items[j]).total_time
}

/// The fingerprint `k` has a line among the items.
pub open spec fn has_line(items: Seq<ReportItem>, k: Seq<char>) -> bool {
    exists|j: int| 0 <= j < items.len() && (#[trigger] items[j]).normalized_query@ == k
}

/// No group was left out for another with less total time: a group without a
/// line means that the limit was reached, and that no line has less total
/// time than that group.
pub open spec fn leaves_out_the_least(
    items: Seq<ReportItem>,
    m: Map<Seq<char>, StatsData>,
    limit: usize,
) -> bool {
    forall|k: Seq<char>|
        #![trigger m.contains_key(k)]
        m.contains_key(k) && !has_line(items, k) ==> items.len() == limit && forall|j: int|
            0 <= j < items.len() ==> (#[trigger] items[j]).total_time >= m[k].total_time
}

/// The place of a group with the greatest total time.
fn greatest(groups: &Vec<Group>) -> (best: usize)
    requires
        groups.len() > 0,
    ensures
        best < groups.len(),
        forall|i: int|
            0 <= i < groups.len() ==> groups[best as int].stats.total_time >= (
            #[trigger] groups[i]).stats.total_time,
{
    let mut best: usize = 0;
    let mut i: usize = 1;
    while i < groups.len()
        invariant
            best < i <= groups.len(),
            forall|j: int|
                0 <= j < i ==> groups[best as int].stats.total_time >= (
                #[trigger] groups[j]).stats.total_time,
        decreases groups.len() - i,
    {
        if groups[i].stats.total_time > groups[best].stats.total_time {
            best = i;
        }
        i = i + 1;
    }
    best
}

/// Ranks the groups by total time, the greatest first, keeps the first
/// `limit` of them and makes the report line of each. Instants are written as
/// seen at the offset that `timezone` names, or in UTC where it names none.
/// Among groups of equal total time the order is not fixed.
pub fn prepare_report_items(stats: Aggregation, timezone: &str, limit: usize) -> (items: Vec<
    ReportItem,
>)
    requires
        stats.wf(),
    ensures
        items.len() <= limit,
        is_ranking(items@, stats@, offset_of(timezone@)),
        leaves_out_the_least(items@, stats@, limit),
{
    let offset: i32 = zone_offset(timezone).0;
    let ghost m = stats@;
    let mut rest = stats.into_groups();
    let mut items: Vec<ReportItem> = Vec::new();
    while items.len() < limit && rest.len() > 0
        invariant
            items.len() <= limit,
            offset == offset_of(timezone@),
            is_ranking(items@, m, offset),
            forall|i: int|
                0 <= i < rest.len() ==> m.contains_key((#[trigger] rest[i]).fingerprint@)
                    && m[rest[i].fingerprint@] == rest[i].stats@ && rest[i].stats.wf(),
            forall|i: int, j: int|
                0 <= i < j < rest.len() ==> (#[trigger] rest[i]).fingerprint@ != (
                #[trigger] rest[j]).fingerprint@,
            forall|i: int, j: int|
                0 <= i < rest.len() && 0 <= j < items.len() ==> (
                #[trigger] rest[i]).fingerprint@ != (#[trigger] items[j]).normalized_query@,
            forall|i: int, j: int|
                0 <= i < rest.len() && 0 <= j < items.len() ==> (
                #[trigger] items[j]).total_time >= (#[trigger] rest[i]).stats.total_time,
            forall|k: Seq<char>|
                #![trigger m.contains_key(k)]
                m.contains_key(k) ==> has_line(items@, k) || exists|i: int|
                    0 <= i < rest.len() && (#[trigger] rest[i]).fingerprint@ == k,
        decreases rest.len(),
    {
        let ghost rest_before = rest@;
        let ghost items_before = items@;
        let best: usize = greatest(&rest);
        let group = rest.swap_remove(best);
        let ghost key = group.fingerprint@;
        let rank: usize = items.len() + 1;
        let item = make_item(rank, group, offset);
        items.push(item);
        proof {
            let last = rest_before.len() - 1;
            assert forall|i: int| 0 <= i < rest.len() implies (#[trigger] rest[i])
                == rest_before[if i == best {
                last
            } else {
                i
            }] by {}
            assert forall|j: int| 0 <= j < items_before.len() implies (#[trigger] items[j])
                == items_before[j] by {}
            assert(items[items_before.len() as int]@ == item_of(
                rank as nat,
                key,
                m[key],
                offset,
            ));
            assert forall|k: Seq<char>|
                #![trigger m.contains_key(k)]
                m.contains_key(k) implies has_line(items@, k) || exists|i: int|
                0 <= i < rest.len() && (#[trigger] rest[i]).fingerprint@ == k by {
                if has_line(items_before, k) {
                    let j = choose|j: int|
                        0 <= j < items_before.len() && (
                        #[trigger] items_before[j]).normalized_query@ == k;
                    assert(items[j].normalized_query@ == k);
                } else {
                    let i = choose|i: int|
                        0 <= i < rest_before.len() && (#[trigger] rest_before[i]).fingerprint@
                            == k;
                    if i == best {
                        assert(items[items_before.len() as int].normalized_query@ == k);
                    } else if i == last {
                        assert(rest[best as int].fingerprint@ == k);
                    } else {
                        assert(rest[i].fingerprint@ == k);
                    }
                }
            }
        }
    }
    proof {
        assert forall|k: Seq<char>|
            #![trigger m.contains_key(k)]
            m.contains_key(k) && !has_line(items@, k) implies items.len() == limit && forall|
            j: int,
        |
            0 <= j < items.len() ==> (#[trigger] items[j]).total_time >= m[k].total_time by {
            let i = choose|i: int| 0 <= i < rest.len() && (#[trigger] rest[i]).fingerprint@ == k;
            assert(rest[i].stats@ == m[k]);
        }
    }
    items
}

} // verus!
