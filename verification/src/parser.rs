//! Cutting a slow-query log into blocks, and reading a query out of a block.
use vstd::prelude::*;
use vstd::string::StringExecFns;
use regex::Regex;
use crate::instant::{parse_rfc3339, rfc3339_instant, Timestamp};
use crate::number::{count_of, micros_of, parse_count, parse_micros};
use crate::pattern::{captures, pattern_is_valid, regex_captures, regex_source};
use crate::text::{
    chars_of, find_char, has_prefix, join_lines, lines, position_of, slice_of, string_of, trim,
    trim_bounds, trimmed,
};

verus! {

/// One query of the log. Times are in microseconds.
#[derive(Debug, Clone, PartialEq)]
pub struct Query {
    pub query_time: u64,
    pub lock_time: u64,
    pub rows_sent: u64,
    pub rows_examined: u64,
    pub timestamp: Option<Timestamp>,
    pub user_host: String,
    pub sql_text: String,
}

/// What a `Query` holds, with its texts as sequences of characters.
pub struct QueryData {
    pub query_time: u64,
    pub lock_time: u64,
    pub rows_sent: u64,
    pub rows_examined: u64,
    pub timestamp: Option<Timestamp>,
    pub user_host: Seq<char>,
    pub sql_text: Seq<char>,
}

impl View for Query {
    type V = QueryData;

    open spec fn view(&self) -> QueryData {
        QueryData {
            query_time: self.query_time,
            lock_time: self.lock_time,
            rows_sent: self.rows_sent,
            rows_examined: self.rows_examined,
            timestamp: self.timestamp,
            user_host: self.user_host@,
            sql_text: self.sql_text@,
        }
    }
}

impl DeepView for Query {
    type V = QueryData;

    open spec fn deep_view(&self) -> QueryData {
        self@
    }
}

/// The pattern of the line that names the user and host.
pub open spec fn user_host_pattern() -> Seq<char> {
    "^# User@Host: (.*)"@
}

/// The pattern of the line that gives the time of the query.
pub open spec fn time_pattern() -> Seq<char> {
    "^# Time: (.*)"@
}

/// The pattern of the line that gives the four measurements.
pub open spec fn metrics_pattern() -> Seq<char> {
    "Query_time: \\s*([\\d\\.]+) \\s*Lock_time: \\s*([\\d\\.]+) \\s*Rows_sent: \\s*(\\d+) \\s*Rows_examined: \\s*(\\d+)"@
}

/// The three patterns that tell the annotation lines of a block apart,
/// compiled once.
pub struct LineRules {
    user_host: Regex,
    time: Regex,
    metrics: Regex,
}

impl LineRules {
    /// Each expression is that of its pattern.
    pub closed spec fn wf(&self) -> bool {
        &&& regex_source(self.user_host) == user_host_pattern()
        &&& regex_source(self.time) == time_pattern()
        &&& regex_source(self.metrics) == metrics_pattern()
    }

    /// Compiles the three patterns; `None` where one of them is refused.
    pub fn new() -> (r: Option<LineRules>)
        ensures
            r is Some <==> pattern_is_valid(user_host_pattern()) && pattern_is_valid(
                time_pattern(),
            ) && pattern_is_valid(metrics_pattern()),
            r matches Some(rules) ==> rules.wf(),
    {
        let user_host = match Regex::new("^# User@Host: (.*)") {
            Ok(re) => re,
            Err(_) => {
                return None;
            },
        };
        let time = match Regex::new("^# Time: (.*)") {
            Ok(re) => re,
            Err(_) => {
                return None;
            },
        };
        let metrics = match Regex::new(
            "Query_time: \\s*([\\d\\.]+) \\s*Lock_time: \\s*([\\d\\.]+) \\s*Rows_sent: \\s*(\\d+) \\s*Rows_examined: \\s*(\\d+)",
        ) {
            Ok(re) => re,
            Err(_) => {
                return None;
            },
        };
        Some(LineRules { user_host, time, metrics })
    }
}

/// The text of group `i` of a match; empty where the group is missing or took
/// no part in the match.
pub open spec fn group_text(groups: Seq<Option<Seq<char>>>, i: int) -> Seq<char> {
    if 0 <= i < groups.len() {
        match groups[i] {
            Some(t) => t,
            None => Seq::empty(),
        }
    } else {
        Seq::empty()
    }
}

/// What has been read of a block so far.
pub struct Fields {
    pub query_time: u64,
    pub lock_time: u64,
    pub rows_sent: u64,
    pub rows_examined: u64,
    pub timestamp: Option<Timestamp>,
    pub user_host: Seq<char>,
    pub body: Seq<Seq<char>>,
}

/// The fields before any line is read: zeros, no time, empty texts.
pub open spec fn no_fields() -> Fields {
    Fields {
        query_time: 0,
        lock_time: 0,
        rows_sent: 0,
        rows_examined: 0,
        timestamp: None,
        user_host: Seq::empty(),
        body: Seq::empty(),
    }
}

/// The line begins with `#`.
pub open spec fn is_annotation(t: Seq<char>) -> bool {
    t.len() > 0 && t[0] == '#'
}

/// The line sets the session's timestamp.
pub open spec fn is_directive(t: Seq<char>) -> bool {
    "SET timestamp="@.is_prefix_of(t)
}

/// The fields after one more line, which is trimmed first. In this order: a
/// user line sets the user and host, trimmed; a time line sets the time where
/// it can be read; a line with the four measurements sets them, each 0 where
/// it cannot be read; any other annotation and the timestamp directive change
/// nothing; every other line joins the body.
pub open spec fn read_line(f: Fields, line: Seq<char>) -> Fields {
    let t = trim(line);
    if let Some(groups) = regex_captures(user_host_pattern(), t) {
        Fields { user_host: trim(group_text(groups, 1)), ..f }
    } else if let Some(groups) = regex_captures(time_pattern(), t) {
        match rfc3339_instant(group_text(groups, 1)) {
            Some(at) => Fields { timestamp: Some(Timestamp { secs: at.0, nanos: at.1 }), ..f },
            None => f,
        }
    } else if let Some(groups) = regex_captures(metrics_pattern(), t) {
        Fields {
            query_time: micros_of(group_text(groups, 1)),
            lock_time: micros_of(group_text(groups, 2)),
            rows_sent: count_of(group_text(groups, 3)),
            rows_examined: count_of(group_text(groups, 4)),
            ..f
        }
    } else if is_annotation(t) || is_directive(t) {
        f
    } else {
        Fields { body: f.body.push(t), ..f }
    }
}

/// The fields after the lines `ls`, read in order.
pub open spec fn read_lines(f: Fields, ls: Seq<Seq<char>>) -> Fields
    decreases ls.len(),
{
    if ls.len() == 0 {
        f
    } else {
        read_lines(read_line(f, ls[0]), ls.drop_first())
    }
}

/// The query that a block holds: its fields as the lines give them, and as
/// its text the body lines joined by line feeds and trimmed. `None` where
/// that text is empty.
pub open spec fn parsed_block(block: Seq<char>) -> Option<QueryData> {
    let f = read_lines(no_fields(), lines(block));
    let sql = trim(join_lines(f.body));
    if sql.len() == 0 {
        None
    } else {
        Some(
            QueryData {
                query_time: f.query_time,
                lock_time: f.lock_time,
                rows_sent: f.rows_sent,
                rows_examined: f.rows_examined,
                timestamp: f.timestamp,
                user_host: f.user_host,
                sql_text: sql,
            },
        )
    }
}

/// The line, trimmed, is neither an annotation nor the timestamp directive,
/// and is not empty.
pub open spec fn is_content(line: Seq<char>) -> bool {
    let t = trim(line);
    t.len() > 0 && !is_annotation(t) && !is_directive(t)
}

/// One of the lines is content.
pub open spec fn any_content(ls: Seq<Seq<char>>) -> bool
    decreases ls.len(),
{
    ls.len() > 0 && (is_content(ls[0]) || any_content(ls.drop_first()))
}

/// The block holds a line of SQL.
pub open spec fn has_sql_text(block: Seq<char>) -> bool {
    any_content(lines(block))
}

/// The line, trimmed, opens a new record: it names the user and host, or
/// gives the time.
pub open spec fn is_boundary(line: Seq<char>) -> bool {
    "# User@Host:"@.is_prefix_of(trim(line)) || "# Time:"@.is_prefix_of(trim(line))
}

/// Taking in `line` closes the pending block: the line opens a new record and
/// the block already holds SQL.
pub open spec fn closes_block(pending: Seq<char>, line: Seq<char>) -> bool {
    is_boundary(line) && has_sql_text(pending)
}

/// The pending text after `line` is taken in: the line alone where it closed
/// the block, else the block with the line added.
pub open spec fn pending_after(pending: Seq<char>, line: Seq<char>) -> Seq<char> {
    if closes_block(pending, line) {
        line
    } else {
        pending + line
    }
}

/// The query given out when `line` is taken in: that of the block it closed,
/// if that block holds one.
pub open spec fn given_out(pending: Seq<char>, line: Seq<char>) -> Option<QueryData> {
    if closes_block(pending, line) {
        parsed_block(pending)
    } else {
        None
    }
}

/// The queries of a log: those given out as its lines are taken in one by
/// one, then that of the block left pending at the end.
pub open spec fn parsed_log(pending: Seq<char>, input: Seq<Seq<char>>) -> Seq<QueryData>
    decreases input.len(),
{
    if input.len() == 0 {
        match parsed_block(pending) {
            Some(q) => seq![q],
            None => Seq::empty(),
        }
    } else {
        let rest = parsed_log(pending_after(pending, input[0]), input.drop_first());
        match given_out(pending, input[0]) {
            Some(q) => seq![q] + rest,
            None => rest,
        }
    }
}

/// The first line of `s[pos..]` ends at `end`, and the other lines are those
/// of what follows the line feed.
pub proof fn lemma_lines_step(s: Seq<char>, pos: int, end: int)
    requires
        0 <= pos < s.len(),
        pos <= end <= s.len(),
        end - pos == position_of(s.subrange(pos, s.len() as int), '\n'),
    ensures
        lines(s.subrange(pos, s.len() as int)).len() > 0,
        lines(s.subrange(pos, s.len() as int))[0] == s.subrange(pos, end),
        lines(s.subrange(pos, s.len() as int)).drop_first() == lines(
            s.subrange(
                if end < s.len() {
                    end + 1
                } else {
                    end
                },
                s.len() as int,
            ),
        ),
{
    let rest = s.subrange(pos, s.len() as int);
    let k = end - pos;
    if end < s.len() {
        let tail = lines(rest.subrange(k + 1, rest.len() as int));
        assert(rest.subrange(0, k) =~= s.subrange(pos, end));
        assert(rest.subrange(k + 1, rest.len() as int) =~= s.subrange(end + 1, s.len() as int));
        assert((seq![rest.subrange(0, k)] + tail).drop_first() =~= tail);
    } else {
        assert(rest =~= s.subrange(pos, end));
        assert(seq![rest].drop_first() =~= Seq::<Seq<char>>::empty());
        assert(s.subrange(end, s.len() as int) =~= Seq::<char>::empty());
    }
}

/// The characters of group `i`; none where the group is missing or took no
/// part in the match.
fn group_chars(groups: &Vec<Option<String>>, i: usize) -> (out: Vec<char>)
    ensures
        out@ == group_text(groups.deep_view(), i as int),
{
    if i < groups.len() {
        match &groups[i] {
            Some(t) => chars_of(t.as_str()),
            None => Vec::new(),
        }
    } else {
        Vec::new()
    }
}

/// Tells whether a trimmed line is an annotation or the timestamp directive.
fn is_ignored(line: &Vec<char>) -> (b: bool)
    ensures
        b == (is_annotation(line@) || is_directive(line@)),
{
    proof {
        assert(line@.subrange(0, line.len() as int) =~= line@);
    }
    if line.len() > 0 && line[0] == '#' {
        return true;
    }
    let directive = chars_of("SET timestamp=");
    has_prefix(line, 0, line.len(), &directive)
}

/// Cuts a log into blocks, one per record, and reads the query out of each.
///
/// The caller hands it the lines of the log one by one, each with its line
/// terminator as it was read, and says when the log has ended.
pub struct LogParser {
    rules: LineRules,
    current_block: String,
}

impl LogParser {
    /// The patterns are those of the log format.
    pub closed spec fn wf(&self) -> bool {
        self.rules.wf()
    }

    /// The lines taken in since the last record was given out.
    pub closed spec fn pending(&self) -> Seq<char> {
        self.current_block@
    }

    /// A parser that has taken in nothing yet.
    pub fn new(rules: LineRules) -> (parser: LogParser)
        requires
            rules.wf(),
        ensures
            parser.wf(),
            parser.pending() == Seq::<char>::empty(),
    {
        LogParser { rules, current_block: String::new() }
    }

    /// Reads the query out of one block.
    pub fn parse_block(&self, block: &str) -> (out: Option<Query>)
        requires
            self.wf(),
        ensures
            out.deep_view() == parsed_block(block@),
            out matches Some(q) ==> q.sql_text@.len() > 0,
    {
        let chars = chars_of(block);
        let len: usize = chars.len();
        let mut query_time: u64 = 0;
        let mut lock_time: u64 = 0;
        let mut rows_sent: u64 = 0;
        let mut rows_examined: u64 = 0;
        let mut timestamp: Option<Timestamp> = None;
        let mut user_host: Vec<char> = Vec::new();
        let mut body: Vec<char> = Vec::new();
        let mut started: bool = false;
        let ghost mut fields = no_fields();
        let mut pos: usize = 0;
        proof {
            assert(chars@.subrange(0, len as int) =~= chars@);
        }
        while pos < len
            invariant
                self.wf(),
                len == chars.len(),
                pos <= len,
                read_lines(no_fields(), lines(chars@)) == read_lines(
                    fields,
                    lines(chars@.subrange(pos as int, len as int)),
                ),
                fields.query_time == query_time,
                fields.lock_time == lock_time,
                fields.rows_sent == rows_sent,
                fields.rows_examined == rows_examined,
                fields.timestamp == timestamp,
                fields.user_host == user_host@,
                body@ == join_lines(fields.body),
                started == (fields.body.len() > 0),
            decreases len - pos,
        {
            let end: usize = find_char(&chars, pos, len, '\n');
            let (a, b) = trim_bounds(&chars, pos, end);
            let line = slice_of(&chars, a, b);
            let line_text = string_of(&line);
            let ghost raw = chars@.subrange(pos as int, end as int);
            let ghost before = fields;
            proof {
                lemma_lines_step(chars@, pos as int, end as int);
                assert(line@ == trim(raw));
            }
            if let Some(groups) = captures(&self.rules.user_host, line_text.as_str()) {
                let name = group_chars(&groups, 1);
                user_host = trimmed(&name);
                proof {
                    fields = Fields { user_host: user_host@, ..fields };
                }
            } else if let Some(groups) = captures(&self.rules.time, line_text.as_str()) {
                let stamp = group_chars(&groups, 1);
                let stamp_text = string_of(&stamp);
                match parse_rfc3339(stamp_text.as_str()) {
                    Some(at) => {
                        timestamp = Some(Timestamp { secs: at.0, nanos: at.1 });
                        proof {
                            fields = Fields { timestamp, ..fields };
                        }
                    },
                    None => {},
                }
            } else if let Some(groups) = captures(&self.rules.metrics, line_text.as_str()) {
                query_time = parse_micros(&group_chars(&groups, 1));
                lock_time = parse_micros(&group_chars(&groups, 2));
                rows_sent = parse_count(&group_chars(&groups, 3));
                rows_examined = parse_count(&group_chars(&groups, 4));
                proof {
                    fields = Fields { query_time, lock_time, rows_sent, rows_examined, ..fields };
                }
            } else if is_ignored(&line) {
            } else {
                if started {
                    body.push('\n');
                }
                let mut i: usize = 0;
                let ghost joined = body@;
                while i < line.len()
                    invariant
                        i <= line.len(),
                        body@ == joined + line@.subrange(0, i as int),
                    decreases line.len() - i,
                {
                    body.push(line[i]);
                    proof {
                        assert(body@ =~= joined + line@.subrange(0, i + 1));
                    }
                    i = i + 1;
                }
                proof {
                    assert(line@.subrange(0, line.len() as int) =~= line@);
                    fields = Fields { body: fields.body.push(line@), ..fields };
                    assert(fields.body.drop_last() =~= before.body);
                    assert(body@ =~= join_lines(fields.body));
                }
                started = true;
            }
            proof {
                assert(fields == read_line(before, raw));
            }
            pos = if end < len {
                end + 1
            } else {
                end
            };
        }
        proof {
            assert(chars@.subrange(len as int, len as int) =~= Seq::<char>::empty());
        }
        let sql = trimmed(&body);
        if sql.len() == 0 {
            return None;
        }
        Some(
            Query {
                query_time,
                lock_time,
                rows_sent,
                rows_examined,
                timestamp,
                user_host: string_of(&user_host),
                sql_text: string_of(&sql),
            },
        )
    }

    /// Tells whether a block holds a line of SQL.
    pub fn has_sql(&self, block: &str) -> (b: bool)
        ensures
            b == has_sql_text(block@),
    {
        let chars = chars_of(block);
        let len: usize = chars.len();
        let mut pos: usize = 0;
        proof {
            assert(chars@.subrange(0, len as int) =~= chars@);
        }
        while pos < len
            invariant
                len == chars.len(),
                pos <= len,
                chars@ == block@,
                any_content(lines(chars@)) == any_content(
                    lines(chars@.subrange(pos as int, len as int)),
                ),
            decreases len - pos,
        {
            let end: usize = find_char(&chars, pos, len, '\n');
            let (a, b) = trim_bounds(&chars, pos, end);
            let line = slice_of(&chars, a, b);
            proof {
                lemma_lines_step(chars@, pos as int, end as int);
            }
            if !is_ignored(&line) && line.len() > 0 {
                proof {
                    let rest = lines(chars@.subrange(pos as int, len as int));
                    assert(is_content(rest[0]));
                    assert(any_content(rest));
                }
                return true;
            }
            pos = if end < len {
                end + 1
            } else {
                end
            };
        }
        proof {
            assert(chars@.subrange(len as int, len as int) =~= Seq::<char>::empty());
        }
        false
    }

    /// Takes in the next line of the log, with its line terminator. Where the
    /// line opens a new record and the pending block holds SQL, the block is
    /// closed: its query is given out, if it holds one, and the line starts
    /// the next block. Otherwise the line joins the pending block.
    pub fn push_line(&mut self, line: &str) -> (out: Option<Query>)
        requires
            old(self).wf(),
        ensures
            final(self).wf(),
            final(self).pending() == pending_after(old(self).pending(), line@),
            out.deep_view() == given_out(old(self).pending(), line@),
    {
        let chars = chars_of(line);
        proof {
            assert(chars@.subrange(0, chars.len() as int) =~= chars@);
        }
        let (a, b) = trim_bounds(&chars, 0, chars.len());
        let opens = has_prefix(&chars, a, b, &chars_of("# User@Host:")) || has_prefix(
            &chars,
            a,
            b,
            &chars_of("# Time:"),
        );
        if opens && self.has_sql(self.current_block.as_str()) {
            let out = self.parse_block(self.current_block.as_str());
            self.current_block = line.to_owned();
            out
        } else {
            self.current_block.append(line);
            None
        }
    }

    /// Ends the log: gives out the query of the pending block, if it holds
    /// one, and leaves nothing pending.
    pub fn finish(&mut self) -> (out: Option<Query>)
        requires
            old(self).wf(),
        ensures
            final(self).wf(),
            final(self).pending() == Seq::<char>::empty(),
            out.deep_view() == parsed_block(old(self).pending()),
    {
        let out = self.parse_block(self.current_block.as_str());
        self.current_block = String::new();
        out
    }
}

/// Reads all the queries of a log. Each element of `input` is one line with
/// its line terminator.
pub fn parse_log(rules: LineRules, input: &Vec<String>) -> (out: Vec<Query>)
    requires
        rules.wf(),
    ensures
        out.deep_view() == parsed_log(Seq::empty(), input.deep_view()),
{
    let mut parser = LogParser::new(rules);
    let mut out: Vec<Query> = Vec::new();
    let ghost all = input.deep_view();
    let mut i: usize = 0;
    proof {
        assert(all.skip(0) =~= all);
        assert(out.deep_view() =~= Seq::<QueryData>::empty());
    }
    while i < input.len()
        invariant
            i <= input.len(),
            parser.wf(),
            all == input.deep_view(),
            parsed_log(Seq::empty(), all) == out.deep_view() + parsed_log(
                parser.pending(),
                all.skip(i as int),
            ),
        decreases input.len() - i,
    {
        let ghost pending = parser.pending();
        let ghost before = out.deep_view();
        let ghost rest = all.skip(i as int);
        proof {
            assert(rest[0] == input@[i as int]@);
            assert(rest.drop_first() =~= all.skip(i + 1));
        }
        match parser.push_line(input[i].as_str()) {
            Some(q) => {
                out.push(q);
                proof {
                    assert(out.deep_view() =~= before.push(q@));
                    let tail = parsed_log(parser.pending(), all.skip(i + 1));
                    assert(before.push(q@) + tail =~= before + (seq![q@] + tail));
                }
            },
            None => {},
        }
        i = i + 1;
    }
    let ghost before = out.deep_view();
    match parser.finish() {
        Some(q) => {
            out.push(q);
            proof {
                assert(out.deep_view() =~= before + seq![q@]);
            }
        },
        None => {
            proof {
                assert(before + Seq::<QueryData>::empty() =~= before);
            }
        },
    }
    out
}

} // verus!
