//! Character-level text primitives: white space, trimming, lines, prefixes.
//!
//! Text is handled as a vector of characters, so that every position is a
//! character position and the contracts can speak of `Seq<char>` directly.
use vstd::prelude::*;

verus! {

/// The characters that count as white space: the Unicode `White_Space` set.
pub open spec fn is_space(c: char) -> bool {
    let n = c as u32;
    ||| 0x09 <= n <= 0x0D
    ||| n == 0x20
    ||| n == 0x85
    ||| n == 0xA0
    ||| n == 0x1680
    ||| 0x2000 <= n <= 0x200A
    ||| n == 0x2028
    ||| n == 0x2029
    ||| n == 0x202F
    ||| n == 0x205F
    ||| n == 0x3000
}

/// `s` without its leading white space.
pub open spec fn trim_start(s: Seq<char>) -> Seq<char>
    decreases s.len(),
{
    if s.len() > 0 && is_space(s[0]) {
        trim_start(s.subrange(1, s.len() as int))
    } else {
        s
    }
}

/// `s` without its trailing white space.
pub open spec fn trim_end(s: Seq<char>) -> Seq<char>
    decreases s.len(),
{
    if s.len() > 0 && is_space(s.last()) {
        trim_end(s.drop_last())
    } else {
        s
    }
}

/// `s` without its leading and trailing white space.
pub open spec fn trim(s: Seq<char>) -> Seq<char> {
    trim_end(trim_start(s))
}

/// The position of the first `c` in `s`, or the length of `s` where it holds
/// none.
pub open spec fn position_of(s: Seq<char>, c: char) -> nat
    decreases s.len(),
{
    if s.len() == 0 || s[0] == c {
        0
    } else {
        1 + position_of(s.subrange(1, s.len() as int), c)
    }
}

/// The length of the first line of `s`: the position of its first line feed,
/// or the length of `s` where it has none.
pub open spec fn line_len(s: Seq<char>) -> nat {
    position_of(s, '\n')
}

/// The lines of `s`: the pieces between line feeds, without the line feeds.
/// A line feed at the very end opens no further line, and the empty text has
/// no lines.
pub open spec fn lines(s: Seq<char>) -> Seq<Seq<char>>
    decreases s.len(),
{
    if s.len() == 0 {
        Seq::empty()
    } else {
        let k = line_len(s);
        if k >= s.len() {
            seq![s]
        } else {
            seq![s.subrange(0, k as int)] + lines(s.subrange(k as int + 1, s.len() as int))
        }
    }
}

/// The lines joined by single line feeds.
pub open spec fn join_lines(ls: Seq<Seq<char>>) -> Seq<char>
    decreases ls.len(),
{
    if ls.len() == 0 {
        Seq::empty()
    } else if ls.len() == 1 {
        ls[0]
    } else {
        join_lines(ls.drop_last()) + seq!['\n'] + ls.last()
    }
}

/// Tells whether `c` is white space.
pub fn is_space_char(c: char) -> (b: bool)
    ensures
        b == is_space(c),
{
    let n: u32 = c as u32;
    (0x09 <= n && n <= 0x0D) || n == 0x20 || n == 0x85 || n == 0xA0 || n == 0x1680 || (0x2000 <= n
        && n <= 0x200A) || n == 0x2028 || n == 0x2029 || n == 0x202F || n == 0x205F || n == 0x3000
}

/// The position `k` holds the first `c` of `s` where no earlier position holds
/// one and either `k` holds one or `k` is the length of `s`.
pub proof fn lemma_position_of_is_first(s: Seq<char>, c: char, k: int)
    requires
        0 <= k <= s.len(),
        forall|i: int| 0 <= i < k ==> s[i] != c,
        k < s.len() ==> s[k] == c,
    ensures
        position_of(s, c) == k,
    decreases s.len(),
{
    if s.len() == 0 || s[0] == c {
        if k > 0 {
            assert(s[0] != c);
        }
    } else {
        let rest = s.subrange(1, s.len() as int);
        assert(k > 0);
        assert forall|i: int| 0 <= i < k - 1 implies rest[i] != c by {
            assert(rest[i] == s[i + 1]);
        }
        if k - 1 < rest.len() {
            assert(rest[k - 1] == s[k]);
        }
        lemma_position_of_is_first(rest, c, k - 1);
    }
}

/// The first position in `text[from..to]` that holds `c`, or `to`.
pub fn find_char(text: &Vec<char>, from: usize, to: usize, c: char) -> (end: usize)
    requires
        from <= to <= text.len(),
    ensures
        from <= end <= to,
        end - from == position_of(text@.subrange(from as int, to as int), c),
{
    let mut end: usize = from;
    while end < to && text[end] != c
        invariant
            from <= end <= to <= text.len(),
            forall|i: int| from <= i < end ==> text@[i] != c,
        decreases to - end,
    {
        end = end + 1;
    }
    proof {
        let rest = text@.subrange(from as int, to as int);
        assert forall|i: int| 0 <= i < end - from implies rest[i] != c by {
            assert(rest[i] == text@[from + i]);
        }
        if end < to {
            assert(rest[end - from] == text@[end as int]);
        }
        lemma_position_of_is_first(rest, c, end - from);
    }
    end
}

/// Leading white space can be dropped before trimming the start.
pub proof fn lemma_trim_start_skips(s: Seq<char>, k: int)
    requires
        0 <= k <= s.len(),
        forall|i: int| 0 <= i < k ==> is_space(s[i]),
    ensures
        trim_start(s) == trim_start(s.subrange(k, s.len() as int)),
    decreases k,
{
    if k == 0 {
        assert(s.subrange(0, s.len() as int) =~= s);
    } else {
        let rest = s.subrange(1, s.len() as int);
        assert forall|i: int| 0 <= i < k - 1 implies is_space(rest[i]) by {
            assert(rest[i] == s[i + 1]);
        }
        lemma_trim_start_skips(rest, k - 1);
        assert(rest.subrange(k - 1, rest.len() as int) =~= s.subrange(k, s.len() as int));
    }
}

/// Trailing white space can be dropped before trimming the end.
pub proof fn lemma_trim_end_skips(s: Seq<char>, k: int)
    requires
        0 <= k <= s.len(),
        forall|i: int| k <= i < s.len() ==> is_space(s[i]),
    ensures
        trim_end(s) == trim_end(s.subrange(0, k)),
    decreases s.len() - k,
{
    if k == s.len() {
        assert(s.subrange(0, k) =~= s);
    } else {
        let rest = s.drop_last();
        lemma_trim_end_skips(rest, k);
        assert(rest.subrange(0, k) =~= s.subrange(0, k));
    }
}

/// The bounds of the trimmed part of `text[from..to]`.
pub fn trim_bounds(text: &Vec<char>, from: usize, to: usize) -> (r: (usize, usize))
    requires
        from <= to <= text.len(),
    ensures
        from <= r.0 <= r.1 <= to,
        text@.subrange(r.0 as int, r.1 as int) == trim(text@.subrange(from as int, to as int)),
{
    let ghost whole = text@.subrange(from as int, to as int);
    let mut a: usize = from;
    while a < to && is_space_char(text[a])
        invariant
            from <= a <= to <= text.len(),
            forall|i: int| from <= i < a ==> is_space(text@[i]),
        decreases to - a,
    {
        a = a + 1;
    }
    let ghost front = text@.subrange(a as int, to as int);
    proof {
        assert forall|i: int| 0 <= i < a - from implies is_space(whole[i]) by {
            assert(whole[i] == text@[from + i]);
        }
        lemma_trim_start_skips(whole, a - from);
        assert(whole.subrange(a - from, whole.len() as int) =~= front);
        if front.len() > 0 {
            assert(front[0] == text@[a as int]);
        }
        assert(trim_start(front) == front);
    }
    let mut b: usize = to;
    while b > a && is_space_char(text[b - 1])
        invariant
            a <= b <= to <= text.len(),
            forall|i: int| b <= i < to ==> is_space(text@[i]),
        decreases b,
    {
        b = b - 1;
    }
    proof {
        let kept = text@.subrange(a as int, b as int);
        assert forall|i: int| b - a <= i < front.len() implies is_space(front[i]) by {
            assert(front[i] == text@[a + i]);
        }
        lemma_trim_end_skips(front, b - a);
        assert(front.subrange(0, b - a) =~= kept);
        if kept.len() > 0 {
            assert(kept.last() == text@[b - 1]);
        }
        assert(trim_end(kept) == kept);
    }
    (a, b)
}

/// The text without its leading and trailing white space.
pub fn trimmed(text: &Vec<char>) -> (out: Vec<char>)
    ensures
        out@ == trim(text@),
{
    proof {
        assert(text@.subrange(0, text.len() as int) =~= text@);
    }
    let (a, b) = trim_bounds(text, 0, text.len());
    slice_of(text, a, b)
}

/// Tells whether `text[from..to]` begins with `prefix`.
pub fn has_prefix(text: &Vec<char>, from: usize, to: usize, prefix: &Vec<char>) -> (b: bool)
    requires
        from <= to <= text.len(),
    ensures
        b == prefix@.is_prefix_of(text@.subrange(from as int, to as int)),
{
    let ghost part = text@.subrange(from as int, to as int);
    if prefix.len() > to - from {
        return false;
    }
    let mut i: usize = 0;
    while i < prefix.len()
        invariant
            i <= prefix.len() <= to - from,
            from <= to <= text.len(),
            part == text@.subrange(from as int, to as int),
            forall|j: int| 0 <= j < i ==> prefix@[j] == part[j],
        decreases prefix.len() - i,
    {
        if prefix[i] != text[from + i] {
            proof {
                assert(part[i as int] == text@[from + i]);
                assert(part.subrange(0, prefix@.len() as int)[i as int] != prefix@[i as int]);
            }
            return false;
        }
        proof {
            assert(part[i as int] == text@[from + i]);
        }
        i = i + 1;
    }
    proof {
        assert(part.subrange(0, prefix@.len() as int) =~= prefix@);
    }
    true
}

/// A copy of `text[from..to]`.
pub fn slice_of(text: &Vec<char>, from: usize, to: usize) -> (out: Vec<char>)
    requires
        from <= to <= text.len(),
    ensures
        out@ == text@.subrange(from as int, to as int),
{
    let mut out: Vec<char> = Vec::new();
    let mut i: usize = from;
    while i < to
        invariant
            from <= i <= to <= text.len(),
            out@ == text@.subrange(from as int, i as int),
        decreases to - i,
    {
        out.push(text[i]);
        proof {
            assert(out@ =~= text@.subrange(from as int, i + 1));
        }
        i = i + 1;
    }
    out
}

/// The characters of a string, in order.
pub fn chars_of(s: &str) -> (out: Vec<char>)
    ensures
        out@ == s@,
{
    let mut out: Vec<char> = Vec::new();
    for c in it: s.chars()
        invariant
            out@ == it.seq().take(it.index()),
            it.seq() == s@,
    {
        out.push(c);
    }
    out
}

/// `String::from_iter` over the characters of a vector: the string that holds
/// exactly these characters, in this order.
#[verifier::external_body]
pub(crate) fn string_of(chars: &Vec<char>) -> (out: String)
    ensures
        out@ == chars@,
{
    String::from_iter(chars.iter())
}

/// The number of bytes that a character takes in UTF-8.
pub open spec fn char_bytes(c: char) -> nat {
    let n = c as u32;
    if n < 0x80 {
        1
    } else if n < 0x800 {
        2
    } else if n < 0x10000 {
        3
    } else {
        4
    }
}

/// The number of bytes that a text takes in UTF-8.
pub open spec fn byte_len(s: Seq<char>) -> nat
    decreases s.len(),
{
    if s.len() == 0 {
        0
    } else {
        byte_len(s.drop_last()) + char_bytes(s.last())
    }
}

/// The number of leading characters of `s` that fit into `room` bytes.
pub open spec fn fitting(s: Seq<char>, room: nat) -> nat
    decreases s.len(),
{
    if s.len() == 0 || char_bytes(s[0]) > room {
        0
    } else {
        1 + fitting(s.subrange(1, s.len() as int), (room - char_bytes(s[0])) as nat)
    }
}

/// The number of bytes that `c` takes in UTF-8.
pub fn char_len(c: char) -> (n: usize)
    ensures
        n == char_bytes(c),
{
    let code: u32 = c as u32;
    if code < 0x80 {
        1
    } else if code < 0x800 {
        2
    } else if code < 0x10000 {
        3
    } else {
        4
    }
}

/// A text takes at least as many bytes as any of its beginnings.
pub proof fn lemma_byte_len_prefix(s: Seq<char>, k: int)
    requires
        0 <= k <= s.len(),
    ensures
        byte_len(s.subrange(0, k)) <= byte_len(s),
    decreases s.len() - k,
{
    if k == s.len() {
        assert(s.subrange(0, k) =~= s);
    } else {
        lemma_byte_len_prefix(s.drop_last(), k);
        assert(s.drop_last().subrange(0, k) =~= s.subrange(0, k));
    }
}

/// Tells whether the text takes more than `limit` bytes in UTF-8.
pub fn takes_more_than(text: &Vec<char>, limit: usize) -> (b: bool)
    requires
        limit <= usize::MAX - 4,
    ensures
        b == (byte_len(text@) > limit),
{
    let mut used: usize = 0;
    let mut i: usize = 0;
    proof {
        assert(text@.subrange(0, 0) =~= Seq::<char>::empty());
    }
    while i < text.len()
        invariant
            i <= text.len(),
            limit <= usize::MAX - 4,
            used <= limit,
            used == byte_len(text@.subrange(0, i as int)),
        decreases text.len() - i,
    {
        let n: usize = char_len(text[i]);
        proof {
            let now = text@.subrange(0, i + 1);
            assert(now.drop_last() =~= text@.subrange(0, i as int));
            assert(now.last() == text@[i as int]);
        }
        if used + n > limit {
            proof {
                lemma_byte_len_prefix(text@, i + 1);
            }
            return true;
        }
        used = used + n;
        i = i + 1;
    }
    proof {
        assert(text@.subrange(0, text.len() as int) =~= text@);
    }
    false
}

/// The number of leading characters of the text that fit into `room` bytes.
pub fn count_fitting(text: &Vec<char>, room: usize) -> (n: usize)
    ensures
        n <= text.len(),
        n == fitting(text@, room as nat),
{
    let mut left: usize = room;
    let mut i: usize = 0;
    proof {
        assert(text@.subrange(0, text.len() as int) =~= text@);
    }
    while i < text.len()
        invariant
            i <= text.len(),
            fitting(text@, room as nat) == i + fitting(
                text@.subrange(i as int, text.len() as int),
                left as nat,
            ),
        decreases text.len() - i,
    {
        let n: usize = char_len(text[i]);
        let ghost rest = text@.subrange(i as int, text.len() as int);
        proof {
            assert(rest[0] == text@[i as int]);
            assert(rest.subrange(1, rest.len() as int) =~= text@.subrange(
                i + 1,
                text.len() as int,
            ));
        }
        if n > left {
            return i;
        }
        left = left - n;
        i = i + 1;
    }
    i
}

} // verus!
