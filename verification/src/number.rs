//! Decimal fields of the log: counts, and times in microseconds.
use vstd::prelude::*;
use crate::text::{find_char, position_of};

verus! {

/// The ASCII decimal digits.
pub open spec fn is_digit(c: char) -> bool {
    0x30 <= c as u32 <= 0x39
}

/// The number that a digit stands for.
pub open spec fn digit_value(c: char) -> nat {
    (c as u32 - 0x30) as nat
}

/// Every character of `s` is a decimal digit.
pub open spec fn all_digits(s: Seq<char>) -> bool {
    forall|i: int| 0 <= i < s.len() ==> is_digit(#[trigger] s[i])
}

/// The number that a run of digits writes in base ten; 0 for the empty run.
pub open spec fn digits_value(s: Seq<char>) -> nat
    decreases s.len(),
{
    if s.len() == 0 {
        0
    } else {
        digits_value(s.drop_last()) * 10 + digit_value(s.last())
    }
}

/// Ten to the power `n`.
pub open spec fn pow10(n: nat) -> nat
    decreases n,
{
    if n == 0 {
        1
    } else {
        10 * pow10((n - 1) as nat)
    }
}

/// What a count field holds: the number that `s` writes, where `s` is a
/// non-empty run of digits whose number fits 64 bits; 0 for any other text.
pub open spec fn count_of(s: Seq<char>) -> u64 {
    if s.len() > 0 && all_digits(s) && digits_value(s) <= u64::MAX {
        digits_value(s) as u64
    } else {
        0
    }
}

/// The digits before the decimal point.
pub open spec fn whole_part(s: Seq<char>) -> Seq<char> {
    s.subrange(0, position_of(s, '.') as int)
}

/// The digits after the decimal point; empty where there is no point.
pub open spec fn fraction_part(s: Seq<char>) -> Seq<char> {
    if position_of(s, '.') < s.len() {
        s.subrange(position_of(s, '.') as int + 1, s.len() as int)
    } else {
        Seq::empty()
    }
}

/// The millionths that the digits after the point stand for. Digits beyond
/// the sixth are dropped.
pub open spec fn fraction_micros(frac: Seq<char>) -> nat {
    if frac.len() >= 6 {
        digits_value(frac.subrange(0, 6))
    } else {
        digits_value(frac) * pow10((6 - frac.len()) as nat)
    }
}

/// The number of microseconds that a decimal number of seconds comes to,
/// rounded down: digits, then optionally a point and more digits, with at
/// least one digit in all. `None` for any other text.
pub open spec fn micros_value(s: Seq<char>) -> Option<nat> {
    let whole = whole_part(s);
    let frac = fraction_part(s);
    if all_digits(whole) && all_digits(frac) && whole.len() + frac.len() > 0 {
        Some(digits_value(whole) * 1_000_000 + fraction_micros(frac))
    } else {
        None
    }
}

/// What a time field holds, in microseconds: `micros_value` where the text is
/// a decimal number whose microseconds fit 64 bits; 0 for any other text.
pub open spec fn micros_of(s: Seq<char>) -> u64 {
    match micros_value(s) {
        Some(v) => if v <= u64::MAX {
            v as u64
        } else {
            0
        },
        None => 0,
    }
}

/// The number of a run of digits is at least that of any of its beginnings.
pub proof fn lemma_digits_value_prefix(s: Seq<char>, k: int)
    requires
        0 <= k <= s.len(),
    ensures
        digits_value(s.subrange(0, k)) <= digits_value(s),
    decreases s.len() - k,
{
    if k == s.len() {
        assert(s.subrange(0, k) =~= s);
    } else {
        lemma_digits_value_prefix(s.drop_last(), k);
        assert(s.drop_last().subrange(0, k) =~= s.subrange(0, k));
    }
}

/// A run of `n` digits writes a number below ten to the power `n`.
pub proof fn lemma_digits_value_below_power(s: Seq<char>)
    requires
        all_digits(s),
    ensures
        digits_value(s) < pow10(s.len()),
    decreases s.len(),
{
    if s.len() > 0 {
        assert(is_digit(s[s.len() - 1]));
        assert forall|i: int| 0 <= i < s.drop_last().len() implies is_digit(#[trigger] s.drop_last()[i]) by {
            assert(s.drop_last()[i] == s[i]);
        }
        lemma_digits_value_below_power(s.drop_last());
    }
}

/// Reads `text[from..to]` as a run of digits: the number it writes, or `None`
/// where it holds another character or the number does not fit 64 bits.
pub fn read_digits(text: &Vec<char>, from: usize, to: usize) -> (r: Option<u64>)
    requires
        from <= to <= text.len(),
    ensures
        match r {
            Some(v) => all_digits(text@.subrange(from as int, to as int)) && digits_value(
                text@.subrange(from as int, to as int),
            ) == v,
            None => !all_digits(text@.subrange(from as int, to as int)) || digits_value(
                text@.subrange(from as int, to as int),
            ) > u64::MAX,
        },
{
    let ghost part = text@.subrange(from as int, to as int);
    let mut value: u64 = 0;
    let mut i: usize = from;
    while i < to
        invariant
            from <= i <= to <= text.len(),
            part == text@.subrange(from as int, to as int),
            all_digits(part.subrange(0, i - from)),
            digits_value(part.subrange(0, i - from)) == value,
        decreases to - i,
    {
        let c: char = text[i];
        let n: u32 = c as u32;
        let ghost before = part.subrange(0, i - from);
        let ghost now = part.subrange(0, i - from + 1);
        proof {
            assert(part[i - from] == c);
            assert(now.drop_last() =~= before);
            assert(now.last() == c);
        }
        if n < 0x30 || n > 0x39 {
            proof {
                assert(!is_digit(part[i - from]));
            }
            return None;
        }
        let d: u64 = (n - 0x30) as u64;
        proof {
            assert forall|j: int| 0 <= j < now.len() implies is_digit(#[trigger] now[j]) by {
                if j < before.len() {
                    assert(now[j] == before[j]);
                }
            }
            assert(digits_value(now) == value * 10 + d);
        }
        if value > (u64::MAX - d) / 10 {
            proof {
                lemma_digits_value_prefix(part, i - from + 1);
            }
            return None;
        }
        value = value * 10 + d;
        i = i + 1;
    }
    proof {
        assert(part.subrange(0, to - from) =~= part);
    }
    Some(value)
}

/// Reads a count field.
pub fn parse_count(text: &Vec<char>) -> (n: u64)
    ensures
        n == count_of(text@),
{
    proof {
        assert(text@.subrange(0, text.len() as int) =~= text@);
    }
    if text.len() == 0 {
        return 0;
    }
    match read_digits(text, 0, text.len()) {
        Some(v) => v,
        None => 0,
    }
}

/// Reads a time field: a decimal number of seconds, as microseconds.
pub fn parse_micros(text: &Vec<char>) -> (n: u64)
    ensures
        n == micros_of(text@),
{
    let len: usize = text.len();
    proof {
        assert(text@.subrange(0, len as int) =~= text@);
    }
    let dot: usize = find_char(text, 0, len, '.');
    let ghost whole = whole_part(text@);
    let ghost frac = fraction_part(text@);
    let frac_from: usize = if dot < len {
        dot + 1
    } else {
        len
    };
    proof {
        assert(whole == text@.subrange(0, dot as int));
        assert(frac =~= text@.subrange(frac_from as int, len as int));
    }
    if dot + (len - frac_from) == 0 {
        return 0;
    }
    let seconds: u64 = match read_digits(text, 0, dot) {
        Some(v) => v,
        None => {
            proof {
                if all_digits(whole) {
                    assert(digits_value(whole) * 1_000_000 >= digits_value(whole));
                }
            }
            return 0;
        },
    };
    let head_to: usize = if len - frac_from > 6 {
        frac_from + 6
    } else {
        len
    };
    let ghost head = text@.subrange(frac_from as int, head_to as int);
    let ghost tail = text@.subrange(head_to as int, len as int);
    proof {
        assert(head =~= frac.subrange(0, head_to - frac_from));
        assert(tail =~= frac.subrange(head_to - frac_from, frac.len() as int));
        if all_digits(frac) {
            assert forall|j: int| 0 <= j < head.len() implies is_digit(#[trigger] head[j]) by {
                assert(head[j] == frac[j]);
            }
            assert forall|j: int| 0 <= j < tail.len() implies is_digit(#[trigger] tail[j]) by {
                assert(tail[j] == frac[j + head.len()]);
            }
            lemma_digits_value_below_power(head);
        }
        reveal_with_fuel(pow10, 8);
    }
    let shown: u64 = match read_digits(text, frac_from, head_to) {
        Some(v) => v,
        None => {
            return 0;
        },
    };
    match is_digits_only(text, head_to, len) {
        true => {},
        false => {
            return 0;
        },
    }
    proof {
        assert forall|j: int| 0 <= j < frac.len() implies is_digit(#[trigger] frac[j]) by {
            if j < head.len() {
                assert(frac[j] == head[j]);
            } else {
                assert(frac[j] == tail[j - head.len()]);
            }
        }
        lemma_digits_value_below_power(head);
        if frac.len() < 6 {
            assert(head =~= frac);
        }
    }
    let digits: usize = head_to - frac_from;
    proof {
        reveal_with_fuel(pow10, 8);
        assert(shown < pow10(digits as nat));
    }
    let part: u64 = if digits == 0 {
        shown * 1_000_000
    } else if digits == 1 {
        shown * 100_000
    } else if digits == 2 {
        shown * 10_000
    } else if digits == 3 {
        shown * 1_000
    } else if digits == 4 {
        shown * 100
    } else if digits == 5 {
        shown * 10
    } else {
        shown
    };
    assert(part == fraction_micros(frac));
    if seconds > (u64::MAX - part) / 1_000_000 {
        return 0;
    }
    seconds * 1_000_000 + part
}

/// Tells whether `text[from..to]` holds digits only.
pub fn is_digits_only(text: &Vec<char>, from: usize, to: usize) -> (b: bool)
    requires
        from <= to <= text.len(),
    ensures
        b == all_digits(text@.subrange(from as int, to as int)),
{
    let ghost part = text@.subrange(from as int, to as int);
    let mut i: usize = from;
    while i < to
        invariant
            from <= i <= to <= text.len(),
            part == text@.subrange(from as int, to as int),
            forall|j: int| 0 <= j < i - from ==> is_digit(#[trigger] part[j]),
        decreases to - i,
    {
        let n: u32 = text[i] as u32;
        if n < 0x30 || n > 0x39 {
            proof {
                assert(part[i - from] == text@[i as int]);
                assert(!is_digit(part[i - from]));
            }
            return false;
        }
        proof {
            assert(part[i - from] == text@[i as int]);
        }
        i = i + 1;
    }
    true
}

} // verus!
