//! Reading a menu choice from a line that the player typed.
use vstd::prelude::*;
use crate::text::{decimal, push_decimal};

verus! {

/// Why a typed line is no valid choice.
#[derive(Clone, Copy, Debug, PartialEq, Eq, Structural)]
pub enum ChoiceError {
    /// The line, without surrounding white space, is no decimal `u32`.
    NotANumber,
    /// The number lies outside the offered choices.
    OutOfRange,
}

/// `c` has the Unicode `White_Space` property (PropList.txt): the controls U+0009 to
/// U+000D, the space, U+0085, the no-break space U+00A0, U+1680, U+2000 to U+200A, the
/// line and paragraph separators U+2028 and U+2029, U+202F, U+205F and U+3000.
pub open spec fn unicode_space(c: char) -> bool {
    let x = c as int;
    ||| 0x9 <= x <= 0xd
    ||| x == 0x20
    ||| x == 0x85
    ||| x == 0xa0
    ||| x == 0x1680
    ||| 0x2000 <= x <= 0x200a
    ||| x == 0x2028
    ||| x == 0x2029
    ||| x == 0x202f
    ||| x == 0x205f
    ||| x == 0x3000
}

/// `char::is_whitespace`: whether `c` has the Unicode `White_Space` property.
#[verifier::external_body]
fn is_space(c: char) -> (r: bool)
    ensures
        r == unicode_space(c),
{
    c.is_whitespace()
}

/// `s` without its leading white space.
pub open spec fn trim_start(s: Seq<char>) -> Seq<char>
    decreases s.len(),
{
    if s.len() > 0 && unicode_space(s[0]) {
        trim_start(s.drop_first())
    } else {
        s
    }
}

/// `s` without its trailing white space.
pub open spec fn trim_end(s: Seq<char>) -> Seq<char>
    decreases s.len(),
{
    if s.len() > 0 && unicode_space(s.last()) {
        trim_end(s.drop_last())
    } else {
        s
    }
}

/// `s` without white space at either end.
pub open spec fn trimmed(s: Seq<char>) -> Seq<char> {
    trim_end(trim_start(s))
}

pub open spec fn is_digit(c: char) -> bool {
    '0' <= c && c <= '9'
}

/// The number that a string of decimal digits stands for.
pub open spec fn number_value(s: Seq<char>) -> nat
    decreases s.len(),
{
    if s.len() == 0 {
        0
    } else {
        number_value(s.drop_last()) * 10 + (s.last() as int - 48) as nat
    }
}

pub open spec fn all_digits(s: Seq<char>) -> bool {
    forall|i: int| 0 <= i < s.len() ==> is_digit(#[trigger] s[i])
}

/// `s` without one leading `+`.
pub open spec fn unsigned_text(s: Seq<char>) -> Seq<char> {
    if s.len() > 0 && s[0] == '+' {
        s.drop_first()
    } else {
        s
    }
}

/// The `u32` that `s` writes: an optional `+`, then at least one decimal digit, the value
/// fitting in a `u32`.
pub open spec fn parse_u32(s: Seq<char>) -> Option<u32> {
    let b = unsigned_text(s);
    if b.len() > 0 && all_digits(b) && number_value(b) <= u32::MAX {
        Some(number_value(b) as u32)
    } else {
        None
    }
}


proof fn lemma_number_grows(b: Seq<char>, k: int)
    requires
        0 <= k <= b.len(),
        all_digits(b),
    ensures
        number_value(b.take(k)) <= number_value(b),
    decreases b.len(),
{
    if k < b.len() {
        let d = b.drop_last();
        assert(d.take(k) =~= b.take(k));
        assert forall|i: int| 0 <= i < d.len() implies is_digit(#[trigger] d[i]) by {
            assert(d[i] == b[i]);
        }
        lemma_number_grows(d, k);
    } else {
        assert(b.take(k) =~= b);
    }
}

/// The characters of `line`.
fn chars_of(line: &str) -> (v: Vec<char>)
    ensures
        v@ == line@,
{
    let n = line.unicode_len();
    let mut v: Vec<char> = Vec::new();
    let mut i: usize = 0;
    while i < n
        invariant
            n == line@.len(),
            i <= n,
            v@ =~= line@.take(i as int),
        decreases n - i,
    {
        v.push(line.get_char(i));
        i = i + 1;
    }
    assert(line@.take(n as int) =~= line@);
    v
}

/// Where the text of `s` starts and ends once white space is cut from both ends.
fn trim_bounds(s: &Vec<char>) -> (r: (usize, usize))
    ensures
        r.0 <= r.1 <= s@.len(),
        trimmed(s@) == s@.subrange(r.0 as int, r.1 as int),
{
    let n = s.len();
    let mut start: usize = 0;
    assert(s@.subrange(0, n as int) =~= s@);
    while start < n && is_space(s[start])
        invariant
            n == s@.len(),
            start <= n,
            trim_start(s@) == trim_start(s@.subrange(start as int, n as int)),
        decreases n - start,
    {
        assert(s@.subrange(start as int, n as int).drop_first() =~= s@.subrange(start + 1, n as int));
        start = start + 1;
    }
    let ghost t = s@.subrange(start as int, n as int);
    assert(trim_start(s@) == t);
    let mut end: usize = n;
    while end > start && is_space(s[end - 1])
        invariant
            n == s@.len(),
            start <= end <= n,
            t == s@.subrange(start as int, n as int),
            trim_end(t) == trim_end(s@.subrange(start as int, end as int)),
        decreases end - start,
    {
        assert(s@.subrange(start as int, end as int).drop_last() =~= s@.subrange(start as int, end - 1));
        end = end - 1;
    }
    (start, end)
}

/// The choice that `line` makes among `lb` to `ub`.
pub open spec fn choice(line: Seq<char>, lb: u32, ub: u32) -> Result<u32, ChoiceError> {
    choice_of(trimmed(line), lb, ub)
}

/// The choice that the text `t`, already cut of white space, makes among `lb` to `ub`.
pub open spec fn choice_of(t: Seq<char>, lb: u32, ub: u32) -> Result<u32, ChoiceError> {
    match parse_u32(t) {
        None => Err(ChoiceError::NotANumber),
        Some(n) => if n > ub || n < lb {
            Err(ChoiceError::OutOfRange)
        } else {
            Ok(n)
        },
    }
}

/// Reads the choice in `text`, which has no white space at either end: an optional `+`,
/// then decimal digits of a `u32` from `lb` to `ub`.
pub fn choose_among(text: &Vec<char>, lb: u32, ub: u32) -> (r: Result<u32, ChoiceError>)
    ensures
        r == choice_of(text@, lb, ub),
{
    let end = text.len();
    let mut k: usize = 0;
    if k < end && text[k] == '+' {
        k = k + 1;
    }
    let ghost k0 = k as int;
    let ghost b = text@.subrange(k0, end as int);
    assert(b =~= unsigned_text(text@));
    if k >= end {
        return Err(ChoiceError::NotANumber);
    }
    let mut value: u64 = 0;
    while k < end
        invariant
            0 <= k0 <= k <= end,
            end == text@.len(),
            b.len() == end - k0,
            unsigned_text(text@) == b,
            b == text@.subrange(k0, end as int),
            all_digits(b.take(k - k0)),
            value == number_value(b.take(k - k0)),
            value <= u32::MAX,
        decreases end - k,
    {
        let c = text[k];
        assert(c == b[k - k0]);
        if !('0' <= c && c <= '9') {
            return Err(ChoiceError::NotANumber);
        }
        let d: u64 = (c as u32 - 48) as u64;
        assert(b.take(k - k0 + 1).drop_last() =~= b.take(k - k0));
        value = value * 10 + d;
        if value > 0xffff_ffff {
            proof {
                if all_digits(b) {
                    lemma_number_grows(b, k - k0 + 1);
                }
            }
            return Err(ChoiceError::NotANumber);
        }
        k = k + 1;
    }
    assert(b.take(b.len() as int) =~= b);
    let n = value as u32;
    if n > ub || n < lb {
        Err(ChoiceError::OutOfRange)
    } else {
        Ok(n)
    }
}

/// The characters of `s` from `start` up to `end`.
fn slice_of(s: &Vec<char>, start: usize, end: usize) -> (t: Vec<char>)
    requires
        start <= end <= s@.len(),
    ensures
        t@ == s@.subrange(start as int, end as int),
{
    let mut t: Vec<char> = Vec::new();
    let mut i = start;
    while i < end
        invariant
            start <= i <= end <= s@.len(),
            t@ =~= s@.subrange(start as int, i as int),
        decreases end - i,
    {
        t.push(s[i]);
        i = i + 1;
    }
    t
}

/// Reads the choice in `line`: cut off surrounding white space, the rest must be a decimal
/// `u32` from `lb` to `ub`.
pub fn check_choice(line: &str, lb: u32, ub: u32) -> (r: Result<u32, ChoiceError>)
    ensures
        r == choice(line@, lb, ub),
{
    let s = chars_of(line);
    let (start, end) = trim_bounds(&s);
    let t = slice_of(&s, start, end);
    choose_among(&t, lb, ub)
}

/// The complaint about a number outside `lb` to `ub`.
pub open spec fn bad_choice_text(lb: u32, ub: u32) -> Seq<char> {
    "bad choice, choose between "@ + decimal(lb as nat) + " and "@ + decimal(ub as nat) + "!!"@
}

/// `bad choice, choose between <lb> and <ub>!!`
pub fn bad_choice_message(lb: u32, ub: u32) -> (r: String)
    ensures
        r@ == bad_choice_text(lb, ub),
{
    let mut s = String::new();
    s.append("bad choice, choose between ");
    push_decimal(&mut s, lb as u64);
    s.append(" and ");
    push_decimal(&mut s, ub as u64);
    s.append("!!");
    assert(s@ =~= bad_choice_text(lb, ub));
    s
}

} // verus!
