//! Building the text that the game shows: decimal numbers and padded columns.
use vstd::prelude::*;
use pad::PadStr;

verus! {

/// The character of the decimal digit `d` (0 to 9).
pub open spec fn digit_char(d: int) -> char {
    (48 + d) as char
}

/// The decimal notation of a natural number, without leading zeros.
pub open spec fn decimal(n: nat) -> Seq<char>
    decreases n,
{
    if n < 10 {
        seq![digit_char(n as int)]
    } else {
        decimal(n / 10).push(digit_char((n % 10) as int))
    }
}

/// The decimal notation of an integer, with a leading `-` when it is negative.
pub open spec fn signed_decimal(i: int) -> Seq<char> {
    if i < 0 {
        seq!['-'] + decimal((-i) as nat)
    } else {
        decimal(i as nat)
    }
}

/// Every character is ASCII and none is a line feed: the texts that the `pad` crate
/// counts as one column per character.
pub open spec fn plain_ascii(s: Seq<char>) -> bool {
    forall|i: int| 0 <= i < s.len() ==> (#[trigger] s[i]) as int <= 0x7f && s[i] != '\n'
}

/// The number of bytes that `c` takes in UTF-8.
pub open spec fn char_bytes(c: char) -> nat {
    if c as int <= 0x7f {
        1
    } else if c as int <= 0x7ff {
        2
    } else if c as int <= 0xffff {
        3
    } else {
        4
    }
}

/// The number of bytes that `s` takes in UTF-8.
pub open spec fn utf8_len(s: Seq<char>) -> nat
    decreases s.len(),
{
    if s.len() == 0 {
        0
    } else {
        utf8_len(s.drop_last()) + char_bytes(s.last())
    }
}

/// Cutting `s` at byte `w` is safe: `s` takes fewer than `w` bytes, or a character ends
/// exactly at byte `w`.
pub open spec fn cut_safe(s: Seq<char>, w: nat) -> bool {
    ||| utf8_len(s) < w
    ||| exists|k: int| 0 <= k <= s.len() && #[trigger] utf8_len(s.take(k)) == w
}

/// `n` copies of the character `c`.
pub open spec fn fill(c: char, n: nat) -> Seq<char> {
    Seq::new(n, |i: int| c)
}

/// A column of `width` characters made from `s`: `s` itself when it is at least as wide
/// (cut to `width` when `truncate` holds), else `s` filled with `c` on the right when
/// `left` holds and on the left otherwise.
pub open spec fn column(s: Seq<char>, width: nat, c: char, left: bool, truncate: bool) -> Seq<char> {
    if s.len() >= width {
        if truncate {
            s.take(width as int)
        } else {
            s
        }
    } else if left {
        s + fill(c, (width - s.len()) as nat)
    } else {
        fill(c, (width - s.len()) as nat) + s
    }
}

/// What `pad::PadStr::pad` returns for these arguments.
pub uninterp spec fn padded(s: Seq<char>, width: usize, c: char, left: bool, truncate: bool) -> Seq<char>;

/// The padded text: `column(..)` for plain ASCII, else what the `pad` crate returns.
pub open spec fn pad_text(s: Seq<char>, width: usize, c: char, left: bool, truncate: bool) -> Seq<char> {
    if plain_ascii(s) {
        column(s, width as nat, c, left, truncate)
    } else {
        padded(s, width, c, left, truncate)
    }
}

/// Where a padded text stands in its column.
#[derive(Clone, Copy, Debug, PartialEq, Eq, Structural)]
pub enum Side {
    Left,
    Right,
}

proof fn lemma_utf8_len_ascii(s: Seq<char>)
    requires
        plain_ascii(s),
    ensures
        utf8_len(s) == s.len(),
    decreases s.len(),
{
    if s.len() > 0 {
        let d = s.drop_last();
        assert forall|i: int| 0 <= i < d.len() implies (#[trigger] d[i]) as int <= 0x7f && d[i] != '\n' by {
            assert(d[i] == s[i]);
        }
        lemma_utf8_len_ascii(d);
        assert(s[s.len() - 1] as int <= 0x7f);
    }
}

pub proof fn lemma_plain_concat(a: Seq<char>, b: Seq<char>)
    requires
        plain_ascii(a),
        plain_ascii(b),
    ensures
        plain_ascii(a + b),
{
    assert forall|i: int| 0 <= i < (a + b).len() implies (#[trigger] (a + b)[i]) as int <= 0x7f && (a + b)[i] != '\n' by {
        if i < a.len() {
            assert((a + b)[i] == a[i]);
        } else {
            assert((a + b)[i] == b[i - a.len()]);
        }
    }
}

pub proof fn lemma_plain_decimal(n: nat)
    ensures
        plain_ascii(decimal(n)),
    decreases n,
{
    if n >= 10 {
        lemma_plain_decimal(n / 10);
        lemma_plain_concat(decimal(n / 10), seq![digit_char((n % 10) as int)]);
        assert(decimal(n / 10).push(digit_char((n % 10) as int)) =~= decimal(n / 10) + seq![digit_char((n % 10) as int)]);
    }
}

pub proof fn lemma_plain_signed(i: int)
    ensures
        plain_ascii(signed_decimal(i)),
{
    if i < 0 {
        lemma_plain_decimal((-i) as nat);
        lemma_plain_concat(seq!['-'], decimal((-i) as nat));
    } else {
        lemma_plain_decimal(i as nat);
    }
}

/// A plain ASCII text can be cut anywhere.
pub proof fn lemma_plain_cut_safe(s: Seq<char>, w: nat)
    requires
        plain_ascii(s),
    ensures
        cut_safe(s, w),
{
    lemma_utf8_len_ascii(s);
    if s.len() >= w {
        let t = s.take(w as int);
        assert forall|i: int| 0 <= i < t.len() implies (#[trigger] t[i]) as int <= 0x7f && t[i] != '\n' by {
            assert(t[i] == s[i]);
        }
        lemma_utf8_len_ascii(t);
        assert(utf8_len(s.take(w as int)) == w);
    }
}

/// Appends one character to a string (`String::push`).
#[verifier::external_body]
pub(crate) fn push_char(s: &mut String, c: char)
    ensures
        final(s)@ == old(s)@.push(c),
{
    s.push(c);
}

/// Pads `s` to `width` columns with `c` through `pad::PadStr::pad`, aligned to `side`.
/// The crate counts the columns of `s` by Unicode display width, one per character for
/// plain ASCII (every ASCII character but the line feed counts one column), so the result
/// is then `column(..)`. For other texts the result is left to the name `padded`.
/// When `truncate` holds and `s` has at least `width` columns, the crate cuts `s` at byte
/// `width`, which panics when that byte lies inside a character or past the end. No
/// character counts more columns than it has bytes, so a text of fewer than `width` bytes
/// is never cut; the contract admits, when `truncate` holds, the texts that are shorter
/// than `width` bytes or have a character ending at byte `width` (`cut_safe`). It leaves
/// out the longer texts without such a character that still have fewer than `width`
/// columns, which the crate pads without a cut.
#[verifier::external_body]
pub(crate) fn pad_column(s: &str, width: usize, c: char, side: Side, truncate: bool) -> (r: String)
    requires
        truncate ==> cut_safe(s@, width as nat),
    ensures
        r@ == padded(s@, width, c, side == Side::Left, truncate),
        r@ == pad_text(s@, width, c, side == Side::Left, truncate),
{
    let alignment = match side {
        Side::Left => pad::Alignment::Left,
        Side::Right => pad::Alignment::Right,
    };
    s.pad(width, c, alignment, truncate)
}

/// The character of the decimal digit `d`.
pub fn digit(d: u64) -> (c: char)
    requires
        d < 10,
    ensures
        c == digit_char(d as int),
{
    let b: u8 = 48 + d as u8;
    b as char
}

/// Appends the decimal notation of `n` to `s`.
pub fn push_decimal(s: &mut String, n: u64)
    ensures
        final(s)@ == old(s)@ + decimal(n as nat),
    decreases n,
{
    if n >= 10 {
        push_decimal(s, n / 10);
    }
    let c = digit(n % 10);
    let ghost before = s@;
    push_char(s, c);
    proof {
        if n >= 10 {
            assert(before == old(s)@ + decimal((n / 10) as nat));
            assert(s@ =~= old(s)@ + decimal((n / 10) as nat).push(digit_char((n % 10) as int)));
        } else {
            assert(s@ =~= old(s)@ + decimal(n as nat));
        }
    }
}

/// Appends the decimal notation of `i`, with its sign, to `s`.
pub fn push_signed(s: &mut String, i: i32)
    ensures
        final(s)@ == old(s)@ + signed_decimal(i as int),
{
    let m: i64 = i as i64;
    if m < 0 {
        push_char(s, '-');
        let ghost mid = s@;
        push_decimal(s, (-m) as u64);
        assert(s@ =~= old(s)@ + signed_decimal(i as int));
    } else {
        push_decimal(s, m as u64);
    }
}

} // verus!
