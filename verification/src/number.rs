//! Decimal integer literals: reading them and writing them.
use vstd::prelude::*;

verus! {

/// The character that writes the digit `d`.
pub open spec fn digit_char(d: nat) -> char {
    if d == 0 {
        '0'
    } else if d == 1 {
        '1'
    } else if d == 2 {
        '2'
    } else if d == 3 {
        '3'
    } else if d == 4 {
        '4'
    } else if d == 5 {
        '5'
    } else if d == 6 {
        '6'
    } else if d == 7 {
        '7'
    } else if d == 8 {
        '8'
    } else {
        '9'
    }
}

/// The number that the digit `c` stands for.
pub open spec fn digit_value(c: char) -> nat {
    if c == '1' {
        1
    } else if c == '2' {
        2
    } else if c == '3' {
        3
    } else if c == '4' {
        4
    } else if c == '5' {
        5
    } else if c == '6' {
        6
    } else if c == '7' {
        7
    } else if c == '8' {
        8
    } else if c == '9' {
        9
    } else {
        0
    }
}

/// Whether `c` is one of the ten ASCII digits.
pub open spec fn is_digit(c: char) -> bool {
    c == digit_char(digit_value(c))
}

/// Whether every character of `s` is a digit.
pub open spec fn all_digits(s: Seq<char>) -> bool {
    forall|i: int| 0 <= i < s.len() ==> is_digit(#[trigger] s[i])
}

/// The number that a run of digits writes in base ten; zero for no digits.
pub open spec fn digits_value(s: Seq<char>) -> int
    decreases s.len(),
{
    if s.len() == 0 {
        0
    } else {
        10 * digits_value(s.drop_last()) + digit_value(s.last())
    }
}

/// Whether `s` begins with a sign.
pub open spec fn has_sign(s: Seq<char>) -> bool {
    s.len() > 0 && (s[0] == '-' || s[0] == '+')
}

/// The digits of a literal: what follows its sign, if it has one.
pub open spec fn literal_digits(s: Seq<char>) -> Seq<char> {
    if has_sign(s) {
        s.skip(1)
    } else {
        s
    }
}

/// The number that a literal writes, whatever its size: the value of its
/// digits, negated under a minus sign.
pub open spec fn literal_value(s: Seq<char>) -> int {
    if s.len() > 0 && s[0] == '-' {
        -digits_value(literal_digits(s))
    } else {
        digits_value(literal_digits(s))
    }
}

/// The 32-bit integer that `s` writes, if it writes one: an optional sign,
/// then one digit or more and nothing else, with a value that fits.
pub open spec fn integer_of(s: Seq<char>) -> Option<i32> {
    let digits = literal_digits(s);
    let value = literal_value(s);
    if digits.len() > 0 && all_digits(digits) && i32::MIN <= value <= i32::MAX {
        Some(value as i32)
    } else {
        None
    }
}

/// The decimal digits of `n`, most significant first, without leading zeros.
pub open spec fn render_nat(n: nat) -> Seq<char>
    decreases n,
{
    if n < 10 {
        seq![digit_char(n)]
    } else {
        render_nat(n / 10).push(digit_char(n % 10))
    }
}

/// The decimal text of `n`: a minus sign if it is negative, then its digits.
pub open spec fn render_int(n: int) -> Seq<char> {
    if n < 0 {
        seq!['-'] + render_nat((-n) as nat)
    } else {
        render_nat(n as nat)
    }
}

/// The value of a run of digits is at least that of each of its prefixes.
pub proof fn lemma_prefix_value(s: Seq<char>, k: int)
    requires
        all_digits(s),
        0 <= k <= s.len(),
    ensures
        0 <= digits_value(s.take(k)) <= digits_value(s),
    decreases s.len(),
{
    if k == s.len() {
        assert(s.take(k) == s);
        if s.len() > 0 {
            lemma_prefix_value(s.drop_last(), k - 1);
        }
    } else {
        lemma_prefix_value(s.drop_last(), k);
        assert(s.drop_last().take(k) == s.take(k));
    }
}

/// The value of `c` if it is a digit.
fn read_digit(c: char) -> (r: Option<u8>)
    ensures
        is_digit(c) ==> r == Some(digit_value(c) as u8),
        !is_digit(c) ==> r is None,
{
    let code: u32 = c as u32;
    if 0x30 <= code && code <= 0x39 {
        Some((code - 0x30) as u8)
    } else {
        None
    }
}

/// The character that writes the digit `d`.
fn write_digit(d: u8) -> (c: char)
    requires
        d < 10,
    ensures
        c == digit_char(d as nat),
{
    (0x30 + d) as char
}

/// Reads `text` as a 32-bit integer literal.
pub fn parse_integer(text: &Vec<char>) -> (r: Option<i32>)
    ensures
        r == integer_of(text@),
{
    let n = text.len();
    if n == 0 {
        return None;
    }
    let negative = text[0] == '-';
    let start: usize = if negative || text[0] == '+' {
        1
    } else {
        0
    };
    let ghost digits = literal_digits(text@);
    if start == n {
        return None;
    }
    let mut value: i64 = 0;
    let mut i: usize = start;
    while i < n
        invariant
            start <= i <= n,
            n == text.len(),
            digits == literal_digits(text@),
            digits == text@.subrange(start as int, n as int),
            all_digits(digits.take(i - start)),
            value == digits_value(digits.take(i - start)),
            0 <= value <= 0x8000_0000,
        decreases n - i,
    {
        let digit: u8 = match read_digit(text[i]) {
            Some(digit) => digit,
            None => {
                assert(digits[i - start] == text@[i as int]);
                return None;
            },
        };
        let ghost before = digits.take(i - start);
        let ghost after = digits.take(i - start + 1);
        assert(after.drop_last() == before);
        assert forall|j: int| 0 <= j < after.len() implies is_digit(#[trigger] after[j]) by {
            if j < before.len() {
                assert(after[j] == before[j]);
            }
        }
        value = value * 10 + digit as i64;
        if value > 0x8000_0000 {
            proof {
                if all_digits(digits) {
                    lemma_prefix_value(digits, i - start + 1);
                }
            }
            return None;
        }
        i += 1;
    }
    assert(digits.take(n - start) == digits);
    if negative {
        Some((-value) as i32)
    } else if value > 0x7FFF_FFFF {
        None
    } else {
        Some(value as i32)
    }
}

/// Appends the decimal digits of `n` to `out`.
fn push_digits(n: u32, out: &mut Vec<char>)
    ensures
        final(out)@ == old(out)@ + render_nat(n as nat),
    decreases n,
{
    if n >= 10 {
        push_digits(n / 10, out);
    }
    out.push(write_digit((n % 10) as u8));
}

/// Writes `n` in decimal.
pub fn render_integer(n: i32) -> (r: Vec<char>)
    ensures
        r@ == render_int(n as int),
{
    let mut r: Vec<char> = Vec::new();
    let magnitude: u32 = if n < 0 {
        r.push('-');
        (-(n as i64)) as u32
    } else {
        n as u32
    };
    push_digits(magnitude, &mut r);
    r
}

/// The digits written for `n` are digits, at least one of them, and their
/// value is `n`.
pub proof fn lemma_render_nat(n: nat)
    ensures
        render_nat(n).len() >= 1,
        all_digits(render_nat(n)),
        digits_value(render_nat(n)) == n,
    decreases n,
{
    if n < 10 {
        let s = render_nat(n);
        assert(digits_value(s.drop_last()) == 0);
    } else {
        lemma_render_nat(n / 10);
        let head = render_nat(n / 10);
        let s = render_nat(n);
        assert(s.drop_last() == head);
        assert forall|i: int| 0 <= i < s.len() implies is_digit(#[trigger] s[i]) by {
            if i < head.len() {
                assert(s[i] == head[i]);
            }
        }
    }
}

/// Reading what was written gives the number back: for every 32-bit `n`,
/// the decimal text of `n` is a literal of `n`.
pub proof fn lemma_render_then_parse(n: i32)
    ensures
        integer_of(render_int(n as int)) == Some(n),
{
    let s = render_int(n as int);
    if n < 0 {
        let m = (-n) as nat;
        lemma_render_nat(m);
        assert(s.skip(1) == render_nat(m));
    } else {
        lemma_render_nat(n as nat);
    }
}

/// Whether `s` is written the way a number is rendered: an optional minus
/// sign and digits, with no plus sign, no leading zero and no negative zero.
pub open spec fn is_canonical(s: Seq<char>) -> bool {
    let digits = if s.len() > 0 && s[0] == '-' {
        s.skip(1)
    } else {
        s
    };
    &&& digits.len() > 0
    &&& all_digits(digits)
    &&& digits.len() == 1 || digits[0] != '0'
    &&& s[0] == '-' ==> digits[0] != '0'
}

/// Digits without a leading zero are the rendering of their own value.
pub proof fn lemma_value_then_render(digits: Seq<char>)
    requires
        digits.len() > 0,
        all_digits(digits),
        digits.len() == 1 || digits[0] != '0',
    ensures
        digits_value(digits) >= 0,
        render_nat(digits_value(digits) as nat) == digits,
    decreases digits.len(),
{
    let head = digits.drop_last();
    if digits.len() == 1 {
        assert(digits_value(head) == 0);
    } else {
        assert forall|i: int| 0 <= i < head.len() implies is_digit(#[trigger] head[i]) by {
            assert(head[i] == digits[i]);
        }
        lemma_value_then_render(head);
        assert(head.push(digits.last()) == digits);
    }
}

/// Writing what was read gives the literal back: a literal in canonical form
/// that reads as `n` is the decimal text of `n`.
pub proof fn lemma_parse_then_render(s: Seq<char>, n: i32)
    requires
        is_canonical(s),
        integer_of(s) == Some(n),
    ensures
        render_int(n as int) == s,
{
    let digits = literal_digits(s);
    lemma_value_then_render(digits);
    if s[0] == '-' {
        assert(seq!['-'] + digits == s);
    }
}

} // verus!
