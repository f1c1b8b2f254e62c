//! Operations on text held as a vector of characters.
use vstd::prelude::*;

verus! {

/// Appending one character to a `String` extends its view by that character.
///
/// This is the documented behaviour of `String::push`, stated without proof.
pub assume_specification[ String::push ](s: &mut String, c: char)
    ensures
        final(s)@ == old(s)@.push(c),
;

/// The characters that separate tokens: those with the Unicode property
/// `White_Space`.
pub open spec fn is_space(c: char) -> bool {
    let n = c as u32;
    ||| 0x09 <= n <= 0x0D
    ||| n == 0x20
    ||| n == 0x85
    ||| n == 0xA0
    ||| n == 0x1680
    ||| 0x2000 <= n <= 0x200A
    ||| n == 0x2028
    ||| n == 0x2029
    ||| n == 0x202F
    ||| n == 0x205F
    ||| n == 0x3000
}

/// Decides whether `c` separates tokens.
pub fn is_separator(c: char) -> (r: bool)
    ensures
        r == is_space(c),
{
    let n: u32 = c as u32;
    (0x09 <= n && n <= 0x0D) || n == 0x20 || n == 0x85 || n == 0xA0 || n == 0x1680 || (0x2000 <= n
        && n <= 0x200A) || n == 0x2028 || n == 0x2029 || n == 0x202F || n == 0x205F || n == 0x3000
}

/// The characters of `s`, in order.
pub fn chars_of(s: &str) -> (v: Vec<char>)
    ensures
        v@ == s@,
{
    let mut v: Vec<char> = Vec::new();
    for c in it: s.chars()
        invariant
            v@ == it.seq().take(it.index() as int),
            it.seq() == s@,
    {
        v.push(c);
    }
    v
}

/// A `String` with the characters of `v`, in order.
pub fn string_of(v: &Vec<char>) -> (s: String)
    ensures
        s@ == v@,
{
    let mut s = String::new();
    let mut i: usize = 0;
    while i < v.len()
        invariant
            i <= v.len(),
            s@ == v@.take(i as int),
        decreases v.len() - i,
    {
        s.push(v[i]);
        i += 1;
    }
    s
}

/// A fresh vector with the characters of `v`.
pub fn copy_of(v: &Vec<char>) -> (r: Vec<char>)
    ensures
        r@ == v@,
{
    let mut r: Vec<char> = Vec::new();
    let mut i: usize = 0;
    while i < v.len()
        invariant
            i <= v.len(),
            r@ == v@.take(i as int),
        decreases v.len() - i,
    {
        r.push(v[i]);
        i += 1;
    }
    r
}

/// Appends the characters of `more` to `out`.
pub fn extend(out: &mut Vec<char>, more: &Vec<char>)
    ensures
        final(out)@ == old(out)@ + more@,
{
    let mut i: usize = 0;
    while i < more.len()
        invariant
            i <= more.len(),
            out@ == old(out)@ + more@.take(i as int),
        decreases more.len() - i,
    {
        out.push(more[i]);
        i += 1;
    }
}

/// Decides whether two texts hold the same characters.
pub fn same_text(a: &Vec<char>, b: &Vec<char>) -> (r: bool)
    ensures
        r == (a@ == b@),
{
    if a.len() != b.len() {
        return false;
    }
    let mut i: usize = 0;
    while i < a.len()
        invariant
            i <= a.len(),
            a.len() == b.len(),
            a@.take(i as int) == b@.take(i as int),
        decreases a.len() - i,
    {
        if a[i] != b[i] {
            return false;
        }
        i += 1;
    }
    assert(a@ == a@.take(a.len() as int));
    assert(b@ == b@.take(b.len() as int));
    true
}

/// Decides whether `text` spells the word `word`.
pub fn spells(text: &Vec<char>, word: &str) -> (r: bool)
    ensures
        r == (text@ == word@),
{
    let n = word.unicode_len();
    if text.len() != n {
        return false;
    }
    let mut i: usize = 0;
    while i < n
        invariant
            i <= n,
            n == text.len(),
            n == word@.len(),
            text@.take(i as int) == word@.take(i as int),
        decreases n - i,
    {
        if text[i] != word.get_char(i) {
            return false;
        }
        i += 1;
    }
    assert(text@ == text@.take(n as int));
    assert(word@ == word@.take(n as int));
    true
}

/// Decides whether `c` occurs in `text`.
pub fn contains_char(text: &Vec<char>, c: char) -> (r: bool)
    ensures
        r == text@.contains(c),
{
    let mut i: usize = 0;
    while i < text.len()
        invariant
            i <= text.len(),
            forall|j: int| 0 <= j < i ==> text@[j] != c,
        decreases text.len() - i,
    {
        if text[i] == c {
            return true;
        }
        i += 1;
    }
    false
}

/// Whether `s` begins and ends with a double quote. A lone quote does both.
pub open spec fn is_quoted(s: Seq<char>) -> bool {
    s.len() > 0 && s[0] == '"' && s.last() == '"'
}

/// Decides whether `text` begins and ends with a double quote.
pub fn quoted(text: &Vec<char>) -> (r: bool)
    ensures
        r == is_quoted(text@),
{
    text.len() > 0 && text[0] == '"' && text[text.len() - 1] == '"'
}

/// How many double quotes stand at the front of `s`.
pub open spec fn leading_quotes(s: Seq<char>) -> nat
    decreases s.len(),
{
    if s.len() > 0 && s[0] == '"' {
        1 + leading_quotes(s.drop_first())
    } else {
        0
    }
}

/// How many double quotes stand at the back of `s`.
pub open spec fn trailing_quotes(s: Seq<char>) -> nat
    decreases s.len(),
{
    if s.len() > 0 && s.last() == '"' {
        1 + trailing_quotes(s.drop_last())
    } else {
        0
    }
}

/// `s` without the double quotes at its front and at its back, however many
/// there are. A text of quotes alone becomes empty.
pub open spec fn strip_quotes(s: Seq<char>) -> Seq<char> {
    let a = leading_quotes(s);
    if a == s.len() {
        Seq::empty()
    } else {
        s.subrange(a as int, s.len() - trailing_quotes(s))
    }
}

/// A run of `n` quotes at the front that ends at a character that is no
/// quote, or at the end of the text, is all the leading quotes there are.
pub proof fn lemma_leading_quotes(s: Seq<char>, n: int)
    requires
        0 <= n <= s.len(),
        forall|j: int| 0 <= j < n ==> s[j] == '"',
        n < s.len() ==> s[n] != '"',
    ensures
        leading_quotes(s) == n,
    decreases n,
{
    if n > 0 {
        lemma_leading_quotes(s.drop_first(), n - 1);
    }
}

/// A run of `n` quotes at the back that begins after a character that is no
/// quote, or at the start of the text, is all the trailing quotes there are.
pub proof fn lemma_trailing_quotes(s: Seq<char>, n: int)
    requires
        0 <= n <= s.len(),
        forall|j: int| s.len() - n <= j < s.len() ==> s[j] == '"',
        n < s.len() ==> s[s.len() - n - 1] != '"',
    ensures
        trailing_quotes(s) == n,
    decreases n,
{
    if n > 0 {
        lemma_trailing_quotes(s.drop_last(), n - 1);
    }
}

/// Removes the double quotes around `text`.
pub fn unquote(text: &Vec<char>) -> (r: Vec<char>)
    ensures
        r@ == strip_quotes(text@),
{
    let n = text.len();
    let mut a: usize = 0;
    while a < n && text[a] == '"'
        invariant
            a <= n,
            n == text.len(),
            forall|j: int| 0 <= j < a ==> text@[j] == '"',
        decreases n - a,
    {
        a += 1;
    }
    proof {
        lemma_leading_quotes(text@, a as int);
    }
    let mut r: Vec<char> = Vec::new();
    if a == n {
        return r;
    }
    let mut b: usize = n;
    while b > a && text[b - 1] == '"'
        invariant
            a < b <= n,
            n == text.len(),
            text@[a as int] != '"',
            forall|j: int| b <= j < n ==> text@[j] == '"',
        decreases b,
    {
        b -= 1;
    }
    proof {
        lemma_trailing_quotes(text@, n - b);
    }
    let mut i: usize = a;
    while i < b
        invariant
            a <= i <= b <= n,
            n == text.len(),
            r@ == text@.subrange(a as int, i as int),
        decreases b - i,
    {
        r.push(text[i]);
        i += 1;
    }
    r
}

/// The words of `words` in order, with one space between neighbours.
pub open spec fn join(words: Seq<Seq<char>>) -> Seq<char>
    decreases words.len(),
{
    if words.len() == 0 {
        Seq::empty()
    } else if words.len() == 1 {
        words[0]
    } else {
        join(words.drop_last()) + seq![' '] + words.last()
    }
}

/// `s` with each backslash that is followed by the letter `n` replaced, pair
/// by pair from the left, by one line feed.
pub open spec fn unescape(s: Seq<char>) -> Seq<char>
    decreases s.len(),
{
    if s.len() == 0 {
        Seq::empty()
    } else if s.len() >= 2 && s[0] == '\\' && s[1] == 'n' {
        seq!['\n'] + unescape(s.skip(2))
    } else {
        seq![s[0]] + unescape(s.skip(1))
    }
}

/// Replaces each escaped line feed in `text` by a real one.
pub fn unescaped(text: &Vec<char>) -> (r: Vec<char>)
    ensures
        r@ == unescape(text@),
{
    let n = text.len();
    let mut r: Vec<char> = Vec::new();
    let mut i: usize = 0;
    assert(text@.skip(0) == text@);
    while i < n
        invariant
            i <= n,
            n == text.len(),
            unescape(text@) == r@ + unescape(text@.skip(i as int)),
        decreases n - i,
    {
        let ghost rest = text@.skip(i as int);
        if n - i >= 2 && text[i] == '\\' && text[i + 1] == 'n' {
            assert(rest.skip(2) == text@.skip(i + 2));
            r.push('\n');
            i += 2;
        } else {
            assert(rest.skip(1) == text@.skip(i + 1));
            r.push(text[i]);
            i += 1;
        }
    }
    r
}

} // verus!
