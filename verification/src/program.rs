//! Programs: the token sequence that the engine runs, and how it is cut
//! out of program text.
use vstd::prelude::*;
use crate::text::{chars_of, contains_char, copy_of, is_separator, is_space, string_of};

verus! {

/// What a reader of floating-point literals made of a token, as the model
/// sees it.
pub struct ReadingView {
    /// The value, cut off toward zero and brought into 32 bits.
    pub truncated: i32,
    /// The value as it is written out.
    pub shown: Seq<char>,
}

/// A token as the model sees it.
pub struct TokenView {
    /// The characters of the token.
    pub text: Seq<char>,
    /// Its floating-point reading, where it has one.
    pub float: Option<ReadingView>,
}

/// What a reader of floating-point literals made of a token.
pub struct Reading {
    truncated: i32,
    shown: Vec<char>,
}

/// One token of a program.
pub struct Token {
    text: Vec<char>,
    float: Option<Reading>,
}

/// A program: its tokens in order.
pub struct Program {
    tokens: Vec<Token>,
}

impl View for Reading {
    type V = ReadingView;

    closed spec fn view(&self) -> ReadingView {
        ReadingView { truncated: self.truncated, shown: self.shown@ }
    }
}

impl View for Token {
    type V = TokenView;

    closed spec fn view(&self) -> TokenView {
        TokenView {
            text: self.text@,
            float: match self.float {
                Some(reading) => Some(reading@),
                None => None,
            },
        }
    }
}

impl View for Program {
    type V = Seq<TokenView>;

    closed spec fn view(&self) -> Seq<TokenView> {
        Seq::new(self.tokens.len() as nat, |i: int| self.tokens@[i]@)
    }
}

/// How many characters stand at the front of `s` before the first
/// separator, or before the end.
pub open spec fn run_length(s: Seq<char>) -> nat
    decreases s.len(),
{
    if s.len() == 0 || is_space(s[0]) {
        0
    } else {
        1 + run_length(s.drop_first())
    }
}

/// A run is no longer than the text it is in.
pub proof fn lemma_run_length_bound(s: Seq<char>)
    ensures
        run_length(s) <= s.len(),
    decreases s.len(),
{
    if !(s.len() == 0 || is_space(s[0])) {
        lemma_run_length_bound(s.drop_first());
    }
}

/// The words of `s`: its maximal runs of characters that are no separators,
/// from left to right.
pub open spec fn words(s: Seq<char>) -> Seq<Seq<char>>
    decreases s.len(),
    via words_decreases
{
    if s.len() == 0 {
        Seq::empty()
    } else if is_space(s[0]) {
        words(s.drop_first())
    } else {
        seq![s.take(run_length(s) as int)] + words(s.skip(run_length(s) as int))
    }
}

#[via_fn]
proof fn words_decreases(s: Seq<char>) {
    lemma_run_length_bound(s);
}

/// The program made of `words`, none of them with a reading.
pub open spec fn plain(words: Seq<Seq<char>>) -> Seq<TokenView> {
    Seq::new(words.len(), |i: int| TokenView { text: words[i], float: None })
}

/// Whether every token of `program` has at least one character.
pub open spec fn well_formed(program: Seq<TokenView>) -> bool {
    forall|i: int| 0 <= i < program.len() ==> (#[trigger] program[i]).text.len() > 0
}

/// `n` characters that are no separators, followed by a separator or by the
/// end, are the whole first run.
pub proof fn lemma_run_length(s: Seq<char>, n: int)
    requires
        0 <= n <= s.len(),
        forall|j: int| 0 <= j < n ==> !is_space(s[j]),
        n < s.len() ==> is_space(s[n]),
    ensures
        run_length(s) == n,
    decreases n,
{
    if n > 0 {
        lemma_run_length(s.drop_first(), n - 1);
    }
}

/// The characters of a run are no separators.
pub proof fn lemma_run_is_solid(s: Seq<char>, j: int)
    requires
        0 <= j < run_length(s),
    ensures
        j < s.len(),
        !is_space(s[j]),
    decreases j,
{
    if j > 0 {
        lemma_run_is_solid(s.drop_first(), j - 1);
    }
}

/// Whether `w` has at least one character and no separator.
pub open spec fn is_solid(w: Seq<char>) -> bool {
    w.len() > 0 && forall|j: int| 0 <= j < w.len() ==> !is_space(#[trigger] w[j])
}

/// No word is empty, and no word holds a separator.
pub proof fn lemma_words_are_solid(s: Seq<char>)
    ensures
        forall|k: int| 0 <= k < words(s).len() ==> is_solid(#[trigger] words(s)[k]),
    decreases s.len(),
{
    if s.len() == 0 {
        assert(words(s).len() == 0);
    } else if is_space(s[0]) {
        lemma_words_are_solid(s.drop_first());
        assert(words(s) == words(s.drop_first()));
    } else {
        let n = run_length(s) as int;
        lemma_run_length_bound(s);
        lemma_words_are_solid(s.skip(n));
        let first = s.take(n);
        let rest = words(s.skip(n));
        assert(words(s) == seq![first] + rest);
        assert forall|k: int| 0 <= k < words(s).len() implies is_solid(#[trigger] words(s)[k]) by {
            if k == 0 {
                assert forall|j: int| 0 <= j < first.len() implies !is_space(
                    #[trigger] first[j],
                ) by {
                    lemma_run_is_solid(s, j);
                }
            } else {
                assert(words(s)[k] == rest[k - 1]);
            }
        }
    }
}

impl Program {
    /// Cuts `text` into its tokens. None of them has a reading yet.
    pub fn parse(text: &str) -> (program: Program)
        ensures
            program@ == plain(words(text@)),
            well_formed(program@),
    {
        let chars = chars_of(text);
        let n = chars.len();
        let mut tokens: Vec<Token> = Vec::new();
        let ghost mut done: Seq<Seq<char>> = Seq::empty();
        let mut i: usize = 0;
        assert(chars@.skip(0) == chars@);
        while i < n
            invariant
                i <= n,
                n == chars.len(),
                tokens.len() == done.len(),
                forall|k: int|
                    0 <= k < done.len() ==> (#[trigger] tokens@[k])@ == (TokenView {
                        text: done[k],
                        float: None,
                    }),
                words(chars@) == done + words(chars@.skip(i as int)),
            decreases n - i,
        {
            let ghost rest = chars@.skip(i as int);
            if is_separator(chars[i]) {
                assert(rest.drop_first() == chars@.skip(i + 1));
                i += 1;
            } else {
                let start = i;
                let mut word: Vec<char> = Vec::new();
                while i < n && !is_separator(chars[i])
                    invariant
                        start <= i <= n,
                        n == chars.len(),
                        word@ == chars@.subrange(start as int, i as int),
                        forall|j: int| start <= j < i ==> !is_space(chars@[j]),
                    decreases n - i,
                {
                    word.push(chars[i]);
                    i += 1;
                }
                proof {
                    lemma_run_length(rest, i - start);
                    assert(rest.take(i - start) == word@);
                    assert(rest.skip(i - start) == chars@.skip(i as int));
                    assert(done + (seq![word@] + words(chars@.skip(i as int))) == done.push(word@)
                        + words(chars@.skip(i as int)));
                    done = done.push(word@);
                }
                tokens.push(Token { text: word, float: None });
            }
        }
        let program = Program { tokens };
        proof {
            assert(done == words(text@));
            assert(program@ == plain(done));
            lemma_words_are_solid(text@);
            assert forall|k: int| 0 <= k < program@.len() implies (#[trigger] program@[k]).text.len()
                > 0 by {
                assert(is_solid(words(text@)[k]));
            }
        }
        program
    }

    /// The number of tokens.
    pub fn len(&self) -> (n: usize)
        ensures
            n == self@.len(),
    {
        self.tokens.len()
    }

    /// The characters of the token at `index`.
    pub fn text(&self, index: usize) -> (text: &Vec<char>)
        requires
            index < self@.len(),
        ensures
            text@ == self@[index as int].text,
    {
        &self.tokens[index].text
    }

    /// The token at `index`, as a string.
    pub fn word(&self, index: usize) -> (word: String)
        requires
            index < self@.len(),
        ensures
            word@ == self@[index as int].text,
    {
        string_of(&self.tokens[index].text)
    }

    /// Whether the token at `index` holds a decimal point, so that an
    /// instruction may ask for its floating-point reading.
    pub fn has_point(&self, index: usize) -> (r: bool)
        requires
            index < self@.len(),
        ensures
            r == self@[index as int].text.contains('.'),
    {
        contains_char(&self.tokens[index].text, '.')
    }

    /// The reading of the token at `index`, if it has one: the truncated
    /// value, and the value as it is written out.
    pub fn reading(&self, index: usize) -> (r: Option<(i32, &Vec<char>)>)
        requires
            index < self@.len(),
        ensures
            match r {
                Some((truncated, shown)) => self@[index as int].float == Some(
                    ReadingView { truncated, shown: shown@ },
                ),
                None => self@[index as int].float is None,
            },
    {
        match &self.tokens[index].float {
            Some(reading) => Some((reading.truncated, &reading.shown)),
            None => None,
        }
    }

    /// Gives the token at `index` a floating-point reading: `truncated` is
    /// the value cut off toward zero, `shown` the value as it is written out.
    pub fn set_reading(&mut self, index: usize, truncated: i32, shown: &str)
        requires
            index < old(self)@.len(),
        ensures
            final(self)@ == old(self)@.update(
                index as int,
                TokenView {
                    text: old(self)@[index as int].text,
                    float: Some(ReadingView { truncated, shown: shown@ }),
                },
            ),
    {
        let text = copy_of(&self.tokens[index].text);
        let reading = Reading { truncated, shown: chars_of(shown) };
        self.tokens.set(index, Token { text, float: Some(reading) });
        assert(self@ =~= old(self)@.update(
            index as int,
            TokenView {
                text: old(self)@[index as int].text,
                float: Some(ReadingView { truncated, shown: shown@ }),
            },
        ));
    }
}

} // verus!
