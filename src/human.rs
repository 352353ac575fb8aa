//! The lexer for text typed by a person: a skipper for whitespace and `//`
//! comments, the grammar of a single token, the wrapper that trims a token
//! of the insignificant text around it, and the pull-based tokenizer.
use vstd::prelude::*;

use crate::scan::{
    alpha_run_end, is_alpha, is_alpha_byte, lemma_skip_end_bounds, lemma_skip_end_shift,
    lemma_skip_end_split, lemma_word_end_bounds, lemma_word_end_shift, lemma_word_end_split,
    skip_end, skip_insignificant, split_point, word_end,
};
use crate::view::{Located, TextView};
use crate::vm::Token;

verus! {

/// Why tokenizing stopped with an error.
#[derive(Clone, Copy, Debug, PartialEq, Eq)]
pub enum ErrorKind {
    /// The text at the cursor has the shape of no token.
    UnexpectedCharacter,
    /// A token was begun but the text ended before it was complete.
    EndOfInput,
}

/// A construct that the lexer expects to find.
#[derive(Clone, Copy, Debug, PartialEq, Eq)]
pub enum Construct {
    /// An ASCII letter.
    Alphabetic,
    /// Any token.
    Token,
}

pub open spec fn description_of(c: Construct) -> Seq<char> {
    match c {
        Construct::Alphabetic => "alphabetic character"@,
        Construct::Token => "token"@,
    }
}

impl Construct {
    /// The construct in words, as it follows "expected".
    pub fn description(&self) -> (r: &'static str)
        ensures
            r@ == description_of(*self),
    {
        match self {
            Construct::Alphabetic => "alphabetic character",
            Construct::Token => "token",
        }
    }
}

/// A failure to read a token: where it happened, what was expected there,
/// and the chain of enclosing constructs, innermost first.
#[derive(Clone, Debug, PartialEq, Eq)]
pub struct LexError<V> {
    pub kind: ErrorKind,
    /// The text from the failing position to the end of the input.
    pub input: V,
    pub expected: Construct,
    pub context: Vec<Construct>,
}

impl<V> LexError<V> {
    pub fn new(kind: ErrorKind, input: V, expected: Construct) -> (r: LexError<V>)
        ensures
            r.kind == kind,
            r.input == input,
            r.expected == expected,
            r.context@ == Seq::<Construct>::empty(),
    {
        LexError { kind, input, expected, context: Vec::new() }
    }

    /// Records that the failure happened while reading `outer`.
    pub fn append(self, outer: Construct) -> (r: LexError<V>)
        ensures
            r.kind == self.kind,
            r.input == self.input,
            r.expected == self.expected,
            r.context@ == self.context@.push(outer),
    {
        let mut r = self;
        r.context.push(outer);
        r
    }
}

impl<'a> LexError<Located<'a>> {
    /// The byte offset, in the whole buffer, of the failing position.
    pub fn start(&self) -> (r: usize)
        ensures
            r == self.input@.offset,
    {
        self.input.location_offset()
    }

    /// The byte offset, in the whole buffer, of the end of the failing text.
    pub fn end(&self) -> (r: usize)
        requires
            self.input.wf(),
        ensures
            r == self.input@.offset + self.input@.text.len(),
    {
        self.input.location_offset() + self.input.fragment().as_bytes().len()
    }
}

/// Passes the whitespace and comments at the front of `input`.
pub fn ws_or_eol<'a, V: TextView<'a>>(input: V) -> (r: V)
    requires
        input.wf(),
    ensures
        r.wf(),
        r.text() == input.text().skip(skip_end(input.text(), 0)),
        input.is_slice(skip_end(input.text(), 0), input.text().len() as int, r),
{
    let bytes = input.fragment().as_bytes();
    let start = skip_insignificant(bytes, 0);
    proof {
        lemma_skip_end_bounds(bytes@, 0);
        lemma_skip_end_split(bytes@, 0);
    }
    input.slice(start, bytes.len())
}

/// The word at the very front of `input`: its longest run of letters.
pub fn word<'a, V: TextView<'a>>(input: V) -> (r: Result<(V, Token<V>), LexError<V>>)
    requires
        input.wf(),
    ensures
        r is Ok <==> input.text().len() > 0 && is_alpha(input.text()[0]),
        r matches Ok((rest, Token::Word(w))) ==> {
            let s = input.text();
            let end = word_end(s, 0);
            &&& w.wf() && w.text() == s.take(end) && input.is_slice(0, end, w)
            &&& rest.wf() && rest.text() == s.skip(end) && input.is_slice(end, s.len() as int, rest)
        },
        r matches Err(e) ==> {
            &&& e.kind == ErrorKind::UnexpectedCharacter
            &&& e.expected == Construct::Alphabetic
            &&& e.context@ == Seq::<Construct>::empty()
            &&& e.input.wf() && e.input.text() == input.text()
            &&& input.is_slice(0, input.text().len() as int, e.input)
        },
{
    let bytes = input.fragment().as_bytes();
    let len = bytes.len();
    proof {
        assert(bytes@.skip(0) =~= bytes@);
    }
    if len > 0 && is_alpha_byte(bytes[0]) {
        let end = alpha_run_end(bytes, 0);
        proof {
            lemma_word_end_bounds(bytes@, 0);
            lemma_word_end_split(bytes@, 0);
        }
        let w = input.slice(0, end);
        let rest = input.slice(end, len);
        Ok((rest, Token::Word(w)))
    } else {
        Err(LexError::new(ErrorKind::UnexpectedCharacter, input.slice(0, len), Construct::Alphabetic))
    }
}

/// One token at the very front of `input`. Words are the only tokens so
/// far, so a failure is the word's own failure, passed on unchanged.
pub fn token<'a, V: TextView<'a>>(input: V) -> (r: Result<(V, Token<V>), LexError<V>>)
    requires
        input.wf(),
    ensures
        r is Ok <==> input.text().len() > 0 && is_alpha(input.text()[0]),
        r matches Ok((rest, Token::Word(w))) ==> {
            let s = input.text();
            let end = word_end(s, 0);
            &&& w.wf() && w.text() == s.take(end) && input.is_slice(0, end, w)
            &&& rest.wf() && rest.text() == s.skip(end) && input.is_slice(end, s.len() as int, rest)
        },
        r matches Err(e) ==> {
            &&& e.kind == ErrorKind::UnexpectedCharacter
            &&& e.expected == Construct::Alphabetic
            &&& e.context@ == Seq::<Construct>::empty()
            &&& e.input.wf() && e.input.text() == input.text()
            &&& input.is_slice(0, input.text().len() as int, e.input)
        },
{
    word(input)
}

/// Where the wrapper finds the token in `s`: after the leading skip.
pub open spec fn token_start(s: Seq<u8>) -> int {
    skip_end(s, 0)
}

/// Where the token found by the wrapper in `s` ends.
pub open spec fn token_end(s: Seq<u8>) -> int {
    word_end(s, token_start(s))
}

/// Where the wrapper leaves `s`: after the token and the skip behind it.
pub open spec fn token_after(s: Seq<u8>) -> int {
    skip_end(s, token_end(s))
}

/// `s` holds a token after its leading whitespace and comments.
pub open spec fn has_token(s: Seq<u8>) -> bool {
    token_start(s) < s.len() && is_alpha(s[token_start(s)])
}

pub proof fn lemma_token_bounds(s: Seq<u8>)
    ensures
        0 <= token_start(s) <= s.len(),
        split_point(s, token_start(s)),
        has_token(s) ==> token_start(s) < token_end(s) <= token_after(s) <= s.len(),
        has_token(s) ==> split_point(s, token_end(s)) && split_point(s, token_after(s)),
{
    lemma_skip_end_bounds(s, 0);
    lemma_skip_end_split(s, 0);
    if has_token(s) {
        lemma_word_end_bounds(s, token_start(s));
        lemma_word_end_split(s, token_start(s));
        lemma_skip_end_bounds(s, token_end(s));
        lemma_skip_end_split(s, token_end(s));
    }
}

/// Skips, reads one token, and skips again. A failure is reported at the
/// position after the leading skip.
pub fn ws<'a, V: TextView<'a>>(input: V) -> (r: Result<(V, Token<V>), LexError<V>>)
    requires
        input.wf(),
    ensures
        r is Ok <==> has_token(input.text()),
        r matches Ok((rest, Token::Word(w))) ==> {
            let s = input.text();
            &&& w.wf() && w.text() == s.subrange(token_start(s), token_end(s))
            &&& input.is_slice(token_start(s), token_end(s), w)
            &&& rest.wf() && rest.text() == s.skip(token_after(s))
            &&& input.is_slice(token_after(s), s.len() as int, rest)
        },
        r matches Err(e) ==> {
            let s = input.text();
            &&& e.kind == ErrorKind::UnexpectedCharacter
            &&& e.expected == Construct::Alphabetic
            &&& e.context@ == Seq::<Construct>::empty()
            &&& e.input.wf() && e.input.text() == s.skip(token_start(s))
            &&& input.is_slice(token_start(s), s.len() as int, e.input)
        },
{
    let ghost s = input.text();
    proof {
        lemma_token_bounds(s);
    }
    let at = ws_or_eol(input);
    let ghost start = token_start(s);
    match token(at) {
        Ok((rest, tok)) => {
            let ghost end1 = word_end(at.text(), 0);
            proof {
                lemma_word_end_shift(s, start, 0);
                lemma_word_end_bounds(at.text(), 0);
                input.lemma_slice_of_slice(start, s.len() as int, at, 0, end1, tok->Word_0);
                input.lemma_slice_of_slice(start, s.len() as int, at, end1, at.text().len() as int, rest);
                assert(rest.text() =~= s.skip(token_end(s)));
            }
            let after = ws_or_eol(rest);
            proof {
                let k = skip_end(rest.text(), 0);
                lemma_skip_end_shift(s, token_end(s), 0);
                lemma_skip_end_bounds(rest.text(), 0);
                input.lemma_slice_of_slice(token_end(s), s.len() as int, rest, k, rest.text().len() as int, after);
                assert(after.text() =~= s.skip(token_after(s)));
                assert(tok->Word_0.text() =~= s.subrange(start, token_end(s)));
            }
            Ok((after, tok))
        },
        Err(e) => {
            proof {
                input.lemma_slice_of_slice(start, s.len() as int, at, 0, at.text().len() as int, e.input);
            }
            Err(e)
        },
    }
}

/// One item of a tokenization, as text: a word, or the failure to read one
/// with the text from the failing position to the end.
pub ghost enum Lexeme {
    Word(Seq<u8>),
    Unexpected(Seq<u8>),
}

/// The items that tokenizing `s` yields, in order. A word is followed by
/// the items of the text after it; text with no token shape ends the
/// sequence with an error; text that holds nothing but whitespace and
/// comments ends it quietly.
pub open spec fn lex(s: Seq<u8>) -> Seq<Lexeme>
    decreases s.len(),
{
    proof {
        lemma_token_bounds(s);
    }
    if has_token(s) {
        let w = Lexeme::Word(s.subrange(token_start(s), token_end(s)));
        if token_after(s) < s.len() {
            seq![w] + lex(s.skip(token_after(s)))
        } else {
            seq![w]
        }
    } else if token_start(s) < s.len() {
        seq![Lexeme::Unexpected(s.skip(token_start(s)))]
    } else {
        seq![]
    }
}

/// `item` is what the tokenizer hands out for `l`.
pub open spec fn yields<'a, V: TextView<'a>>(item: Result<Token<V>, LexError<V>>, l: Lexeme) -> bool {
    match l {
        Lexeme::Word(t) => item matches Ok(Token::Word(w)) && w.wf() && w.text() == t,
        Lexeme::Unexpected(t) => item matches Err(e) && {
            &&& e.kind == ErrorKind::UnexpectedCharacter
            &&& e.expected == Construct::Alphabetic
            &&& e.context@ == Seq::<Construct>::empty()
            &&& e.input.wf() && e.input.text() == t
        },
    }
}

/// A pull-based lexer over a view: each call of [`Tokenizer::next`] yields
/// the next token, or the error that ends the pass.
pub struct Tokenizer<V> {
    input: V,
    done: bool,
}

impl<'a, V: TextView<'a>> Tokenizer<V> {
    /// The text not yet tokenized.
    pub closed spec fn rest(&self) -> V {
        self.input
    }

    /// The items still to come.
    pub closed spec fn pending(&self) -> Seq<Lexeme> {
        if self.done {
            seq![]
        } else {
            lex(self.input.text())
        }
    }

    pub closed spec fn wf(&self) -> bool {
        self.input.wf()
    }

    /// Pulls the next item. Once the pass has ended, yields nothing more.
    ///
    /// Where no token follows the leading skip, the pass ends. It ends
    /// quietly when nothing at all is left, that is when the rest of the
    /// text was whitespace and comments only (a trailing comment included);
    /// it ends with an `UnexpectedCharacter` error when some character is
    /// left, however the text before it was skipped. A token rule that runs
    /// out of text half way would end the pass with `EndOfInput`; a word
    /// never does.
    pub fn next(&mut self) -> (r: Option<Result<Token<V>, LexError<V>>>)
        requires
            old(self).wf(),
        ensures
            final(self).wf(),
            old(self).pending().len() == 0 ==> r is None && final(self).pending().len() == 0,
            old(self).pending().len() > 0 ==> {
                &&& r matches Some(item) && yields(item, old(self).pending()[0])
                &&& final(self).pending() == old(self).pending().drop_first()
            },
            exists|k: int|
                0 <= k <= old(self).rest().text().len() && old(self).rest().is_slice(
                    k,
                    old(self).rest().text().len() as int,
                    final(self).rest(),
                ),
            ({
                let v = old(self).rest();
                let s = v.text();
                &&& r matches Some(Ok(Token::Word(w))) ==> v.is_slice(token_start(s), token_end(s), w)
                &&& r matches Some(Err(e)) ==> v.is_slice(token_start(s), s.len() as int, e.input)
                &&& final(self).pending().len() > 0 ==> v.is_slice(
                    token_after(s),
                    s.len() as int,
                    final(self).rest(),
                )
            }),
    {
        let ghost s = self.input.text();
        proof {
            lemma_token_bounds(s);
            self.input.lemma_slice_whole();
            assert(self.rest().is_slice(0, s.len() as int, self.rest()));
        }
        if self.done {
            return None;
        }
        match ws(self.input) {
            Ok((remaining, tok)) => {
                self.done = remaining.fragment().as_bytes().len() == 0;
                self.input = remaining;
                proof {
                    assert(old(self).rest().is_slice(token_after(s), s.len() as int, self.rest()));
                }
                Some(Ok(tok))
            },
            Err(e) => {
                self.done = true;
                proof {
                    assert(old(self).rest().is_slice(0, s.len() as int, self.rest()));
                }
                match e.kind {
                    ErrorKind::EndOfInput => {
                        Some(Err(LexError::new(ErrorKind::EndOfInput, self.input, Construct::Token)))
                    },
                    ErrorKind::UnexpectedCharacter => {
                        if e.input.fragment().as_bytes().len() == 0 {
                            None
                        } else {
                            Some(Err(e))
                        }
                    },
                }
            },
        }
    }

    /// Pulls every remaining item, in order.
    pub fn collect(self) -> (r: Vec<Result<Token<V>, LexError<V>>>)
        requires
            self.wf(),
        ensures
            r@.len() == self.pending().len(),
            forall|i: int| 0 <= i < r@.len() ==> yields(#[trigger] r@[i], self.pending()[i]),
    {
        let ghost all = self.pending();
        let mut t = self;
        let mut out: Vec<Result<Token<V>, LexError<V>>> = Vec::new();
        loop
            invariant
                t.wf(),
                all == self.pending(),
                out@.len() + t.pending().len() == all.len(),
                t.pending() == all.skip(out@.len() as int),
                forall|i: int| 0 <= i < out@.len() ==> yields(#[trigger] out@[i], all[i]),
            decreases t.pending().len(),
        {
            match t.next() {
                Some(item) => {
                    proof {
                        assert(all.skip(out@.len() as int).drop_first() =~= all.skip(out@.len() + 1 as int));
                    }
                    out.push(item);
                },
                None => {
                    return out;
                },
            }
        }
    }
}

/// A tokenizer over the whole of `input`.
pub fn tokenize<'a, V: TextView<'a>>(input: V) -> (r: Tokenizer<V>)
    requires
        input.wf(),
    ensures
        r.wf(),
        r.rest() == input,
        r.pending() == lex(input.text()),
{
    Tokenizer { input, done: false }
}

} // verus!
