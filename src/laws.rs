//! What holds of every tokenization, stated over [`lex`] and proved.
use vstd::prelude::*;

use crate::human::{has_token, lemma_token_bounds, lex, token_after, token_end, token_start, Lexeme};
use crate::scan::{
    is_alpha, is_line_end, is_space, lemma_skip_end_shift, line_end,
    opens_comment, skip_end, word_end,
};

verus! {

/// A non-empty run of ASCII letters.
pub open spec fn is_word(w: Seq<u8>) -> bool {
    w.len() > 0 && forall|k: int| 0 <= k < w.len() ==> is_alpha(#[trigger] w[k])
}

/// Insignificant text that may stand in front of a word: the skipper passes
/// all of it and stops at the word that follows.
pub open spec fn separates(g: Seq<u8>) -> bool {
    forall|t: Seq<u8>| t.len() > 0 && is_alpha(t[0]) ==> #[trigger] skip_end(g + t, 0) == g.len()
}

/// Insignificant text that may end the input: the skipper passes all of it.
pub open spec fn trails(g: Seq<u8>) -> bool {
    skip_end(g, 0) == g.len()
}

/// `words[i] + gaps[i + 1] + words[i + 1] + ... + gaps[words.len()]`.
pub open spec fn interleave(words: Seq<Seq<u8>>, gaps: Seq<Seq<u8>>, i: int) -> Seq<u8>
    decreases words.len() - i,
{
    if 0 <= i < words.len() {
        words[i] + (gaps[i + 1] + interleave(words, gaps, i + 1))
    } else {
        seq![]
    }
}

/// The words as the lexer reports them.
pub open spec fn as_lexemes(words: Seq<Seq<u8>>) -> Seq<Lexeme> {
    words.map_values(|w: Seq<u8>| Lexeme::Word(w))
}

proof fn lemma_word_end_exact(s: Seq<u8>, i: int, j: int)
    requires
        0 <= i <= j <= s.len(),
        forall|k: int| i <= k < j ==> is_alpha(#[trigger] s[k]),
        j == s.len() || !is_alpha(s[j]),
    ensures
        word_end(s, i) == j,
    decreases j - i,
{
    if i < j {
        lemma_word_end_exact(s, i + 1, j);
    }
}

/// The skipper stops at once in front of a letter.
proof fn lemma_skip_stops_at_letter(s: Seq<u8>, i: int)
    requires
        0 <= i < s.len(),
        is_alpha(s[i]),
    ensures
        skip_end(s, i) == i,
{
}

proof fn lemma_empty_separates()
    ensures
        separates(Seq::<u8>::empty()),
{
    assert forall|t: Seq<u8>| t.len() > 0 && is_alpha(t[0]) implies #[trigger] skip_end(
        Seq::<u8>::empty() + t,
        0,
    ) == 0 by {
        assert(Seq::<u8>::empty() + t =~= t);
        lemma_skip_stops_at_letter(t, 0);
    }
}

/// Non-empty insignificant text does not begin with a letter.
proof fn lemma_gap_starts_with_no_letter(g: Seq<u8>)
    requires
        g.len() > 0,
        skip_end(g, 0) == g.len(),
    ensures
        !is_alpha(g[0]),
{
    if is_alpha(g[0]) {
        lemma_skip_stops_at_letter(g, 0);
    }
}

proof fn lemma_separates_no_letter(g: Seq<u8>)
    requires
        g.len() > 0,
        separates(g),
    ensures
        !is_alpha(g[0]),
{
    let t = seq![0x61u8];
    assert(skip_end(g + t, 0) == g.len());
    if is_alpha(g[0]) {
        assert((g + t)[0] == g[0]);
        lemma_skip_stops_at_letter(g + t, 0);
    }
}

proof fn lemma_interleave_starts_with_word(words: Seq<Seq<u8>>, gaps: Seq<Seq<u8>>, i: int)
    requires
        0 <= i < words.len(),
        is_word(words[i]),
    ensures
        interleave(words, gaps, i).len() > 0,
        is_alpha(interleave(words, gaps, i)[0]),
{
    assert(interleave(words, gaps, i)[0] == words[i][0]);
}

proof fn lemma_interleave_from(words: Seq<Seq<u8>>, gaps: Seq<Seq<u8>>, i: int, g: Seq<u8>)
    requires
        gaps.len() == words.len() + 1,
        0 <= i <= words.len(),
        forall|k: int| 0 <= k < words.len() ==> is_word(#[trigger] words[k]),
        forall|k: int| 0 < k < words.len() ==> (#[trigger] gaps[k]).len() > 0,
        forall|k: int| 0 < k < words.len() ==> separates(#[trigger] gaps[k]),
        trails(gaps[words.len() as int]),
        i < words.len() ==> separates(g),
        i == words.len() ==> trails(g),
    ensures
        lex(g + interleave(words, gaps, i)) == as_lexemes(words.skip(i)),
    decreases words.len() - i,
{
    let n = words.len() as int;
    let s = g + interleave(words, gaps, i);
    lemma_token_bounds(s);
    if i == n {
        assert(s =~= g);
        assert(as_lexemes(words.skip(i)) =~= seq![]);
    } else {
        let w = words[i];
        let q = gaps[i + 1] + interleave(words, gaps, i + 1);
        let t = interleave(words, gaps, i);
        assert(t == w + q);
        lemma_interleave_starts_with_word(words, gaps, i);
        assert(skip_end(g + t, 0) == g.len());
        assert(token_start(s) == g.len());
        assert(s[g.len() as int] == w[0]);
        assert(has_token(s));
        let end = (g.len() + w.len()) as int;
        // the word stops where the next gap begins
        if q.len() > 0 {
            if i + 1 < n {
                lemma_separates_no_letter(gaps[i + 1]);
                assert(q[0] == gaps[i + 1][0]);
            } else {
                assert(q =~= gaps[n]);
                lemma_gap_starts_with_no_letter(gaps[n]);
            }
            assert(s[end] == q[0]);
        }
        assert forall|k: int| g.len() <= k < end implies is_alpha(#[trigger] s[k]) by {
            assert(s[k] == w[k - g.len()]);
        }
        lemma_word_end_exact(s, g.len() as int, end);
        assert(token_end(s) == end);
        assert(s.skip(end) =~= q);
        lemma_skip_end_shift(s, end, 0);
        let rest = interleave(words, gaps, i + 1);
        if i + 1 < n {
            lemma_interleave_starts_with_word(words, gaps, i + 1);
            assert(skip_end(gaps[i + 1] + rest, 0) == gaps[i + 1].len());
            assert(token_after(s) == end + gaps[i + 1].len());
            assert(s.skip(token_after(s)) =~= Seq::<u8>::empty() + rest);
            lemma_empty_separates();
            lemma_interleave_from(words, gaps, i + 1, Seq::<u8>::empty());
            assert(s.subrange(token_start(s), token_end(s)) =~= w);
            assert(as_lexemes(words.skip(i)) =~= seq![Lexeme::Word(w)] + as_lexemes(
                words.skip(i + 1),
            ));
        } else {
            assert(q =~= gaps[n]);
            assert(token_after(s) == s.len());
            assert(s.subrange(token_start(s), token_end(s)) =~= w);
            assert(as_lexemes(words.skip(i)) =~= seq![Lexeme::Word(w)]);
        }
    }
}

/// Text made of runs of letters, separated by whitespace and complete
/// comments, tokenizes to one word per run, in order, each exactly as
/// written. `gaps[k]` is the text in front of `words[k]`, and the last gap
/// ends the input, where an unterminated comment may close it.
pub proof fn law_words_between_gaps(words: Seq<Seq<u8>>, gaps: Seq<Seq<u8>>)
    requires
        gaps.len() == words.len() + 1,
        forall|k: int| 0 <= k < words.len() ==> is_word(#[trigger] words[k]),
        forall|k: int| 0 <= k < words.len() ==> separates(#[trigger] gaps[k]),
        forall|k: int| 0 < k < words.len() ==> (#[trigger] gaps[k]).len() > 0,
        trails(gaps[words.len() as int]),
    ensures
        lex(gaps[0] + interleave(words, gaps, 0)) == as_lexemes(words),
{
    lemma_interleave_from(words, gaps, 0, gaps[0]);
    assert(words.skip(0) =~= words);
}

/// A comment line: `//`, text with no line terminator, and a terminator.
pub open spec fn is_comment_line(c: Seq<u8>) -> bool {
    &&& c.len() >= 3 && c[0] == 0x2f && c[1] == 0x2f && is_line_end(c[c.len() - 1])
    &&& forall|k: int| 2 <= k < c.len() - 1 ==> !is_line_end(#[trigger] c[k])
}

/// One piece of blank text: a single whitespace byte, or a comment line.
pub open spec fn is_blank_piece(p: Seq<u8>) -> bool {
    (p.len() == 1 && is_space(p[0])) || is_comment_line(p)
}

/// `pieces[i] + pieces[i + 1] + ...`.
pub open spec fn concat_pieces(pieces: Seq<Seq<u8>>, i: int) -> Seq<u8>
    decreases pieces.len() - i,
{
    if 0 <= i < pieces.len() {
        pieces[i] + concat_pieces(pieces, i + 1)
    } else {
        seq![]
    }
}

proof fn lemma_line_end_exact(s: Seq<u8>, j: int, m: int)
    requires
        0 <= j <= m < s.len(),
        forall|k: int| j <= k < m ==> !is_line_end(#[trigger] s[k]),
        is_line_end(s[m]),
    ensures
        line_end(s, j) == m,
    decreases m - j,
{
    if j < m {
        lemma_line_end_exact(s, j + 1, m);
    }
}

proof fn lemma_blank_pieces_skipped(pieces: Seq<Seq<u8>>, i: int, t: Seq<u8>)
    requires
        0 <= i <= pieces.len(),
        forall|k: int| 0 <= k < pieces.len() ==> is_blank_piece(#[trigger] pieces[k]),
        t.len() == 0 || is_alpha(t[0]),
    ensures
        skip_end(concat_pieces(pieces, i) + t, 0) == concat_pieces(pieces, i).len(),
    decreases pieces.len() - i,
{
    if i == pieces.len() {
        assert(concat_pieces(pieces, i) + t =~= t);
        if t.len() > 0 {
            lemma_skip_stops_at_letter(t, 0);
        }
    } else {
        let c = pieces[i];
        let r = concat_pieces(pieces, i + 1) + t;
        let s = concat_pieces(pieces, i) + t;
        assert(s =~= c + r);
        if c.len() == 1 && is_space(c[0]) {
            assert(s[0] == c[0]);
            assert(skip_end(s, 0) == skip_end(s, 1));
        } else {
            let m = c.len() - 1;
            assert(opens_comment(s, 0));
            assert forall|k: int| 2 <= k < m implies !is_line_end(#[trigger] s[k]) by {
                assert(s[k] == c[k]);
            }
            assert(s[m] == c[m]);
            lemma_line_end_exact(s, 2, m);
            assert(skip_end(s, 0) == skip_end(s, m));
            assert(is_space(s[m]));
            assert(skip_end(s, m) == skip_end(s, m + 1));
        }
        lemma_skip_end_shift(s, c.len() as int, 0);
        assert(s.skip(c.len() as int) =~= r);
        lemma_blank_pieces_skipped(pieces, i + 1, t);
    }
}

/// Blank text, any mix of whitespace and comment lines in any number, is
/// skipped entirely, whether a word or the end of the input follows it.
pub proof fn law_blank_text_is_skipped(pieces: Seq<Seq<u8>>, t: Seq<u8>)
    requires
        forall|k: int| 0 <= k < pieces.len() ==> is_blank_piece(#[trigger] pieces[k]),
        t.len() == 0 || is_alpha(t[0]),
    ensures
        skip_end(concat_pieces(pieces, 0) + t, 0) == concat_pieces(pieces, 0).len(),
        separates(concat_pieces(pieces, 0)),
        trails(concat_pieces(pieces, 0)),
{
    let c = concat_pieces(pieces, 0);
    lemma_blank_pieces_skipped(pieces, 0, t);
    assert forall|u: Seq<u8>| u.len() > 0 && is_alpha(u[0]) implies #[trigger] skip_end(c + u, 0)
        == c.len() by {
        lemma_blank_pieces_skipped(pieces, 0, u);
    }
    lemma_blank_pieces_skipped(pieces, 0, Seq::<u8>::empty());
    assert(c + Seq::<u8>::empty() =~= c);
}

/// Between two words, any non-empty blank text, whitespace and comment
/// lines in any number and order, is skipped entirely: the text tokenizes
/// to the two words.
pub proof fn law_blank_between_words(a: Seq<u8>, pieces: Seq<Seq<u8>>, b: Seq<u8>)
    requires
        is_word(a),
        is_word(b),
        forall|k: int| 0 <= k < pieces.len() ==> is_blank_piece(#[trigger] pieces[k]),
        pieces.len() > 0,
    ensures
        lex(a + concat_pieces(pieces, 0) + b) == seq![Lexeme::Word(a), Lexeme::Word(b)],
{
    let e = Seq::<u8>::empty();
    let g = concat_pieces(pieces, 0);
    assert(g.len() >= pieces[0].len());
    law_blank_text_is_skipped(pieces, e);
    lemma_empty_separates();
    let words = seq![a, b];
    let gaps = seq![e, g, e];
    assert(interleave(words, gaps, 2) =~= e);
    assert(interleave(words, gaps, 1) =~= b + (e + e));
    assert(gaps[0] + interleave(words, gaps, 0) =~= a + g + b);
    law_words_between_gaps(words, gaps);
    assert(as_lexemes(words) =~= seq![Lexeme::Word(a), Lexeme::Word(b)]);
}

/// What separates the words does not matter: two texts with the same runs
/// of letters, each separated by any well-formed whitespace and comments
/// (a space or a comment line, say), tokenize alike.
pub proof fn law_separators_interchangeable(
    words: Seq<Seq<u8>>,
    gaps1: Seq<Seq<u8>>,
    gaps2: Seq<Seq<u8>>,
)
    requires
        gaps1.len() == words.len() + 1,
        gaps2.len() == words.len() + 1,
        forall|k: int| 0 <= k < words.len() ==> is_word(#[trigger] words[k]),
        forall|k: int| 0 <= k < words.len() ==> separates(#[trigger] gaps1[k]),
        forall|k: int| 0 <= k < words.len() ==> separates(#[trigger] gaps2[k]),
        forall|k: int| 0 < k < words.len() ==> (#[trigger] gaps1[k]).len() > 0,
        forall|k: int| 0 < k < words.len() ==> (#[trigger] gaps2[k]).len() > 0,
        trails(gaps1[words.len() as int]),
        trails(gaps2[words.len() as int]),
    ensures
        lex(gaps1[0] + interleave(words, gaps1, 0)) == lex(gaps2[0] + interleave(words, gaps2, 0)),
{
    law_words_between_gaps(words, gaps1);
    law_words_between_gaps(words, gaps2);
}

/// Where the text after the leading skip begins with something that has the
/// shape of no token, tokenizing yields one error, for the text from that
/// position on, and nothing else.
pub proof fn law_unexpected_character_ends(s: Seq<u8>)
    requires
        token_start(s) < s.len(),
        !is_alpha(s[token_start(s)]),
    ensures
        lex(s) == seq![Lexeme::Unexpected(s.skip(token_start(s)))],
{
}

/// An error is always the last item of a tokenization.
pub proof fn law_error_is_last(s: Seq<u8>)
    ensures
        forall|i: int| 0 <= i < lex(s).len() - 1 ==> #[trigger] lex(s)[i] is Word,
    decreases s.len(),
{
    lemma_token_bounds(s);
    if has_token(s) && token_after(s) < s.len() {
        let rest = s.skip(token_after(s));
        law_error_is_last(rest);
        let w = Lexeme::Word(s.subrange(token_start(s), token_end(s)));
        assert forall|i: int| 0 <= i < lex(s).len() - 1 implies #[trigger] lex(s)[i] is Word by {
            if i > 0 {
                assert(lex(s)[i] == lex(rest)[i - 1]);
            }
        }
    }
}

} // verus!
