//! Byte-level recognisers for the insignificant text between tokens and for
//! the shape of a word.
//!
//! Every recogniser here only ever stops in front of an ASCII byte or at the
//! end of its input, so each position it returns is a character boundary of
//! the UTF-8 text the bytes come from.
use vstd::prelude::*;

verus! {

/// A place where a text may be cut without splitting a character: either
/// end, or next to an ASCII byte.
pub open spec fn split_point(s: Seq<u8>, i: int) -> bool {
    &&& 0 <= i <= s.len()
    &&& i == 0 || i == s.len() || s[i] < 0x80 || s[i - 1] < 0x80
}

/// An ASCII letter.
pub open spec fn is_alpha(b: u8) -> bool {
    (0x41 <= b && b <= 0x5a) || (0x61 <= b && b <= 0x7a)
}

/// A space, a tab, a line feed or a carriage return.
pub open spec fn is_space(b: u8) -> bool {
    b == 0x20 || b == 0x09 || b == 0x0a || b == 0x0d
}

/// A byte that ends a line comment.
pub open spec fn is_line_end(b: u8) -> bool {
    b == 0x0a || b == 0x0d
}

/// `s` holds a `//` marker at `i`.
pub open spec fn opens_comment(s: Seq<u8>, i: int) -> bool {
    0 <= i && i + 1 < s.len() && s[i] == 0x2f && s[i + 1] == 0x2f
}

/// The first position at or after `j` that holds a line terminator, or the end of `s`.
pub open spec fn line_end(s: Seq<u8>, j: int) -> int
    decreases s.len() - j,
{
    if 0 <= j < s.len() && !is_line_end(s[j]) {
        line_end(s, j + 1)
    } else {
        j
    }
}

/// The end of the longest run of letters that starts at `i`.
pub open spec fn word_end(s: Seq<u8>, i: int) -> int
    decreases s.len() - i,
{
    if 0 <= i < s.len() && is_alpha(s[i]) {
        word_end(s, i + 1)
    } else {
        i
    }
}

/// Where the skipper stops when it starts at `i`: it passes any mixture of
/// whitespace bytes and comments, a comment being `//` and everything up to,
/// not including, the next line terminator. The text of a comment may be
/// empty: `//` right before a terminator or the end is a comment too.
pub open spec fn skip_end(s: Seq<u8>, i: int) -> int
    decreases s.len() - i,
{
    if 0 <= i < s.len() && is_space(s[i]) {
        skip_end(s, i + 1)
    } else if opens_comment(s, i) {
        proof {
            lemma_line_end_bounds(s, i + 2);
        }
        skip_end(s, line_end(s, i + 2))
    } else {
        i
    }
}

pub proof fn lemma_line_end_bounds(s: Seq<u8>, j: int)
    requires
        0 <= j <= s.len(),
    ensures
        j <= line_end(s, j) <= s.len(),
        line_end(s, j) < s.len() ==> is_line_end(s[line_end(s, j)]),
        forall|k: int| j <= k < line_end(s, j) ==> !is_line_end(#[trigger] s[k]),
    decreases s.len() - j,
{
    if j < s.len() && !is_line_end(s[j]) {
        lemma_line_end_bounds(s, j + 1);
    }
}

pub proof fn lemma_word_end_bounds(s: Seq<u8>, i: int)
    requires
        0 <= i <= s.len(),
    ensures
        i <= word_end(s, i) <= s.len(),
        word_end(s, i) < s.len() ==> !is_alpha(s[word_end(s, i)]),
        forall|k: int| i <= k < word_end(s, i) ==> is_alpha(#[trigger] s[k]),
    decreases s.len() - i,
{
    if i < s.len() && is_alpha(s[i]) {
        lemma_word_end_bounds(s, i + 1);
    }
}

pub proof fn lemma_skip_end_bounds(s: Seq<u8>, i: int)
    requires
        0 <= i <= s.len(),
    ensures
        i <= skip_end(s, i) <= s.len(),
        skip_end(s, i) < s.len() ==> !is_space(s[skip_end(s, i)]) && !opens_comment(
            s,
            skip_end(s, i),
        ),
    decreases s.len() - i,
{
    if i < s.len() && is_space(s[i]) {
        lemma_skip_end_bounds(s, i + 1);
    } else if opens_comment(s, i) {
        lemma_line_end_bounds(s, i + 2);
        lemma_skip_end_bounds(s, line_end(s, i + 2));
    }
}

const SLASH: u8 = 0x2f;

pub fn is_alpha_byte(b: u8) -> (r: bool)
    ensures
        r == is_alpha(b),
{
    (0x41 <= b && b <= 0x5a) || (0x61 <= b && b <= 0x7a)
}

pub fn is_space_byte(b: u8) -> (r: bool)
    ensures
        r == is_space(b),
{
    b == 0x20 || b == 0x09 || b == 0x0a || b == 0x0d
}

fn is_line_end_byte(b: u8) -> (r: bool)
    ensures
        r == is_line_end(b),
{
    b == 0x0a || b == 0x0d
}

/// The skipper stops at a split point.
pub proof fn lemma_skip_end_split(s: Seq<u8>, i: int)
    requires
        split_point(s, i),
    ensures
        split_point(s, skip_end(s, i)),
    decreases s.len() - i,
{
    if i < s.len() && is_space(s[i]) {
        lemma_skip_end_split(s, i + 1);
    } else if opens_comment(s, i) {
        lemma_line_end_bounds(s, i + 2);
        lemma_skip_end_split(s, line_end(s, i + 2));
    }
}

/// A run of letters ends at a split point.
pub proof fn lemma_word_end_split(s: Seq<u8>, i: int)
    requires
        split_point(s, i),
    ensures
        split_point(s, word_end(s, i)),
    decreases s.len() - i,
{
    if i < s.len() && is_alpha(s[i]) {
        lemma_word_end_split(s, i + 1);
    }
}

/// Where a comment ends does not depend on the bytes in front of the start.
pub proof fn lemma_line_end_shift(s: Seq<u8>, k: int, j: int)
    requires
        0 <= k <= s.len(),
        0 <= j <= s.len() - k,
    ensures
        line_end(s.skip(k), j) + k == line_end(s, j + k),
    decreases s.len() - k - j,
{
    if j < s.len() - k && !is_line_end(s[j + k]) {
        lemma_line_end_shift(s, k, j + 1);
    }
}

/// Where a run of letters ends does not depend on the bytes in front of the start.
pub proof fn lemma_word_end_shift(s: Seq<u8>, k: int, i: int)
    requires
        0 <= k <= s.len(),
        0 <= i <= s.len() - k,
    ensures
        word_end(s.skip(k), i) + k == word_end(s, i + k),
    decreases s.len() - k - i,
{
    if i < s.len() - k && is_alpha(s[i + k]) {
        lemma_word_end_shift(s, k, i + 1);
    }
}

/// Where the skipper stops does not depend on the bytes in front of the start.
pub proof fn lemma_skip_end_shift(s: Seq<u8>, k: int, i: int)
    requires
        0 <= k <= s.len(),
        0 <= i <= s.len() - k,
    ensures
        skip_end(s.skip(k), i) + k == skip_end(s, i + k),
    decreases s.len() - k - i,
{
    let t = s.skip(k);
    if i < t.len() && is_space(t[i]) {
        lemma_skip_end_shift(s, k, i + 1);
    } else if opens_comment(t, i) {
        assert(opens_comment(s, i + k));
        lemma_line_end_shift(s, k, i + 2);
        lemma_line_end_bounds(t, i + 2);
        lemma_skip_end_shift(s, k, line_end(t, i + 2));
    } else {
        assert(!opens_comment(s, i + k));
    }
}

/// Recognises a comment at `i`: `None` where `s` holds no `//` there, else
/// the position of the line terminator that ends it, or the end of `s`.
pub fn eol_comment(s: &[u8], i: usize) -> (r: Option<usize>)
    requires
        i <= s@.len(),
    ensures
        opens_comment(s@, i as int) ==> r == Some(line_end(s@, i + 2) as usize),
        !opens_comment(s@, i as int) ==> r is None,
{
    if s.len() - i >= 2 && s[i] == SLASH && s[i + 1] == SLASH {
        let mut j: usize = i + 2;
        while j < s.len() && !is_line_end_byte(s[j])
            invariant
                i + 2 <= j <= s@.len(),
                line_end(s@, j as int) == line_end(s@, i + 2),
            decreases s@.len() - j,
        {
            j = j + 1;
        }
        Some(j)
    } else {
        None
    }
}

/// Passes whitespace and comments from `i` on and returns where they stop.
pub fn skip_insignificant(s: &[u8], i: usize) -> (r: usize)
    requires
        i <= s@.len(),
    ensures
        r == skip_end(s@, i as int),
{
    let mut j: usize = i;
    loop
        invariant
            i <= j <= s@.len(),
            skip_end(s@, j as int) == skip_end(s@, i as int),
        decreases s@.len() - j,
    {
        if j < s.len() && is_space_byte(s[j]) {
            j = j + 1;
        } else {
            match eol_comment(s, j) {
                Some(k) => {
                    proof {
                        lemma_line_end_bounds(s@, j + 2);
                    }
                    j = k;
                },
                None => {
                    return j;
                },
            }
        }
    }
}

/// The end of the run of letters that starts at `i`.
pub fn alpha_run_end(s: &[u8], i: usize) -> (r: usize)
    requires
        i <= s@.len(),
    ensures
        r == word_end(s@, i as int),
{
    let mut j: usize = i;
    while j < s.len() && is_alpha_byte(s[j])
        invariant
            i <= j <= s@.len(),
            word_end(s@, j as int) == word_end(s@, i as int),
        decreases s@.len() - j,
    {
        j = j + 1;
    }
    j
}

} // verus!
