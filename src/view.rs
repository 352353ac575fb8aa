//! Views of a text buffer: a contiguous piece of it, with or without the
//! piece's position in the whole buffer.
//!
//! The lexer is written once over [`TextView`]; a plain `&str` and a
//! [`Located`] piece make the same decisions on the same text and differ
//! only in the position they carry.
use vstd::prelude::*;
use vstd::string::*;
use vstd::utf8::*;

use crate::scan::split_point;

verus! {

/// What the lexer needs of a view of text.
pub trait TextView<'a>: Sized + Copy {
    /// The UTF-8 bytes that the view covers.
    spec fn text(&self) -> Seq<u8>;

    /// The view is consistent: its position metadata fits the text it covers.
    spec fn wf(&self) -> bool;

    /// `part` covers the bytes `start..end` of this view, and carries the
    /// position of that range.
    spec fn is_slice(&self, start: int, end: int, part: Self) -> bool;

    /// The text the view covers.
    fn fragment(&self) -> (r: &'a str)
        requires
            self.wf(),
        ensures
            r.spec_bytes() == self.text(),
    ;

    /// The view of the bytes `start..end` of this one.
    fn slice(&self, start: usize, end: usize) -> (r: Self)
        requires
            self.wf(),
            start <= end,
            split_point(self.text(), start as int),
            split_point(self.text(), end as int),
        ensures
            r.wf(),
            r.text() == self.text().subrange(start as int, end as int),
            self.is_slice(start as int, end as int, r),
    ;

    /// A view is the slice of itself that covers all of it.
    proof fn lemma_slice_whole(&self)
        requires
            self.wf(),
        ensures
            self.is_slice(0, self.text().len() as int, *self),
    ;

    /// A slice of a slice is a slice of the whole.
    proof fn lemma_slice_of_slice(&self, a: int, b: int, mid: Self, c: int, d: int, part: Self)
        requires
            self.wf(),
            0 <= a <= b <= self.text().len(),
            self.is_slice(a, b, mid),
            0 <= c <= d <= b - a,
            mid.is_slice(c, d, part),
        ensures
            self.is_slice(a + c, a + d, part),
    ;
}

/// A cut at a split point of a `str` falls on a character boundary.
proof fn lemma_split_point_is_boundary(s: &str, i: int)
    requires
        split_point(s.spec_bytes(), i),
    ensures
        is_char_boundary(s.spec_bytes(), i),
{
    let b = s.spec_bytes();
    encode_utf8_valid_utf8(s@);
    is_char_boundary_start_end_of_seq(b);
    if 0 < i < b.len() {
        if b[i] < 0x80 {
            is_char_boundary_iff_is_leading_byte(b, i);
        } else {
            // the byte before the cut is ASCII, so a character starts at the cut
            is_char_boundary_iff_is_leading_byte(b, i - 1);
            valid_utf8_split(b, i - 1);
            let t = b.subrange(i - 1, b.len() as int);
            reveal_with_fuel(is_char_boundary, 2);
            assert(is_char_boundary(t, 1));
            is_char_boundary_iff_not_is_continuation_byte(t, 1);
            is_char_boundary_iff_not_is_continuation_byte(b, i);
        }
    }
}

/// The bytes `start..end` of `s`.
fn str_slice<'a>(s: &'a str, start: usize, end: usize) -> (r: &'a str)
    requires
        start <= end,
        split_point(s.spec_bytes(), start as int),
        split_point(s.spec_bytes(), end as int),
    ensures
        r.spec_bytes() == s.spec_bytes().subrange(start as int, end as int),
{
    proof {
        lemma_split_point_is_boundary(s, start as int);
    }
    let (_, tail) = s.split_at(start);
    proof {
        assert(tail.spec_bytes() =~= s.spec_bytes().subrange(start as int, s.spec_bytes().len() as int));
        lemma_split_point_is_boundary(tail, end - start);
    }
    let (mid, _) = tail.split_at(end - start);
    proof {
        assert(mid.spec_bytes() =~= s.spec_bytes().subrange(start as int, end as int));
    }
    mid
}

/// A plain slice: the text alone, with no position.
impl<'a> TextView<'a> for &'a str {
    open spec fn text(&self) -> Seq<u8> {
        self.spec_bytes()
    }

    open spec fn wf(&self) -> bool {
        true
    }

    open spec fn is_slice(&self, start: int, end: int, part: Self) -> bool {
        part.spec_bytes() == self.spec_bytes().subrange(start, end)
    }

    fn fragment(&self) -> (r: &'a str) {
        *self
    }

    fn slice(&self, start: usize, end: usize) -> (r: Self) {
        str_slice(*self, start, end)
    }

    proof fn lemma_slice_whole(&self) {
        assert(self.spec_bytes().subrange(0, self.spec_bytes().len() as int) =~= self.spec_bytes());
    }

    proof fn lemma_slice_of_slice(&self, a: int, b: int, mid: Self, c: int, d: int, part: Self) {
        assert(part.spec_bytes() =~= self.spec_bytes().subrange(a + c, a + d));
    }
}

/// The number of line feeds in `s`.
pub open spec fn newlines(s: Seq<u8>) -> nat
    decreases s.len(),
{
    if s.len() == 0 {
        0
    } else {
        newlines(s.drop_last()) + if s.last() == 0x0a {
            1nat
        } else {
            0nat
        }
    }
}

pub proof fn lemma_newlines_le_len(s: Seq<u8>)
    ensures
        newlines(s) <= s.len(),
    decreases s.len(),
{
    if s.len() > 0 {
        lemma_newlines_le_len(s.drop_last());
    }
}

pub proof fn lemma_newlines_concat(a: Seq<u8>, b: Seq<u8>)
    ensures
        newlines(a + b) == newlines(a) + newlines(b),
    decreases b.len(),
{
    if b.len() > 0 {
        assert((a + b).drop_last() =~= a + b.drop_last());
        lemma_newlines_concat(a, b.drop_last());
    } else {
        assert(a + b =~= a);
    }
}

/// What a [`Located`] view stands for: its text, the byte offset of that
/// text in the whole buffer, and the line (counted from 1) on which it starts.
pub ghost struct LocatedModel {
    pub text: Seq<u8>,
    pub offset: int,
    pub line: int,
}

/// A piece of a buffer that knows where it lies in the whole buffer.
#[derive(Clone, Copy, Debug, PartialEq, Eq)]
pub struct Located<'a> {
    fragment: &'a str,
    offset: usize,
    line: usize,
}

impl<'a> View for Located<'a> {
    type V = LocatedModel;

    closed spec fn view(&self) -> LocatedModel {
        LocatedModel { text: self.fragment.spec_bytes(), offset: self.offset as int, line: self.line as int }
    }
}

impl<'a> Located<'a> {
    /// The view of a whole buffer: offset 0, on line 1.
    pub fn new(buffer: &'a str) -> (r: Located<'a>)
        requires
            buffer.spec_bytes().len() < usize::MAX,
        ensures
            r.wf(),
            r@ == (LocatedModel { text: buffer.spec_bytes(), offset: 0, line: 1 }),
    {
        Located { fragment: buffer, offset: 0, line: 1 }
    }

    /// The byte offset of the view in the whole buffer.
    pub fn location_offset(&self) -> (r: usize)
        ensures
            r == self@.offset,
    {
        self.offset
    }

    /// The line, counted from 1, on which the view starts.
    pub fn location_line(&self) -> (r: usize)
        ensures
            r == self@.line,
    {
        self.line
    }
}

impl<'a> TextView<'a> for Located<'a> {
    open spec fn text(&self) -> Seq<u8> {
        self@.text
    }

    open spec fn wf(&self) -> bool {
        &&& 0 <= self@.offset
        &&& self@.offset + self@.text.len() < usize::MAX
        &&& 1 <= self@.line <= self@.offset + 1
    }

    open spec fn is_slice(&self, start: int, end: int, part: Self) -> bool {
        &&& part@.text == self@.text.subrange(start, end)
        &&& part@.offset == self@.offset + start
        &&& part@.line == self@.line + newlines(self@.text.take(start))
    }

    fn fragment(&self) -> (r: &'a str) {
        self.fragment
    }

    fn slice(&self, start: usize, end: usize) -> (r: Self) {
        let bytes = self.fragment.as_bytes();
        let mut count: usize = 0;
        let mut i: usize = 0;
        while i < start
            invariant
                i <= start <= bytes@.len(),
                bytes@ == self@.text,
                count == newlines(bytes@.take(i as int)),
                count <= i,
            decreases start - i,
        {
            proof {
                assert(bytes@.take(i + 1).drop_last() =~= bytes@.take(i as int));
            }
            if bytes[i] == 0x0a {
                count = count + 1;
            }
            i = i + 1;
        }
        proof {
            lemma_newlines_le_len(bytes@.take(start as int));
        }
        Located {
            fragment: str_slice(self.fragment, start, end),
            offset: self.offset + start,
            line: self.line + count,
        }
    }

    proof fn lemma_slice_whole(&self) {
        assert(self@.text.subrange(0, self@.text.len() as int) =~= self@.text);
        assert(self@.text.take(0) =~= Seq::<u8>::empty());
    }

    proof fn lemma_slice_of_slice(&self, a: int, b: int, mid: Self, c: int, d: int, part: Self) {
        let s = self@.text;
        assert(part@.text =~= s.subrange(a + c, a + d));
        assert(s.take(a + c) =~= s.take(a) + mid@.text.take(c));
        lemma_newlines_concat(s.take(a), mid@.text.take(c));
    }
}

} // verus!
