use vstd::prelude::*;
use crate::text::{byte_len, char_index_of, collect_chars, lemma_offset_in, lemma_offset_injective, lemma_offset_mono, offset};

verus! {

/// An offset in bytes into a source buffer.
pub type ByteIndex = u32;

/// A half-open range `[start, end)` of byte offsets into the source being lexed.
#[derive(PartialEq, Eq, Structural, Debug, Copy, Clone)]
pub struct Span {
    /// The start of the span in bytes.
    pub start: ByteIndex,
    /// The end of the span in bytes.
    pub end: ByteIndex,
}

impl Span {
    /// A span is well formed when it does not end before it starts.
    pub open spec fn wf(self) -> bool {
        self.start <= self.end
    }

    /// Creates a span from two byte offsets, each of which must fit in a `ByteIndex`.
    pub fn new(start: usize, end: usize) -> (r: Span)
        requires
            start <= end,
            end <= ByteIndex::MAX,
        ensures
            r.start == start,
            r.end == end,
            r.wf(),
    {
        Span { start: start as ByteIndex, end: end as ByteIndex }
    }

    /// Creates the empty span located at `at`.
    pub fn new_empty(at: usize) -> (r: Span)
        requires
            at <= ByteIndex::MAX,
        ensures
            r.start == at,
            r.end == at,
    {
        Span { start: at as ByteIndex, end: at as ByteIndex }
    }
}

/// Grows an accumulated span so that it also covers a span found after it.
pub trait SpanMerger: Sized {
    /// The value after `span` was merged into `self`.
    spec fn merged(self, span: Span) -> Self;

    /// Whether `span` may be merged into `self`: it lies after what `self` covers.
    spec fn can_merge(self, span: Span) -> bool;

    fn merge(&mut self, span: Span)
        requires
            old(self).can_merge(span),
        ensures
            *final(self) == old(self).merged(span),
    ;
}

impl SpanMerger for Span {
    /// The start is kept and the end becomes that of `span`.
    open spec fn merged(self, span: Span) -> Span {
        Span { start: self.start, end: span.end }
    }

    open spec fn can_merge(self, span: Span) -> bool {
        self.end <= span.start
    }

    fn merge(&mut self, span: Span) {
        self.end = span.end;
    }
}

impl SpanMerger for Option<Span> {
    /// Nothing accumulated yet: the result is `span` itself.
    open spec fn merged(self, span: Span) -> Option<Span> {
        match self {
            Some(s) => Some(s.merged(span)),
            None => Some(span),
        }
    }

    open spec fn can_merge(self, span: Span) -> bool {
        match self {
            Some(s) => s.can_merge(span),
            None => true,
        }
    }

    fn merge(&mut self, span: Span) {
        match self {
            Some(s) => s.merge(span),
            None => *self = Some(span),
        }
    }
}

/// Merging keeps a well-formed span well formed.
pub proof fn lemma_merge_wf(acc: Option<Span>, span: Span)
    requires
        acc.can_merge(span),
        span.wf(),
        acc matches Some(a) ==> a.wf(),
    ensures
        acc.merged(span)->0.wf(),
{
}


/// Whether the bytes of `span` are those of the characters of `s` from index
/// `i` up to index `j`.
pub open spec fn covers(s: Seq<char>, span: Span, i: int, j: int) -> bool {
    &&& 0 <= i <= j <= s.len()
    &&& offset(s, i) == span.start
    &&& offset(s, j) == span.end
}

/// Whether `span` starts and ends between two characters of `s`.
pub open spec fn on_chars(s: Seq<char>, span: Span) -> bool {
    exists|i: int, j: int| covers(s, span, i, j)
}

/// The characters of `s` whose bytes `span` covers.
pub open spec fn span_text(s: Seq<char>, span: Span) -> Seq<char> {
    let (i, j) = choose|i: int, j: int| covers(s, span, i, j);
    s.subrange(i, j)
}

/// The text of a span is that of the characters it covers.
pub proof fn lemma_span_text(s: Seq<char>, span: Span, i: int, j: int)
    requires
        covers(s, span, i, j),
    ensures
        on_chars(s, span),
        span_text(s, span) == s.subrange(i, j),
{
    let (a, b) = choose|a: int, b: int| covers(s, span, a, b);
    lemma_offset_injective(s, a, i);
    lemma_offset_injective(s, b, j);
}

/// A span between characters is well formed and lies within the text.
pub proof fn lemma_on_chars_bounds(s: Seq<char>, span: Span)
    requires
        on_chars(s, span),
    ensures
        span.start <= span.end <= byte_len(s),
{
    let (i, j) = choose|i: int, j: int| covers(s, span, i, j);
    lemma_offset_mono(s, i, j);
    lemma_offset_in(s, j);
}

/// Reads the text that a span covers.
pub trait SpanSubstr: View<V = Seq<char>> {
    fn substr(&self, span: Span) -> (r: &str)
        requires
            on_chars(self@, span),
        ensures
            r@ == span_text(self@, span),
    ;
}

impl SpanSubstr for str {
    fn substr(&self, span: Span) -> (r: &str) {
        let chars = collect_chars(self);
        let ghost (a, b) = choose|a: int, b: int| covers(self@, span, a, b);
        let i = char_index_of(&chars, span.start);
        let j = char_index_of(&chars, span.end);
        proof {
            lemma_offset_injective(self@, a, i as int);
            lemma_offset_injective(self@, b, j as int);
        }
        self.substring_char(i, j)
    }
}

} // verus!
