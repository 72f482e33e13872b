//! Source maps between markdown sources and the HTML rendered from them.
use std::ops::Range;

use vstd::prelude::*;
use vstd::utf8::{encode_utf8, is_char_boundary};

verus! {

/// A mapping from source markdown byte ranges to output HTML byte ranges.
#[derive(Debug)]
pub struct SourceSpan {
    /// Byte range in the markdown source.
    pub source_range: Range<usize>,
    /// Byte range in the rendered HTML output.
    pub output_range: Range<usize>,
    /// Source line numbers (1-based, inclusive).
    pub line_range: Range<u32>,
}

/// Rendered HTML document with source mapping information.
#[derive(Debug)]
pub struct RenderedDocument {
    /// The rendered HTML content.
    pub html: String,
    /// Source spans mapping HTML regions back to markdown.
    pub source_map: Vec<SourceSpan>,
}

/// `x` lies in the half-open range `r` (`Range::contains`).
pub open spec fn in_range(r: Range<usize>, x: usize) -> bool {
    r.start <= x && x < r.end
}

/// The index of the first span from `i` on whose output range holds `off`.
pub open spec fn first_output_span(spans: Seq<SourceSpan>, off: usize, i: int) -> Option<int>
    decreases spans.len() - i,
{
    if i < 0 || i >= spans.len() {
        None
    } else if in_range(spans[i].output_range, off) {
        Some(i)
    } else {
        first_output_span(spans, off, i + 1)
    }
}

/// The index of the first span from `i` on whose source range holds `off`.
pub open spec fn first_source_span(spans: Seq<SourceSpan>, off: usize, i: int) -> Option<int>
    decreases spans.len() - i,
{
    if i < 0 || i >= spans.len() {
        None
    } else if in_range(spans[i].source_range, off) {
        Some(i)
    } else {
        first_source_span(spans, off, i + 1)
    }
}

impl RenderedDocument {
    /// Find the source span that contains the given HTML byte offset.
    pub fn source_for_output(&self, html_offset: usize) -> (r: Option<&SourceSpan>)
        ensures
            match first_output_span(self.source_map@, html_offset, 0) {
                Some(i) => r == Some(&self.source_map@[i]),
                None => r is None,
            },
    {
        let mut i: usize = 0;
        while i < self.source_map.len()
            invariant
                i <= self.source_map@.len(),
                first_output_span(self.source_map@, html_offset, 0) == first_output_span(
                    self.source_map@,
                    html_offset,
                    i as int,
                ),
            decreases self.source_map.len() - i,
        {
            let span = &self.source_map[i];
            if span.output_range.start <= html_offset && html_offset < span.output_range.end {
                return Some(span);
            }
            i += 1;
        }
        None
    }

    /// Find the source span that contains the given markdown byte offset.
    pub fn output_for_source(&self, source_offset: usize) -> (r: Option<&SourceSpan>)
        ensures
            match first_source_span(self.source_map@, source_offset, 0) {
                Some(i) => r == Some(&self.source_map@[i]),
                None => r is None,
            },
    {
        let mut i: usize = 0;
        while i < self.source_map.len()
            invariant
                i <= self.source_map@.len(),
                first_source_span(self.source_map@, source_offset, 0) == first_source_span(
                    self.source_map@,
                    source_offset,
                    i as int,
                ),
            decreases self.source_map.len() - i,
        {
            let span = &self.source_map[i];
            if span.source_range.start <= source_offset && source_offset < span.source_range.end {
                return Some(span);
            }
            i += 1;
        }
        None
    }
}

/// The number of `\n` bytes among the first `k` bytes of `b`.
pub open spec fn newlines_before(b: Seq<u8>, k: int) -> nat
    decreases k,
{
    if k <= 0 || k > b.len() {
        0
    } else {
        newlines_before(b, k - 1) + if b[k - 1] == 10 {
            1nat
        } else {
            0nat
        }
    }
}

/// The offset clamped to the text.
pub open spec fn clamp(off: int, len: int) -> int {
    if off <= len {
        off
    } else {
        len
    }
}

/// The 1-based line of byte offset `off` (clamped to the text): one more
/// than the newlines before it, counted as a `u32` count.
pub open spec fn line_at(b: Seq<u8>, off: int) -> int {
    (newlines_before(b, clamp(off, b.len() as int)) as int % 0x1_0000_0000) + 1
}

/// Compute 1-based line number for a byte offset in text.
pub fn line_number_at(text: &str, byte_offset: usize) -> (r: u32)
    requires
        is_char_boundary(encode_utf8(text@), clamp(byte_offset as int, encode_utf8(text@).len() as int)),
        newlines_before(encode_utf8(text@), clamp(byte_offset as int, encode_utf8(text@).len() as int))
            % 0x1_0000_0000 != 0xFFFF_FFFF,
    ensures
        r == line_at(encode_utf8(text@), byte_offset as int),
{
    let b = text.as_bytes();
    let offset = if byte_offset <= b.len() {
        byte_offset
    } else {
        b.len()
    };
    let mut count: u32 = 0;
    let mut i: usize = 0;
    while i < offset
        invariant
            i <= offset <= b@.len(),
            count == newlines_before(b@, i as int) % 0x1_0000_0000,
        decreases offset - i,
    {
        if b[i] == 10 {
            count = count.wrapping_add(1);
        }
        i += 1;
    }
    count + 1
}

/// Whether a byte is a line feed.
pub open spec fn is_line_feed() -> spec_fn(u8) -> bool {
    |x: u8| x == 10
}

proof fn lemma_newlines_count(b: Seq<u8>, k: int)
    requires
        0 <= k <= b.len(),
    ensures
        newlines_before(b, k) == b.take(k).filter(is_line_feed()).len(),
    decreases k,
{
    reveal(Seq::filter);
    if k > 0 {
        lemma_newlines_count(b, k - 1);
        assert(b.take(k).drop_last() =~= b.take(k - 1));
        assert(b.take(k).last() == b[k - 1]);
    } else {
        assert(b.take(0) =~= Seq::<u8>::empty());
    }
}

/// The line of an offset is one more than the number of line feeds among
/// the bytes before it (the offset clamped to the text), counted as a
/// `u32`: no other byte starts a line.
pub proof fn law_line_counts_line_feeds(b: Seq<u8>, off: int)
    requires
        0 <= off,
    ensures
        line_at(b, off) == (b.take(clamp(off, b.len() as int)).filter(is_line_feed()).len() as int
            % 0x1_0000_0000) + 1,
{
    lemma_newlines_count(b, clamp(off, b.len() as int));
}

/// Inserting a byte before an offset (and moving the offset past it) moves
/// the offset's line down by one when the byte is a line feed, and leaves it
/// unchanged for any other byte, a carriage return included.
pub proof fn law_line_moves_only_at_line_feeds(b: Seq<u8>, off: int, p: int, x: u8)
    requires
        0 <= p <= off <= b.len(),
    ensures
        x == 10 ==> line_at(b.insert(p, x), off + 1) == ((newlines_before(b, off) + 1) as int % 0x1_0000_0000) + 1,
        x != 10 ==> line_at(b.insert(p, x), off + 1) == line_at(b, off),
{
    let c = b.insert(p, x);
    let f = is_line_feed();
    lemma_newlines_count(b, off);
    lemma_newlines_count(c, off + 1);
    assert(c.take(off + 1) =~= b.take(p) + seq![x] + b.subrange(p, off));
    assert(b.take(off) =~= b.take(p) + b.subrange(p, off));
    Seq::filter_distributes_over_add(b.take(p) + seq![x], b.subrange(p, off), f);
    Seq::filter_distributes_over_add(b.take(p), seq![x], f);
    Seq::filter_distributes_over_add(b.take(p), b.subrange(p, off), f);
    reveal(Seq::filter);
    assert(seq![x].drop_last() =~= Seq::<u8>::empty());
    assert(Seq::<u8>::empty().filter(f).len() == 0);
}

} // verus!
