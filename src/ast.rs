//! The document tree: nodes that address the source text by byte offsets.
use crate::text::{ascii_adjacent, is_ascii_byte, lemma_ascii_adjacent_is_boundary, lemma_chars_of_bytes, lemma_valid_subrange, utf8_str};
use vstd::prelude::*;
use vstd::string::StringSliceAdditionalSpecFns;
use vstd::utf8::*;

verus! {

broadcast use vstd::seq::group_seq_axioms;

#[derive(Debug, PartialEq)]
pub struct AstNode {
    pub kind: AstKind,
    pub span: Span,
    pub attrs: Option<Attrs>,
    pub children: Vec<AstNode>,
}

impl AstNode {
    /// The source text the node's span covers.
    pub fn text_view<'a>(&self, src: &'a [u8]) -> (r: Option<&'a str>)
        requires
            span_resolves(self.span, src@),
        ensures
            r.is_some(),
            r.unwrap().spec_bytes() == span_bytes(self.span, src@),
            r.unwrap()@ == span_text(self.span, src@),
    {
        Some(self.span.as_str(src))
    }
}

#[derive(Debug, PartialEq, Clone)]
pub enum AstKind {
    // Block
    Document,
    Paragraph,
    Heading { level: u8 },
    BlockQuote,
    List { kind: ListKind },
    ListItem,
    /// Fenced code or raw block: the fence length and the language or raw
    /// format are kept for rendering.
    CodeBlock { fence: usize, lang: Option<String>, raw_format: Option<String> },
    Div,
    Table { aligns: Vec<Align> },
    ThematicBreak,
    /// Standalone attribute lines that apply to the next block.
    Attributes,
    // Inline
    PlainText,
    Emph,
    Strong,
    Code,
    Verbatim { format: Option<String> },
    Link { dest_span: Option<Span>, title_span: Option<Span> },
    Image { dest_span: Option<Span>, title_span: Option<Span> },
    Sub,
    Sup,
    Insert,
    Delete,
    Mark,
    MathInline,
    MathDisplay,
}

/// A half-open byte range `[start, end)` into the source buffer.
#[derive(Debug, PartialEq, Eq, Clone, Copy)]
pub struct Span {
    pub start: usize,
    pub end: usize,
}

impl Span {
    /// Views the covered bytes as text.
    pub fn as_str<'a>(&self, src: &'a [u8]) -> (r: &'a str)
        requires
            span_resolves(*self, src@),
        ensures
            r.spec_bytes() == span_bytes(*self, src@),
            r@ == span_text(*self, src@),
    {
        let bytes = slice_range(src, self.start, self.end);
        match utf8_str(bytes) {
            Some(s) => {
                proof {
                    lemma_chars_of_bytes(s);
                }
                s
            },
            None => "",
        }
    }
}

/// The bytes `src[start..end]`.
pub fn slice_range(src: &[u8], start: usize, end: usize) -> (r: &[u8])
    requires
        start <= end <= src@.len(),
    ensures
        r@ == src@.subrange(start as int, end as int),
{
    &src[start..end]
}

#[derive(Debug, PartialEq, Clone)]
pub struct Attrs {
    pub id: Option<String>,
    pub classes: Vec<String>,
    pub kv: Vec<(String, String)>,
}

#[derive(Debug, PartialEq, Clone)]
pub enum ListKind {
    Bullet,
    Ordered,
}

#[derive(Debug, PartialEq, Clone)]
pub enum Align {
    Left,
    Center,
    Right,
    Unspecified,
}

#[derive(Debug, PartialEq)]
pub enum DelimKind {
    Star,
    Underscore,
    Backtick { run: usize },
    LBracket,
    BangLBracket,
    Paren,
    Tilde,
    Caret,
    Insert,
    Delete,
    Mark,
    QuoteSingle,
    QuoteDouble,
}

pub open spec fn span_bytes(sp: Span, src: Seq<u8>) -> Seq<u8> {
    src.subrange(sp.start as int, sp.end as int)
}

/// The span lies inside the source and covers valid UTF-8.
pub open spec fn span_resolves(sp: Span, src: Seq<u8>) -> bool {
    &&& sp.start <= sp.end <= src.len()
    &&& valid_utf8(span_bytes(sp, src))
}

/// The characters a span covers.
pub open spec fn span_text(sp: Span, src: Seq<u8>) -> Seq<char> {
    decode_utf8(span_bytes(sp, src))
}

/// The destination of a link or an image.
pub open spec fn dest_of(kind: AstKind) -> Option<Span> {
    match kind {
        AstKind::Link { dest_span, .. } => dest_span,
        AstKind::Image { dest_span, .. } => dest_span,
        _ => None,
    }
}

/// Every span of the tree, destinations included, resolves against `src`.
pub open spec fn resolves(node: AstNode, src: Seq<u8>) -> bool
    decreases node,
{
    &&& span_resolves(node.span, src)
    &&& (dest_of(node.kind).is_some() ==> span_resolves(dest_of(node.kind).unwrap(), src))
    &&& forall|i: int|
        0 <= i < node.children.len() ==> resolves(#[trigger] node.children@[i], src)
}

/// Every span starts no later than it ends, and each child's span lies within
/// its parent's.
pub open spec fn nested(node: AstNode) -> bool
    decreases node,
{
    &&& node.span.start <= node.span.end
    &&& forall|i: int|
        0 <= i < node.children.len() ==> {
            &&& node.span.start <= (#[trigger] node.children@[i]).span.start
            &&& node.children@[i].span.end <= node.span.end
            &&& nested(node.children@[i])
        }
}

/// Sibling nodes follow one another in the source without overlapping.
pub open spec fn in_order(nodes: Seq<AstNode>) -> bool {
    forall|i: int, j: int|
        0 <= i < j < nodes.len() ==> #[trigger] nodes[i].span.end <= #[trigger] nodes[j].span.start
}

/// Every span of the tree lies within `[lo, hi]` and is nested.
pub open spec fn within(node: AstNode, lo: int, hi: int) -> bool {
    &&& nested(node)
    &&& lo <= node.span.start
    &&& node.span.end <= hi
}

/// Every span of the tree (destinations included) falls inside the line `b`,
/// which starts at `off` in the buffer, and on a position next to ASCII text.
pub open spec fn anchored(node: AstNode, b: Seq<u8>, off: int) -> bool
    decreases node,
{
    &&& span_anchored(node.span, b, off)
    &&& (dest_of(node.kind).is_some() ==> span_anchored(dest_of(node.kind).unwrap(), b, off))
    &&& forall|i: int|
        0 <= i < node.children.len() ==> anchored(#[trigger] node.children@[i], b, off)
}

pub open spec fn span_anchored(sp: Span, b: Seq<u8>, off: int) -> bool {
    &&& off <= sp.start <= sp.end <= off + b.len()
    &&& ascii_adjacent(b, sp.start - off)
    &&& ascii_adjacent(b, sp.end - off)
}

/// A position next to ASCII text in a line is a character boundary of the
/// buffer the line was cut from.
pub proof fn lemma_line_position_boundary(buf: Seq<u8>, b: Seq<u8>, off: int, i: int)
    requires
        valid_utf8(buf),
        0 <= off,
        off + b.len() <= buf.len(),
        b == buf.subrange(off, off + b.len()),
        is_char_boundary(buf, off),
        is_char_boundary(buf, off + b.len()),
        ascii_adjacent(b, i),
    ensures
        is_char_boundary(buf, off + i),
{
    if i == 0 || i == b.len() {
    } else {
        if 0 <= i < b.len() && is_ascii_byte(b[i]) {
            assert(buf[off + i] == b[i]);
        } else {
            assert(buf[off + i - 1] == b[i - 1]);
        }
        assert(ascii_adjacent(buf, off + i));
        lemma_ascii_adjacent_is_boundary(buf, off + i);
    }
}

/// Spans anchored in a line resolve against the buffer the line was cut from.
pub proof fn lemma_anchored_resolves(node: AstNode, buf: Seq<u8>, b: Seq<u8>, off: int)
    requires
        valid_utf8(buf),
        0 <= off,
        off + b.len() <= buf.len(),
        b == buf.subrange(off, off + b.len()),
        is_char_boundary(buf, off),
        is_char_boundary(buf, off + b.len()),
        anchored(node, b, off),
    ensures
        resolves(node, buf),
    decreases node,
{
    lemma_span_anchored_resolves(node.span, buf, b, off);
    if let Some(d) = dest_of(node.kind) {
        lemma_span_anchored_resolves(d, buf, b, off);
    }
    assert forall|i: int| 0 <= i < node.children.len() implies resolves(
        #[trigger] node.children@[i],
        buf,
    ) by {
        lemma_anchored_resolves(node.children@[i], buf, b, off);
    }
}

proof fn lemma_span_anchored_resolves(sp: Span, buf: Seq<u8>, b: Seq<u8>, off: int)
    requires
        valid_utf8(buf),
        0 <= off,
        off + b.len() <= buf.len(),
        b == buf.subrange(off, off + b.len()),
        is_char_boundary(buf, off),
        is_char_boundary(buf, off + b.len()),
        span_anchored(sp, b, off),
    ensures
        span_resolves(sp, buf),
{
    lemma_line_position_boundary(buf, b, off, sp.start - off);
    lemma_line_position_boundary(buf, b, off, sp.end - off);
    lemma_valid_subrange(buf, sp.start as int, sp.end as int);
}

} // verus!
