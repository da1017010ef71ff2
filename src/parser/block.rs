//! Block parsing: groups consecutive lines into paragraphs and block quotes and
//! hands their text to the inline parser.
use crate::ast::{
    anchored, in_order, lemma_anchored_resolves, lemma_line_position_boundary, nested, resolves,
    span_resolves, within, AstKind, AstNode, Span,
};
use crate::parser::context::{line_end_of, line_of, line_start_of, Context, Range, LF};
use crate::parser::inline::{
    inline_spec, lemma_view_children, markup_free, parse_inline, plain_leaf, seq_ok, view_node,
    view_nodes, NodeV,
};
use crate::parser::context::is_blank;
use crate::text::{all_white_space, lemma_chars_of_bytes, lemma_valid_subrange, substr};
use vstd::prelude::*;
use vstd::string::StringSliceAdditionalSpecFns;
use vstd::utf8::*;

verus! {

broadcast use vstd::seq::group_seq_axioms;

pub const GT: u8 = 0x3e;

/// Sibling nodes of a block: in source order, each resolving against `buf`,
/// nested within `[lo, hi]`, and starting and ending on character boundaries.
pub open spec fn blocks_ok(ns: Seq<AstNode>, buf: Seq<u8>, lo: int, hi: int) -> bool {
    &&& in_order(ns)
    &&& forall|i: int|
        0 <= i < ns.len() ==> {
            &&& resolves(#[trigger] ns[i], buf)
            &&& within(ns[i], lo, hi)
            &&& is_char_boundary(buf, ns[i].span.start as int)
            &&& is_char_boundary(buf, ns[i].span.end as int)
        }
}

/// The line starts with the quote marker `>`.
pub open spec fn quote_line(b: Seq<u8>) -> bool {
    b.len() > 0 && b[0] == GT
}

/// The length of the quote marker that starts the line: `"> "`, `">"`, or none.
pub open spec fn marker_len(b: Seq<u8>) -> int {
    if b.len() >= 2 && b[0] == GT && b[1] == 0x20 {
        2
    } else if b.len() >= 1 && b[0] == GT {
        1
    } else {
        0
    }
}

/// A node of kind `kind` over `[start, end)` whose children are `children`.
pub open spec fn block_node(node: AstNode, kind: AstKind, start: int, end: int) -> bool {
    &&& node.kind == kind
    &&& node.span.start == start
    &&& node.span.end == end
    &&& node.attrs.is_none()
}

/// A block of the document: nested, resolving against `buf`, its children
/// sound siblings within its span.
pub open spec fn block_ok(node: AstNode, buf: Seq<u8>) -> bool {
    &&& crate::ast::dest_of(node.kind) is None
    &&& node.span.start <= node.span.end
    &&& span_resolves(node.span, buf)
    &&& blocks_ok(node.children@, buf, node.span.start as int, node.span.end as int)
}

pub proof fn lemma_block_ok_nested(node: AstNode, buf: Seq<u8>)
    requires
        block_ok(node, buf),
    ensures
        nested(node),
        resolves(node, buf),
{
    assert forall|i: int| 0 <= i < node.children.len() implies resolves(
        #[trigger] node.children@[i],
        buf,
    ) by {}
    assert forall|i: int| 0 <= i < node.children.len() implies {
        &&& node.span.start <= (#[trigger] node.children@[i]).span.start
        &&& node.children@[i].span.end <= node.span.end
        &&& nested(node.children@[i])
    } by {
        assert(within(node.children@[i], node.span.start as int, node.span.end as int));
    }
}

proof fn lemma_blocks_concat(a: Seq<AstNode>, c: Seq<AstNode>, buf: Seq<u8>, lo: int, m: int, m2: int, hi: int)
    requires
        blocks_ok(a, buf, lo, m),
        blocks_ok(c, buf, m2, hi),
        lo <= m <= m2 <= hi,
    ensures
        blocks_ok(a + c, buf, lo, hi),
{
    let s = a + c;
    assert forall|i: int, j: int| 0 <= i < j < s.len() implies #[trigger] s[i].span.end
        <= #[trigger] s[j].span.start by {
        if j < a.len() {
            assert(s[i] == a[i] && s[j] == a[j]);
        } else if i < a.len() {
            assert(within(a[i], lo, m));
            assert(within(c[j - a.len()], m2, hi));
        } else {
            assert(s[i] == c[i - a.len()] && s[j] == c[j - a.len()]);
        }
    }
    assert forall|i: int| 0 <= i < s.len() implies {
        &&& resolves(#[trigger] s[i], buf)
        &&& within(s[i], lo, hi)
        &&& is_char_boundary(buf, s[i].span.start as int)
        &&& is_char_boundary(buf, s[i].span.end as int)
    } by {
        if i < a.len() {
            assert(s[i] == a[i]);
            assert(within(a[i], lo, m));
        } else {
            assert(s[i] == c[i - a.len()]);
            assert(within(c[i - a.len()], m2, hi));
        }
    }
}

/// The inline nodes of a piece of line `j` that starts at `off` are sound
/// siblings within that piece of the buffer.
proof fn lemma_inline_blocks(ctx: &Context, j: int, off: int, piece: Seq<u8>, ns: Seq<AstNode>)
    requires
        ctx.wf(),
        0 <= j < ctx.num_lines(),
        ctx.line_start(j) <= off <= ctx.line_content_end(j),
        piece == ctx.text().subrange(off, ctx.line_content_end(j)),
        is_char_boundary(ctx.text(), off),
        seq_ok(ns, piece, off, off, off + piece.len()),
    ensures
        blocks_ok(ns, ctx.text(), off, ctx.line_content_end(j)),
{
    ctx.lemma_line_bounds(j);
    let buf = ctx.text();
    assert forall|i: int| 0 <= i < ns.len() implies {
        &&& resolves(#[trigger] ns[i], buf)
        &&& within(ns[i], off, ctx.line_content_end(j))
        &&& is_char_boundary(buf, ns[i].span.start as int)
        &&& is_char_boundary(buf, ns[i].span.end as int)
    } by {
        assert(anchored(ns[i], piece, off));
        lemma_anchored_resolves(ns[i], buf, piece, off);
        lemma_line_position_boundary(buf, piece, off, ns[i].span.start - off);
        lemma_line_position_boundary(buf, piece, off, ns[i].span.end - off);
    }
}

/// A line with no characters is blank; so a line that is not blank has bytes.
proof fn lemma_not_blank_nonempty(b: Seq<u8>)
    requires
        !all_white_space(decode_utf8(b)),
    ensures
        b.len() > 0,
{
    if b.len() == 0 {
        assert(decode_utf8(b) =~= Seq::<char>::empty());
    }
}

pub fn parse_block(ctx: &mut Context) -> (r: AstNode)
    requires
        old(ctx).wf(),
        old(ctx).cur_line_position < old(ctx).num_lines(),
    ensures
        final(ctx).wf(),
        final(ctx).same_lines(old(ctx)),
        block_ok(r, old(ctx).text()),
        r.span.start == old(ctx).line_start(old(ctx).cur_line_position as int),
        r.span.end <= final(ctx).cursor_offset(),
        !old(ctx).line_blank(old(ctx).cur_line_position as int) ==> final(ctx).cur_line_position
            > old(ctx).cur_line_position,
        quote_line(old(ctx).line(old(ctx).cur_line_position as int)) ==> {
            &&& r.kind == AstKind::BlockQuote
            &&& quote_result(*old(ctx), *final(ctx), r)
        },
        !quote_line(old(ctx).line(old(ctx).cur_line_position as int)) ==> {
            &&& r.kind == AstKind::Paragraph
            &&& paragraph_result(*old(ctx), *final(ctx), r)
        },
{
    let ghost c0 = *ctx;
    let r = if is_block_quote_line(ctx.current_line()) {
        parse_block_quote(ctx)
    } else {
        parse_paragraph(ctx)
    };
    proof {
        let p = c0.cur_line_position as int;
        let q = ctx.cur_line_position as int;
        c0.lemma_line_bounds(p);
        if q > p {
            c0.lemma_line_bounds(q - 1);
        }
        if q < c0.num_lines() {
            c0.lemma_line_bounds(q);
        }
    }
    r
}

/// The inline nodes of lines `p` to `q` (excluded) of the table `r` over `t`,
/// one line after another.
pub open spec fn lines_inline(t: Seq<u8>, r: Seq<Range>, p: int, q: int) -> Seq<NodeV>
    decreases q - p,
{
    if q <= p {
        Seq::empty()
    } else {
        lines_inline(t, r, p, q - 1) + inline_spec(line_of(t, r, q - 1), line_start_of(r, q - 1))
    }
}

/// The paragraph made of lines `p` to `q` (excluded): from the start of the
/// first to the end of the last one's content, holding their inline nodes.
pub open spec fn para_v(t: Seq<u8>, r: Seq<Range>, p: int, q: int) -> NodeV {
    NodeV {
        kind: AstKind::Paragraph,
        span: Span {
            start: line_start_of(r, p) as usize,
            end: (if q > p {
                line_end_of(t, r, q - 1)
            } else {
                line_start_of(r, p)
            }) as usize,
        },
        attrs: None,
        children: lines_inline(t, r, p, q),
    }
}

/// What `parse_paragraph` leaves: it consumed the run of non-blank lines from
/// the current one, and the paragraph spans from the start of the first to
/// the end of the last one's content. When every consumed line is free of
/// inline markup, each gives one plain text child covering it.
pub open spec fn paragraph_result(c0: Context, c1: Context, r: AstNode) -> bool {
    let p = c0.cur_line_position as int;
    let q = c1.cur_line_position as int;
    &&& p <= q <= c0.num_lines()
    &&& forall|k: int| p <= k < q ==> !c0.line_blank(k)
    &&& (q == c0.num_lines() || c0.line_blank(q))
    &&& view_node(r) == para_v(c0.text(), c0.line_range@, p, q)
    &&& block_node(
        r,
        AstKind::Paragraph,
        c0.line_start(p),
        if q > p {
            c0.line_content_end(q - 1)
        } else {
            c0.line_start(p)
        },
    )
    &&& (forall|k: int| p <= k < q ==> markup_free(#[trigger] c0.line(k))) ==> {
        &&& r.children.len() == q - p
        &&& forall|i: int|
            0 <= i < q - p ==> plain_leaf(
                #[trigger] r.children@[i],
                c0.line_start(p + i),
                c0.line_content_end(p + i),
            )
    }
}

#[verifier::rlimit(100)]
fn parse_paragraph(ctx: &mut Context) -> (r: AstNode)
    requires
        old(ctx).wf(),
        old(ctx).cur_line_position < old(ctx).num_lines(),
    ensures
        final(ctx).wf(),
        final(ctx).same_lines(old(ctx)),
        block_ok(r, old(ctx).text()),
        paragraph_result(*old(ctx), *final(ctx), r),
{
    let ghost c0 = *ctx;
    let ghost p = c0.cur_line_position as int;
    let mut children: Vec<AstNode> = Vec::new();
    let start = ctx.line_range[ctx.cur_line_position].start;
    let mut end = start;
    proof {
        ctx.lemma_line_bounds(p);
        ctx.lemma_text_valid();
    }
    while !ctx.is_eof() && !is_blank(ctx.current_line())
        invariant
            ctx.wf(),
            ctx.same_lines(&c0),
            c0.wf(),
            p == c0.cur_line_position,
            p < c0.num_lines(),
            p <= ctx.cur_line_position <= c0.num_lines(),
            valid_utf8(c0.text()),
            start == c0.line_start(p),
            end == if ctx.cur_line_position > p {
                c0.line_content_end(ctx.cur_line_position - 1)
            } else {
                start as int
            },
            is_char_boundary(c0.text(), start as int),
            start <= end <= c0.text().len(),
            forall|k: int| p <= k < ctx.cur_line_position ==> !c0.line_blank(k),
            blocks_ok(children@, c0.text(), start as int, end as int),
            view_nodes(children@) == lines_inline(
                c0.text(),
                c0.line_range@,
                p,
                ctx.cur_line_position as int,
            ),
            (forall|k: int| p <= k < ctx.cur_line_position ==> markup_free(#[trigger] c0.line(k)))
                ==> {
                &&& children@.len() == ctx.cur_line_position - p
                &&& forall|i: int|
                    0 <= i < ctx.cur_line_position - p ==> plain_leaf(
                        #[trigger] children@[i],
                        c0.line_start(p + i),
                        c0.line_content_end(p + i),
                    )
            },
        decreases c0.num_lines() - ctx.cur_line_position,
    {
        let ghost j = ctx.cur_line_position as int;
        let offset = ctx.line_range[ctx.cur_line_position].start;
        let line = ctx.current_line();
        proof {
            c0.lemma_line_bounds(j);
            lemma_chars_of_bytes(line);
            lemma_not_blank_nonempty(c0.line(j));
            if j > p {
                c0.lemma_line_bounds(j - 1);
            }
            assert(c0.text().subrange(offset as int, c0.line_content_end(j)) == c0.line(j));
        }
        let mut nodes = parse_inline(line, offset);
        proof {
            lemma_inline_blocks(&c0, j, offset as int, line.spec_bytes(), nodes@);
            lemma_blocks_concat(children@, nodes@, c0.text(), start as int, end as int, offset as int, c0.line_content_end(j));
        }
        let ghost before = children@;
        let ghost added = nodes@;
        end = offset + line.len();
        children.append(&mut nodes);
        proof {
            assert(view_nodes(children@) =~= view_nodes(before) + view_nodes(added));
        }
        proof {
            if forall|k: int| p <= k < j + 1 ==> markup_free(#[trigger] c0.line(k)) {
                assert(markup_free(c0.line(j)));
                assert forall|i: int| 0 <= i < j + 1 - p implies plain_leaf(
                    #[trigger] children@[i],
                    c0.line_start(p + i),
                    c0.line_content_end(p + i),
                ) by {
                    if i < j - p {
                        assert(children@[i] == before[i]);
                    }
                }
            }
        }
        ctx.advance();
    }
    let r = AstNode { kind: AstKind::Paragraph, span: Span { start, end }, attrs: None, children };
    proof {
        lemma_view_children(r);
        if ctx.cur_line_position > p {
            c0.lemma_line_bounds(ctx.cur_line_position - 1);
        }
        c0.lemma_line_bounds(p);
        lemma_valid_subrange(c0.text(), start as int, end as int);
        if ctx.cur_line_position < c0.num_lines() {
            c0.lemma_line_bounds(ctx.cur_line_position as int);
        }
    }
    r
}

#[verifier::rlimit(100)]
fn parse_block_quote(ctx: &mut Context) -> (r: AstNode)
    requires
        old(ctx).wf(),
        old(ctx).cur_line_position < old(ctx).num_lines(),
    ensures
        final(ctx).wf(),
        final(ctx).same_lines(old(ctx)),
        block_ok(r, old(ctx).text()),
        quote_result(*old(ctx), *final(ctx), r),
{
    let ghost c0 = *ctx;
    let ghost p = c0.cur_line_position as int;
    let start = ctx.line_range[ctx.cur_line_position].start;
    let mut end = start;
    let mut children: Vec<AstNode> = Vec::new();
    let mut current_para: Vec<AstNode> = Vec::new();
    let ghost mut para_lo: int = start as int;
    proof {
        ctx.lemma_line_bounds(p);
        ctx.lemma_text_valid();
    }
    while !ctx.is_eof()
        invariant
            ctx.wf(),
            ctx.same_lines(&c0),
            c0.wf(),
            p == c0.cur_line_position,
            p < c0.num_lines(),
            p <= ctx.cur_line_position <= c0.num_lines(),
            valid_utf8(c0.text()),
            start == c0.line_start(p),
            end == if ctx.cur_line_position > p {
                c0.line_range@[ctx.cur_line_position - 1].end as int
            } else {
                start as int
            },
            ctx.cur_line_position < c0.num_lines() ==> end <= c0.line_start(ctx.cur_line_position as int),
            is_char_boundary(c0.text(), start as int),
            is_char_boundary(c0.text(), end as int),
            end <= c0.text().len(),
            forall|k: int| p <= k < ctx.cur_line_position ==> quote_line(#[trigger] c0.line(k)),
            start <= para_lo <= end,
            blocks_ok(children@, c0.text(), start as int, para_lo),
            blocks_ok(current_para@, c0.text(), para_lo, end as int),
            forall|i: int| 0 <= i < children@.len() ==> (#[trigger] children@[i]).kind == AstKind::Paragraph,
            view_nodes(children@) == quote_fold(
                c0.text(),
                c0.line_range@,
                p,
                ctx.cur_line_position as int,
            ).0,
            view_nodes(current_para@) == quote_fold(
                c0.text(),
                c0.line_range@,
                p,
                ctx.cur_line_position as int,
            ).1,
        ensures
            ctx.cur_line_position == c0.num_lines() || !quote_line(c0.line(ctx.cur_line_position as int)),
        decreases c0.num_lines() - ctx.cur_line_position,
    {
        let ghost j = ctx.cur_line_position as int;
        let line_idx = ctx.cur_line_position;
        let line_start = ctx.line_range[line_idx].start;
        let line_end = ctx.line_range[line_idx].end;
        let line = ctx.current_line();
        if !is_block_quote_line(line) {
            break;
        }
        proof {
            c0.lemma_line_bounds(j);
            if j + 1 < c0.num_lines() {
                c0.lemma_line_bounds(j + 1);
            }
        }
        let (content, marker_len) = strip_block_quote_marker(line);
        let content_offset = line_start + marker_len;
        proof {
            let b = c0.text();
            assert(b[line_start + marker_len - 1] == line.spec_bytes()[marker_len - 1]);
            assert(crate::text::ascii_adjacent(b, content_offset as int));
            crate::text::lemma_ascii_adjacent_is_boundary(b, content_offset as int);
            assert(content.spec_bytes() == b.subrange(content_offset as int, c0.line_content_end(j)));
            assert(content.spec_bytes() =~= quote_content(b, c0.line_range@, j));
            lemma_chars_of_bytes(content);
            if j == c0.num_lines() - 1 {
                assert(line_end == b.len());
            } else {
                assert(b[line_end - 1] == LF);
                assert(crate::text::ascii_adjacent(b, line_end as int));
                crate::text::lemma_ascii_adjacent_is_boundary(b, line_end as int);
            }
            crate::text::lemma_ascii_adjacent_is_boundary(b, b.len() as int);
        }
        if is_blank(content) {
            let ghost lo = para_lo;
            let ghost before = children@;
            flush_paragraph(&mut children, &mut current_para, Ghost(c0.text()), Ghost(start as int), Ghost(lo), Ghost(end as int));
            proof {
                assert forall|i: int| 0 <= i < children@.len() implies (#[trigger] children@[i]).kind
                    == AstKind::Paragraph by {
                    if i < before.len() {
                        assert(children@[i] == before[i]);
                    }
                }
                para_lo = end as int;
                assert(blocks_ok(current_para@, c0.text(), para_lo, line_end as int));
                assert(view_nodes(current_para@) =~= Seq::<NodeV>::empty());
            }
        } else {
            let mut nodes = parse_inline(content, content_offset);
            proof {
                lemma_inline_blocks(&c0, j, content_offset as int, content.spec_bytes(), nodes@);
                lemma_blocks_concat(current_para@, nodes@, c0.text(), para_lo, end as int, content_offset as int, line_end as int);
            }
            let ghost before = current_para@;
            let ghost added = nodes@;
            current_para.append(&mut nodes);
            proof {
                assert(view_nodes(current_para@) =~= view_nodes(before) + view_nodes(added));
            }
        }
        end = line_end;
        ctx.advance();
    }
    let ghost lo = para_lo;
    let ghost before = children@;
    flush_paragraph(&mut children, &mut current_para, Ghost(c0.text()), Ghost(start as int), Ghost(lo), Ghost(end as int));
    proof {
        assert forall|i: int| 0 <= i < children@.len() implies (#[trigger] children@[i]).kind
            == AstKind::Paragraph by {
            if i < before.len() {
                assert(children@[i] == before[i]);
            }
        }
    }
    let r = AstNode { kind: AstKind::BlockQuote, span: Span { start, end }, attrs: None, children };
    proof {
        lemma_valid_subrange(c0.text(), start as int, end as int);
        lemma_view_children(r);
    }
    r
}

/// Line `k` of a quote without its marker.
pub open spec fn quote_content(t: Seq<u8>, r: Seq<Range>, k: int) -> Seq<u8> {
    let l = line_of(t, r, k);
    l.subrange(marker_len(l), l.len() as int)
}

/// Where line `k` of a quote starts once its marker is stripped.
pub open spec fn quote_content_start(t: Seq<u8>, r: Seq<Range>, k: int) -> int {
    line_start_of(r, k) + marker_len(line_of(t, r, k))
}

/// The pending inline nodes, if any, become a paragraph after `children`.
pub open spec fn close_para_v(children: Seq<NodeV>, para: Seq<NodeV>) -> Seq<NodeV> {
    if para.len() == 0 {
        children
    } else {
        children.push(
            NodeV {
                kind: AstKind::Paragraph,
                span: Span { start: para[0].span.start, end: para.last().span.end },
                attrs: None,
                children: para,
            },
        )
    }
}

/// The paragraphs closed so far and the pending inline nodes after quote lines
/// `p` to `k` (excluded): a line whose content is blank closes the pending
/// paragraph, any other adds its inline nodes to it.
pub open spec fn quote_fold(t: Seq<u8>, r: Seq<Range>, p: int, k: int) -> (Seq<NodeV>, Seq<NodeV>)
    decreases k - p,
{
    if k <= p {
        (Seq::empty(), Seq::empty())
    } else {
        let (children, para) = quote_fold(t, r, p, k - 1);
        let content = quote_content(t, r, k - 1);
        if all_white_space(decode_utf8(content)) {
            (close_para_v(children, para), Seq::empty())
        } else {
            (children, para + inline_spec(content, quote_content_start(t, r, k - 1)))
        }
    }
}

/// The block quote made of lines `p` to `q` (excluded).
pub open spec fn quote_v(t: Seq<u8>, r: Seq<Range>, p: int, q: int) -> NodeV {
    let (children, para) = quote_fold(t, r, p, q);
    NodeV {
        kind: AstKind::BlockQuote,
        span: Span {
            start: line_start_of(r, p) as usize,
            end: (if q > p {
                r[q - 1].end as int
            } else {
                line_start_of(r, p)
            }) as usize,
        },
        attrs: None,
        children: close_para_v(children, para),
    }
}

/// What `parse_block_quote` leaves: it consumed the run of lines starting with
/// `>` from the current one, and the quote spans from the start of the first
/// to the end of the last, terminator included; its children are paragraphs.
pub open spec fn quote_result(c0: Context, c1: Context, r: AstNode) -> bool {
    let p = c0.cur_line_position as int;
    let q = c1.cur_line_position as int;
    &&& p <= q <= c0.num_lines()
    &&& forall|k: int| p <= k < q ==> quote_line(#[trigger] c0.line(k))
    &&& (q == c0.num_lines() || !quote_line(c0.line(q)))
    &&& view_node(r) == quote_v(c0.text(), c0.line_range@, p, q)
    &&& block_node(
        r,
        AstKind::BlockQuote,
        c0.line_start(p),
        if q > p {
            c0.line_range@[q - 1].end as int
        } else {
            c0.line_start(p)
        },
    )
    &&& forall|i: int| 0 <= i < r.children.len() ==> (#[trigger] r.children@[i]).kind == AstKind::Paragraph
}

/// Does the line start with the quote marker `>`?
fn is_block_quote_line(line: &str) -> (r: bool)
    ensures
        r == quote_line(line.spec_bytes()),
{
    let b = line.as_bytes();
    b.len() > 0 && b[0] == GT
}

/// Splits the quote marker (`"> "` preferred over `">"`) off the line: the rest
/// of the line and the marker's length.
fn strip_block_quote_marker(line: &str) -> (r: (&str, usize))
    ensures
        r.1 == marker_len(line.spec_bytes()),
        r.0.spec_bytes() == line.spec_bytes().subrange(r.1 as int, line.spec_bytes().len() as int),
{
    let b = line.as_bytes();
    let n = b.len();
    let k: usize = if n >= 2 && b[0] == GT && b[1] == 0x20 {
        2
    } else if n >= 1 && b[0] == GT {
        1
    } else {
        0
    };
    proof {
        let s = line.spec_bytes();
        encode_utf8_valid_utf8(line@);
        is_char_boundary_start_end_of_seq(s);
        if k > 0 {
            assert(crate::text::ascii_adjacent(s, k as int));
            crate::text::lemma_ascii_adjacent_is_boundary(s, k as int);
        }
    }
    (substr(line, k, n), k)
}

/// Turns the pending inline nodes into a paragraph appended to `children`.
fn flush_paragraph(
    children: &mut Vec<AstNode>,
    current_para: &mut Vec<AstNode>,
    Ghost(buf): Ghost<Seq<u8>>,
    Ghost(lo): Ghost<int>,
    Ghost(mid): Ghost<int>,
    Ghost(hi): Ghost<int>,
)
    requires
        valid_utf8(buf),
        lo <= mid <= hi,
        blocks_ok(old(children)@, buf, lo, mid),
        blocks_ok(old(current_para)@, buf, mid, hi),
    ensures
        blocks_ok(final(children)@, buf, lo, hi),
        final(current_para)@.len() == 0,
        view_nodes(final(children)@) == close_para_v(
            view_nodes(old(children)@),
            view_nodes(old(current_para)@),
        ),
        old(current_para)@.len() == 0 ==> final(children)@ == old(children)@,
        forall|i: int| 0 <= i < old(children)@.len() ==> final(children)@[i] == old(children)@[i],
        old(current_para)@.len() > 0 ==> {
            &&& final(children)@.len() == old(children)@.len() + 1
            &&& final(children)@.drop_last() == old(children)@
            &&& block_node(
                final(children)@.last(),
                AstKind::Paragraph,
                old(current_para)@[0].span.start as int,
                old(current_para)@.last().span.end as int,
            )
            &&& final(children)@.last().children@ == old(current_para)@
        },
{
    if current_para.len() == 0 {
        proof {
            assert(blocks_ok(children@, buf, lo, hi)) by {
                assert forall|i: int| 0 <= i < children@.len() implies within(#[trigger] children@[i], lo, hi) by {
                    assert(within(children@[i], lo, mid));
                }
            }
        }
        return;
    }
    let start = current_para[0].span.start;
    let end = current_para[current_para.len() - 1].span.end;
    let mut taken: Vec<AstNode> = Vec::new();
    std::mem::swap(current_para, &mut taken);
    let ghost cp = taken@;
    let paragraph = AstNode {
        kind: AstKind::Paragraph,
        span: Span { start, end },
        attrs: None,
        children: taken,
    };
    proof {
        let m = cp.len();
        assert(within(cp[0], mid, hi));
        assert(within(cp[m - 1], mid, hi));
        assert forall|i: int| 0 <= i < m implies within(#[trigger] cp[i], start as int, end as int) by {
            assert(within(cp[i], mid, hi));
            if i > 0 {
                assert(cp[0].span.end <= cp[i].span.start);
                assert(within(cp[0], mid, hi));
            }
            if i < m - 1 {
                assert(cp[i].span.end <= cp[m - 1].span.start);
            }
        }
        assert(blocks_ok(paragraph.children@, buf, start as int, end as int));
        lemma_valid_subrange(buf, start as int, end as int);
        assert(block_ok(paragraph, buf));
        lemma_block_ok_nested(paragraph, buf);
        assert(blocks_ok(seq![paragraph], buf, mid, hi));
        lemma_blocks_concat(children@, seq![paragraph], buf, lo, mid, mid, hi);
    }
    let ghost before = children@;
    children.push(paragraph);
    proof {
        assert(before + seq![paragraph] =~= children@);
        assert(children@.drop_last() =~= before);
        assert(children@[before.len() as int] == paragraph);
        lemma_view_children(paragraph);
        assert(view_nodes(children@) =~= view_nodes(before).push(view_node(paragraph)));
    }
}

} // verus!
