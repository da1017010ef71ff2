//! Parsing of the markup into a document tree.
use crate::ast::{in_order, nested, resolves, within, AstKind, AstNode, Span};
use crate::parser::block::{
    block_node, block_ok, lemma_block_ok_nested, para_v, parse_block, quote_line, quote_v, GT,
};
use crate::parser::context::{
    is_blank, line_blank_of, line_of, line_table, lines_of, normalized, Context, Range,
    CR, LF,
};
use crate::parser::inline::{markup_free, plain_leaf, view_node, view_nodes, NodeV};
use crate::text::all_white_space;
use vstd::prelude::*;
use vstd::string::StringSliceAdditionalSpecFns;
use vstd::utf8::*;

pub mod block;
pub mod context;
pub mod inline;

verus! {

broadcast use vstd::seq::group_seq_axioms;

/// The first line from `k` that is blank, or the end of the table.
pub open spec fn para_end(t: Seq<u8>, r: Seq<Range>, k: int) -> int
    decreases r.len() - k,
{
    if k < 0 || k >= r.len() || line_blank_of(t, r, k) {
        k
    } else {
        para_end(t, r, k + 1)
    }
}

/// The first line from `k` that does not start with `>`, or the end of the table.
pub open spec fn quote_end(t: Seq<u8>, r: Seq<Range>, k: int) -> int
    decreases r.len() - k,
{
    if k < 0 || k >= r.len() || !quote_line(line_of(t, r, k)) {
        k
    } else {
        quote_end(t, r, k + 1)
    }
}

/// The blocks of lines `k` onward of the table `r` over `t`: blank lines are
/// skipped; a line starting with `>` opens a block quote over the run of such
/// lines; any other line opens a paragraph over the run of non-blank lines.
pub open spec fn doc_blocks(t: Seq<u8>, r: Seq<Range>, k: int) -> Seq<NodeV>
    decreases r.len() - k,
    via doc_blocks_decreases
{
    if k < 0 || k >= r.len() {
        Seq::empty()
    } else if line_blank_of(t, r, k) {
        doc_blocks(t, r, k + 1)
    } else if quote_line(line_of(t, r, k)) {
        let q = quote_end(t, r, k);
        seq![quote_v(t, r, k, q)] + doc_blocks(t, r, q)
    } else {
        let q = para_end(t, r, k);
        seq![para_v(t, r, k, q)] + doc_blocks(t, r, q)
    }
}

proof fn lemma_para_end(t: Seq<u8>, r: Seq<Range>, k: int, q: int)
    requires
        0 <= k <= q <= r.len(),
        forall|i: int| k <= i < q ==> !line_blank_of(t, r, i),
        q == r.len() || line_blank_of(t, r, q),
    ensures
        para_end(t, r, k) == q,
    decreases q - k,
{
    if k < q {
        lemma_para_end(t, r, k + 1, q);
    }
}

proof fn lemma_quote_end(t: Seq<u8>, r: Seq<Range>, k: int, q: int)
    requires
        0 <= k <= q <= r.len(),
        forall|i: int| k <= i < q ==> quote_line(#[trigger] line_of(t, r, i)),
        q == r.len() || !quote_line(line_of(t, r, q)),
    ensures
        quote_end(t, r, k) == q,
    decreases q - k,
{
    if k < q {
        lemma_quote_end(t, r, k + 1, q);
    }
}

proof fn lemma_ends_bounds(t: Seq<u8>, r: Seq<Range>, k: int)
    requires
        0 <= k <= r.len(),
    ensures
        k <= para_end(t, r, k) <= r.len(),
        k <= quote_end(t, r, k) <= r.len(),
    decreases r.len() - k,
{
    if k < r.len() {
        lemma_ends_bounds(t, r, k + 1);
    }
}

#[via_fn]
proof fn doc_blocks_decreases(t: Seq<u8>, r: Seq<Range>, k: int) {
    if 0 <= k < r.len() {
        lemma_ends_bounds(t, r, k + 1);
    }
}

/// Every line of the text `b` is empty or white space only.
pub open spec fn all_lines_blank(b: Seq<u8>) -> bool {
    forall|j: int| 0 <= j < lines_of(b).len() ==> line_blank_of(b, lines_of(b), j)
}

/// One line of plain text: not blank, no line break, no byte that can begin
/// inline markup, and no quote marker in front.
pub open spec fn plain_line(b: Seq<u8>) -> bool {
    &&& b.len() > 0
    &&& forall|i: int| 0 <= i < b.len() ==> #[trigger] b[i] != LF && b[i] != CR
    &&& markup_free(b)
    &&& b[0] != GT
    &&& !all_white_space(decode_utf8(b))
}

/// The document of one plain line: a single paragraph holding one plain text
/// node, both over the whole text.
pub open spec fn single_paragraph(r: AstNode, n: int) -> bool {
    &&& r.children.len() == 1
    &&& block_node(r.children@[0], AstKind::Paragraph, 0, n)
    &&& r.children@[0].children.len() == 1
    &&& plain_leaf(r.children@[0].children@[0], 0, n)
}

/// Text without carriage returns is left as it is by normalization.
pub proof fn lemma_normalized_without_cr(b: Seq<u8>)
    requires
        forall|i: int| 0 <= i < b.len() ==> #[trigger] b[i] != CR,
    ensures
        normalized(b) == b,
    decreases b.len(),
{
    if b.len() > 0 {
        let t = b.subrange(1, b.len() as int);
        assert forall|i: int| 0 <= i < t.len() implies #[trigger] t[i] != CR by {
            assert(t[i] == b[i + 1]);
        }
        lemma_normalized_without_cr(t);
        assert(seq![b[0]] + t =~= b);
    }
}

/// Parses a whole document. Spans of the blocks address the text with its line
/// breaks normalized to LF; the document's own span covers the text as given.
#[verifier::rlimit(40)]
pub fn parse_document(content: &str) -> (r: AstNode)
    ensures
        r.kind == AstKind::Document,
        r.span == (Span { start: 0, end: content.spec_bytes().len() as usize }),
        r.attrs.is_none(),
        nested(r),
        forall|i: int|
            0 <= i < r.children.len() ==> {
                &&& resolves(#[trigger] r.children@[i], normalized(content.spec_bytes()))
                &&& (r.children@[i].kind == AstKind::Paragraph || r.children@[i].kind
                    == AstKind::BlockQuote)
            },
        content.spec_bytes().len() == 0 ==> r.children.len() == 0,
        all_lines_blank(normalized(content.spec_bytes())) ==> r.children.len() == 0,
        (forall|i: int|
            0 <= i < content.spec_bytes().len() ==> #[trigger] content.spec_bytes()[i] != CR)
            ==> resolves(r, content.spec_bytes()),
        plain_line(content.spec_bytes()) ==> single_paragraph(r, content.spec_bytes().len() as int),
        view_nodes(r.children@) == doc_blocks(
            normalized(content.spec_bytes()),
            lines_of(normalized(content.spec_bytes())),
            0,
        ),
{
    let mut ctx: Context = Context::new(content);
    let ghost c0 = ctx;
    let ghost text = ctx.text();
    let ghost b = content.spec_bytes();
    let mut children: Vec<AstNode> = Vec::new();
    proof {
        assert(view_nodes(children@) + doc_blocks(text, c0.line_range@, 0) =~= doc_blocks(
            text,
            c0.line_range@,
            0,
        ));
        ctx.lemma_text_valid();
        lemma_normalized_len(b);
        if plain_line(b) {
            lemma_plain_line_context(c0, b);
        }
        if b.len() == 0 {
            reveal(line_table);
            assert(c0.num_lines() == 0);
        }
    }
    while !ctx.is_eof()
        invariant
            ctx.wf(),
            ctx.same_lines(&c0),
            c0.wf(),
            c0.cur_line_position == 0,
            text == c0.text(),
            text == normalized(b),
            c0.line_range@ == lines_of(text),
            text.len() <= b.len(),
            in_order(children@),
            forall|i: int|
                0 <= i < children@.len() ==> {
                    &&& block_ok(#[trigger] children@[i], text)
                    &&& within(children@[i], 0, ctx.cursor_offset())
                    &&& (children@[i].kind == AstKind::Paragraph || children@[i].kind
                        == AstKind::BlockQuote)
                },
            all_lines_blank(text) ==> children@.len() == 0,
            plain_line(b) ==> {
                &&& c0.num_lines() == 1
                &&& c0.line(0) == b
                &&& c0.line_start(0) == 0
                &&& c0.line_content_end(0) == b.len()
                &&& ctx.cur_line_position == 0 ==> children@.len() == 0
                &&& ctx.cur_line_position == 1 ==> single_paragraph_nodes(children@, b.len() as int)
            },
            view_nodes(children@) + doc_blocks(text, c0.line_range@, ctx.cur_line_position as int)
                == doc_blocks(text, c0.line_range@, 0),
        decreases c0.num_lines() - ctx.cur_line_position,
    {
        let ghost c1 = ctx;
        let ghost j = ctx.cur_line_position as int;
        if is_blank(ctx.current_line()) {
            ctx.advance();
            proof {
                c0.lemma_line_bounds(j);
                if j + 1 < c0.num_lines() {
                    c0.lemma_line_bounds(j + 1);
                }
                assert forall|i: int| 0 <= i < children@.len() implies within(
                    #[trigger] children@[i],
                    0,
                    ctx.cursor_offset(),
                ) by {
                    assert(within(children@[i], 0, c1.cursor_offset()));
                }
                if plain_line(b) {
                    assert(c0.line_chars(0) == decode_utf8(b));
                }
                assert(doc_blocks(text, c0.line_range@, j) == doc_blocks(text, c0.line_range@, j + 1));
            }
            continue;
        }
        proof {
            c0.lemma_line_bounds(j);
            if all_lines_blank(text) {
                assert(line_blank_of(text, lines_of(text), j));
            }
        }
        let ghost before = children@;
        let ghost cpre = ctx;
        let block = parse_block(&mut ctx);
        let ghost blk = block;
        children.push(block);
        proof {
            assert(children@ == before.push(blk));
            lemma_block_ok_nested(blk, text);
            assert forall|i: int, k: int| 0 <= i < k < children@.len() implies #[trigger] children@[i].span.end
                <= #[trigger] children@[k].span.start by {
                if k < before.len() {
                    assert(children@[i] == before[i] && children@[k] == before[k]);
                } else {
                    assert(children@[i] == before[i]);
                    assert(within(before[i], 0, c1.cursor_offset()));
                }
            }
            assert forall|i: int| 0 <= i < children@.len() implies {
                &&& block_ok(#[trigger] children@[i], text)
                &&& within(children@[i], 0, ctx.cursor_offset())
                &&& (children@[i].kind == AstKind::Paragraph || children@[i].kind
                    == AstKind::BlockQuote)
            } by {
                if i < before.len() {
                    assert(children@[i] == before[i]);
                    assert(within(before[i], 0, c1.cursor_offset()));
                    if ctx.cur_line_position < c0.num_lines() {
                        c0.lemma_line_bounds(ctx.cur_line_position as int);
                    }
                    lemma_cursor_offset_grows(c0, j, ctx.cur_line_position as int);
                }
            }
            if plain_line(b) {
                assert(c0.line_chars(0) == decode_utf8(b));
                assert(!quote_line(c0.line(0)));
                assert(markup_free(c0.line(0)));
                assert(single_paragraph_nodes(children@, b.len() as int));
            }
            let q = ctx.cur_line_position as int;
            let rr = c0.line_range@;
            assert(cpre.text() == text && cpre.line_range@ == rr);
            if quote_line(c0.line(j)) {
                assert forall|i: int| j <= i < q implies quote_line(#[trigger] line_of(text, rr, i)) by {
                    assert(quote_line(cpre.line(i)));
                }
                lemma_quote_end(text, rr, j, q);
            } else {
                assert forall|i: int| j <= i < q implies !line_blank_of(text, rr, i) by {
                    assert(!cpre.line_blank(i));
                }
                lemma_para_end(text, rr, j, q);
            }
            assert(doc_blocks(text, rr, j) == seq![view_node(blk)] + doc_blocks(text, rr, q));
            assert(view_nodes(children@) =~= view_nodes(before).push(view_node(blk)));
            assert(view_nodes(children@) + doc_blocks(text, rr, q) =~= view_nodes(before) + doc_blocks(
                text,
                rr,
                j,
            ));
        }
    }
    let len = content.as_bytes().len();
    let r = AstNode {
        kind: AstKind::Document,
        span: Span { start: 0, end: len },
        attrs: None,
        children,
    };
    proof {
        assert forall|i: int| 0 <= i < r.children.len() implies {
            &&& r.span.start <= (#[trigger] r.children@[i]).span.start
            &&& r.children@[i].span.end <= r.span.end
            &&& nested(r.children@[i])
        } by {
            assert(block_ok(r.children@[i], text));
            assert(within(r.children@[i], 0, ctx.cursor_offset()));
            lemma_block_ok_nested(r.children@[i], text);
        }
        assert forall|i: int| 0 <= i < r.children.len() implies resolves(
            #[trigger] r.children@[i],
            text,
        ) by {
            lemma_block_ok_nested(r.children@[i], text);
        }
        assert(view_nodes(r.children@) + Seq::<NodeV>::empty() =~= view_nodes(r.children@));
        assert(line_table(text, c0.line_range@));
        if forall|i: int| 0 <= i < b.len() ==> #[trigger] b[i] != CR {
            lemma_normalized_without_cr(b);
            assert(b.subrange(0, b.len() as int) =~= b);
        }
    }
    r
}

/// The nodes of a document of one plain line: see `single_paragraph`.
pub open spec fn single_paragraph_nodes(ns: Seq<AstNode>, n: int) -> bool {
    &&& ns.len() == 1
    &&& block_node(ns[0], AstKind::Paragraph, 0, n)
    &&& ns[0].children.len() == 1
    &&& plain_leaf(ns[0].children@[0], 0, n)
}

/// Normalization never lengthens the text.
pub proof fn lemma_normalized_len(b: Seq<u8>)
    ensures
        normalized(b).len() <= b.len(),
    decreases b.len(),
{
    if b.len() > 0 {
        if b[0] == CR && b.len() >= 2 && b[1] == LF {
            lemma_normalized_len(b.subrange(2, b.len() as int));
        } else {
            lemma_normalized_len(b.subrange(1, b.len() as int));
        }
    }
}

/// The cursor's offset only moves forward.
proof fn lemma_cursor_offset_grows(c: Context, j: int, k: int)
    requires
        c.wf(),
        0 <= j <= k <= c.num_lines(),
        j < c.num_lines(),
    ensures
        c.line_start(j) <= (if k < c.num_lines() { c.line_start(k) } else { c.text().len() as int }),
    decreases k - j,
{
    c.lemma_line_bounds(j);
    if j < k {
        if j + 1 < c.num_lines() {
            c.lemma_line_bounds(j + 1);
            lemma_cursor_offset_grows(c, j + 1, k);
        }
    }
}

/// A plain line is a context of one line: the whole text.
proof fn lemma_plain_line_context(c: Context, b: Seq<u8>)
    requires
        c.wf(),
        c.text() == normalized(b),
        plain_line(b),
    ensures
        c.num_lines() == 1,
        c.line(0) == b,
        c.line_start(0) == 0,
        c.line_content_end(0) == b.len(),
{
    lemma_normalized_without_cr(b);
    reveal(line_table);
    let r = c.line_range@;
    assert(r.len() > 0);
    if r.len() > 1 {
        context::lemma_line_range_bounds(b, r, 0);
        assert(b[r[0].end - 1] == LF);
    }
    assert(r[0].start == 0 && r[0].end == b.len());
    assert(b.subrange(0, b.len() as int) =~= b);
}

} // verus!
