//! Rendering of a document tree to HTML. Text is written as it stands in the
//! source, without escaping.
use crate::ast::{resolves, span_text, AstKind, AstNode, Span};
use vstd::prelude::*;
use vstd::string::StringExecFns;

verus! {

/// The HTML of `node`, whose spans address `src`.
pub open spec fn html(node: AstNode, src: Seq<u8>) -> Seq<char>
    decreases node, 1int, 0int,
{
    match node.kind {
        AstKind::Paragraph => "<p>"@ + html_list(node, node.children.len() as int, src) + "</p>"@,
        AstKind::PlainText => span_text(node.span, src),
        AstKind::Emph => "<em>"@ + inner_or_text(node, src) + "</em>"@,
        AstKind::Strong => "<strong>"@ + inner_or_text(node, src) + "</strong>"@,
        AstKind::Mark => "<mark>"@ + inner_or_text(node, src) + "</mark>"@,
        AstKind::Insert => "<ins>"@ + inner_or_text(node, src) + "</ins>"@,
        AstKind::Delete => "<del>"@ + inner_or_text(node, src) + "</del>"@,
        AstKind::Sub => "<sub>"@ + inner_or_text(node, src) + "</sub>"@,
        AstKind::Sup => "<sup>"@ + inner_or_text(node, src) + "</sup>"@,
        AstKind::Code => "<code>"@ + span_text(node.span, src) + "</code>"@,
        AstKind::Link { dest_span, .. } => "<a href=\""@ + dest_text(dest_span, src) + "\">"@
            + html_list(node, node.children.len() as int, src) + "</a>"@,
        AstKind::Image { dest_span, .. } => "<img alt=\""@ + alt_text(
            node,
            node.children.len() as int,
            src,
        ) + "\" src=\""@ + dest_text(dest_span, src) + "\">"@,
        AstKind::MathInline => "<span class=\"math inline\">\\("@ + inner_or_text(node, src)
            + "\\)</span>"@,
        AstKind::MathDisplay => "<span class=\"math display\">\\["@ + inner_or_text(node, src)
            + "\\]</span>"@,
        _ => html_list(node, node.children.len() as int, src),
    }
}

/// The HTML of the first `k` children of `node`, one after another.
pub open spec fn html_list(node: AstNode, k: int, src: Seq<u8>) -> Seq<char>
    decreases node, 0int, k,
{
    if k <= 0 || k > node.children.len() {
        Seq::empty()
    } else {
        html_list(node, k - 1, src) + html(node.children@[k - 1], src)
    }
}

/// The children's HTML, or the node's own text when it has no children.
pub open spec fn inner_or_text(node: AstNode, src: Seq<u8>) -> Seq<char>
    decreases node, 0int, node.children.len() + 1,
{
    if node.children.len() > 0 {
        html_list(node, node.children.len() as int, src)
    } else {
        span_text(node.span, src)
    }
}

/// The text of a destination, or nothing when there is none.
pub open spec fn dest_text(d: Option<Span>, src: Seq<u8>) -> Seq<char> {
    match d {
        Some(s) => span_text(s, src),
        None => Seq::empty(),
    }
}

/// The span texts of the first `k` children of an image, one after another.
pub open spec fn alt_text(node: AstNode, k: int, src: Seq<u8>) -> Seq<char>
    decreases k,
{
    if k <= 0 || k > node.children.len() {
        Seq::empty()
    } else {
        alt_text(node, k - 1, src) + span_text(node.children@[k - 1].span, src)
    }
}

/// Renders `node`, whose spans address `source`, to HTML.
pub fn convert_ast_to_html(node: &AstNode, source: &[u8]) -> (r: String)
    requires
        resolves(*node, source@),
    ensures
        r@ == html(*node, source@),
{
    let mut out = String::new();
    render_node(node, source, &mut out);
    proof {
        assert(out@ =~= html(*node, source@));
    }
    out
}

fn render_node(node: &AstNode, src: &[u8], out: &mut String)
    requires
        resolves(*node, src@),
    ensures
        final(out)@ == old(out)@ + html(*node, src@),
    decreases node, 1int,
{
    let ghost o = out@;
    match &node.kind {
        AstKind::Paragraph => {
            out.append("<p>");
            render_children(node, src, out);
            out.append("</p>");
        },
        AstKind::PlainText => {
            out.append(node.span.as_str(src));
        },
        AstKind::Emph => {
            wrap_inner(node, src, out, "<em>", "</em>");
        },
        AstKind::Strong => {
            wrap_inner(node, src, out, "<strong>", "</strong>");
        },
        AstKind::Mark => {
            wrap_inner(node, src, out, "<mark>", "</mark>");
        },
        AstKind::Insert => {
            wrap_inner(node, src, out, "<ins>", "</ins>");
        },
        AstKind::Delete => {
            wrap_inner(node, src, out, "<del>", "</del>");
        },
        AstKind::Sub => {
            wrap_inner(node, src, out, "<sub>", "</sub>");
        },
        AstKind::Sup => {
            wrap_inner(node, src, out, "<sup>", "</sup>");
        },
        AstKind::Code => {
            out.append("<code>");
            out.append(node.span.as_str(src));
            out.append("</code>");
        },
        AstKind::Link { dest_span, .. } => {
            out.append("<a href=\"");
            append_dest(*dest_span, src, out);
            out.append("\">");
            render_children(node, src, out);
            out.append("</a>");
        },
        AstKind::Image { dest_span, .. } => {
            out.append("<img alt=\"");
            let mut i: usize = 0;
            while i < node.children.len()
                invariant
                    resolves(*node, src@),
                    i <= node.children.len(),
                    out@ == o + "<img alt=\""@ + alt_text(*node, i as int, src@),
                decreases node.children.len() - i,
            {
                proof {
                    assert(resolves(node.children@[i as int], src@));
                }
                out.append(node.children[i].span.as_str(src));
                i = i + 1;
            }
            out.append("\" src=\"");
            append_dest(*dest_span, src, out);
            out.append("\">");
        },
        AstKind::MathInline => {
            wrap_inner(node, src, out, "<span class=\"math inline\">\\(", "\\)</span>");
        },
        AstKind::MathDisplay => {
            wrap_inner(node, src, out, "<span class=\"math display\">\\[", "\\]</span>");
        },
        _ => {
            render_children(node, src, out);
        },
    }
    proof {
        assert(out@ =~= o + html(*node, src@));
    }
}

/// Writes `open`, then the children or the node's own text, then `close`.
fn wrap_inner(node: &AstNode, src: &[u8], out: &mut String, open: &str, close: &str)
    requires
        resolves(*node, src@),
    ensures
        final(out)@ == old(out)@ + open@ + inner_or_text(*node, src@) + close@,
    decreases node, 0int, 1int,
{
    let ghost o = out@;
    out.append(open);
    if node.children.len() > 0 {
        render_children(node, src, out);
    } else {
        out.append(node.span.as_str(src));
    }
    out.append(close);
    proof {
        assert(out@ =~= o + open@ + inner_or_text(*node, src@) + close@);
    }
}

fn render_children(node: &AstNode, src: &[u8], out: &mut String)
    requires
        resolves(*node, src@),
    ensures
        final(out)@ == old(out)@ + html_list(*node, node.children.len() as int, src@),
    decreases node, 0int, 0int,
{
    let ghost o = out@;
    let mut i: usize = 0;
    while i < node.children.len()
        invariant
            resolves(*node, src@),
            i <= node.children.len(),
            out@ == o + html_list(*node, i as int, src@),
        decreases node.children.len() - i,
    {
        proof {
            assert(resolves(node.children@[i as int], src@));
        }
        render_node(&node.children[i], src, out);
        proof {
            assert(out@ =~= o + html_list(*node, i + 1, src@));
        }
        i = i + 1;
    }
}

fn append_dest(d: Option<Span>, src: &[u8], out: &mut String)
    requires
        d matches Some(s) ==> crate::ast::span_resolves(s, src@),
    ensures
        final(out)@ == old(out)@ + dest_text(d, src@),
{
    let ghost o = out@;
    match d {
        Some(s) => {
            out.append(s.as_str(src));
        },
        None => {},
    }
    proof {
        assert(out@ =~= o + dest_text(d, src@));
    }
}

} // verus!
