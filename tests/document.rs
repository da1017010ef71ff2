use oxjot::ast::{AstKind, AstNode, Span};
use oxjot::parser::parse_document;
use oxjot::render::convert_ast_to_html;

fn html_of(text: &str) -> String {
    let doc = parse_document(text);
    convert_ast_to_html(&doc, text.as_bytes())
}

fn check_nested(node: &AstNode) {
    assert!(node.span.start <= node.span.end);
    for child in &node.children {
        assert!(child.span.start >= node.span.start);
        assert!(child.span.end <= node.span.end);
        check_nested(child);
    }
}

#[test]
fn multiple_blocks() {
    let line = "first\n\nsecond\n";

    let actual = parse_document(line);
    let expect = AstNode {
        kind: AstKind::Document,
        span: Span { start: 0, end: 14 },
        attrs: None,
        children: vec![
            AstNode {
                kind: AstKind::Paragraph,
                span: Span { start: 0, end: 5 },
                attrs: None,
                children: vec![AstNode {
                    kind: AstKind::PlainText,
                    span: Span { start: 0, end: 5 },
                    attrs: None,
                    children: vec![],
                }],
            },
            AstNode {
                kind: AstKind::Paragraph,
                span: Span { start: 7, end: 13 },
                attrs: None,
                children: vec![AstNode {
                    kind: AstKind::PlainText,
                    span: Span { start: 7, end: 13 },
                    attrs: None,
                    children: vec![],
                }],
            },
        ],
    };
    assert_eq!(expect, actual)
}

#[test]
fn empty_and_blank_documents_have_no_children() {
    assert_eq!(parse_document("").children.len(), 0);
    let doc = parse_document("  \n\t\n\n");
    assert_eq!(doc.children.len(), 0);
    assert_eq!(doc.span, Span { start: 0, end: 6 });
}

#[test]
fn spans_nest_in_a_mixed_document() {
    let text = "A _b *c* d_ [l](u) `x`\n\n> q {=m=}\n>\n> ![i](p)\n\n$`y`";
    let doc = parse_document(text);
    check_nested(&doc);
    assert_eq!(doc.children.len(), 3);
    assert_eq!(doc.children[1].kind, AstKind::BlockQuote);
}

#[test]
fn plain_text_round_trips() {
    let text = "Just some plain words.";
    assert_eq!(html_of(text), format!("<p>{text}</p>"));
}

#[test]
fn paragraphs_render_separately() {
    assert_eq!(html_of("one\n\ntwo"), "<p>one</p><p>two</p>");
}

#[test]
fn render_link_and_image() {
    assert_eq!(html_of("[text](http://x)"), "<p><a href=\"http://x\">text</a></p>");
    assert_eq!(html_of("![a cat](cat.jpg)"), "<p><img alt=\"a cat\" src=\"cat.jpg\"></p>");
    assert_eq!(html_of("[]()"), "<p><a href=\"\"></a></p>");
}

#[test]
fn render_formatting_nodes() {
    assert_eq!(html_of("_a_ *b* ~c~ ^d^"), "<p><em>a</em> <strong>b</strong> <sub>c</sub> <sup>d</sup></p>");
    assert_eq!(html_of("{=m=}{+i+}{-d-}"), "<p><mark>m</mark><ins>i</ins><del>d</del></p>");
    assert_eq!(html_of("`c`"), "<p><code>c</code></p>");
    assert_eq!(html_of("_*both*_"), "<p><em><strong>both</strong></em></p>");
}

#[test]
fn render_math() {
    assert_eq!(html_of("$`x`"), "<p><span class=\"math inline\">\\(x\\)</span></p>");
    assert_eq!(html_of("$$`y`"), "<p><span class=\"math display\">\\[y\\]</span></p>");
}

#[test]
fn render_block_quote_without_wrapper() {
    assert_eq!(html_of("> a\n>\n> b"), "<p>a</p><p>b</p>");
}

#[test]
fn render_leaf_formatting_falls_back_to_span_text() {
    let text = "hello";
    let node = AstNode { kind: AstKind::Emph, span: Span { start: 1, end: 4 }, attrs: None, children: vec![] };
    assert_eq!(convert_ast_to_html(&node, text.as_bytes()), "<em>ell</em>");
    let other = AstNode { kind: AstKind::ThematicBreak, span: Span { start: 0, end: 5 }, attrs: None, children: vec![] };
    assert_eq!(convert_ast_to_html(&other, text.as_bytes()), "");
}

#[test]
fn text_view_resolves_span() {
    let text = "héllo";
    let node = AstNode { kind: AstKind::PlainText, span: Span { start: 0, end: 3 }, attrs: None, children: vec![] };
    assert_eq!(node.text_view(text.as_bytes()), Some("hé"));
    assert_eq!(node.span.as_str(text.as_bytes()), "hé");
}

#[test]
fn crlf_document_spans_address_normalized_text() {
    let doc = parse_document("a\r\nb");
    assert_eq!(doc.span, Span { start: 0, end: 4 });
    assert_eq!(doc.children.len(), 1);
    let para = &doc.children[0];
    assert_eq!(para.span, Span { start: 0, end: 3 });
    assert_eq!(para.children.len(), 2);
    assert_eq!(para.children[0].span, Span { start: 0, end: 1 });
    assert_eq!(para.children[1].span, Span { start: 2, end: 3 });
}

#[test]
fn lines_of_one_paragraph_render_joined() {
    assert_eq!(html_of("a\nb"), "<p>ab</p>");
}

#[test]
fn quote_then_paragraph_are_separate_blocks() {
    let doc = parse_document("> q\nplain");
    assert_eq!(doc.children.len(), 2);
    assert_eq!(doc.children[0].kind, AstKind::BlockQuote);
    assert_eq!(doc.children[1].kind, AstKind::Paragraph);
    assert_eq!(doc.children[1].span, Span { start: 4, end: 9 });
}
