use oxjot::ast::{AstKind, AstNode, Span};
use oxjot::parser::block::parse_block;
use oxjot::parser::context::Context;

#[test]
fn simple_paragraph() {
    let line = "This is a simple line.";
    let mut ctx = Context::new(line);

    let actual = parse_block(&mut ctx);
    let expect = AstNode {
        kind: AstKind::Paragraph,
        span: Span { start: 0, end: 22 },
        attrs: None,
        children: vec![AstNode {
            kind: AstKind::PlainText,
            span: Span { start: 0, end: 22 },
            attrs: None,
            children: vec![],
        }],
    };
    assert_eq!(expect, actual);
}

#[test]
fn block_quote_with_multiple_paragraphs() {
    let src = "> This is a line\n> This is another line\n> This is the third line\n>\n> This is another paragraph.\n";

    let mut ctx = Context::new(src);
    let actual = parse_block(&mut ctx);

    assert_eq!(actual.kind, AstKind::BlockQuote);
    assert_eq!(actual.children.len(), 2);

    let first_para = &actual.children[0];
    assert_eq!(first_para.kind, AstKind::Paragraph);
    assert_eq!(first_para.children.len(), 3);
    let bytes = src.as_bytes();
    assert_eq!(first_para.children[0].span.as_str(bytes), "This is a line");
    assert_eq!(first_para.children[1].span.as_str(bytes), "This is another line");
    assert_eq!(first_para.children[2].span.as_str(bytes), "This is the third line");

    let second_para = &actual.children[1];
    assert_eq!(second_para.kind, AstKind::Paragraph);
    assert_eq!(second_para.children.len(), 1);
    assert_eq!(second_para.children[0].span.as_str(bytes), "This is another paragraph.");
}

#[test]
fn paragraph_span_ends_after_last_line_content() {
    let src = "ab\ncd\n\nef";
    let mut ctx = Context::new(src);
    let para = parse_block(&mut ctx);
    assert_eq!(para.kind, AstKind::Paragraph);
    assert_eq!(para.span, Span { start: 0, end: 5 });
    assert_eq!(para.children.len(), 2);
    assert_eq!(ctx.cur_line_position, 2);
}

#[test]
fn quote_span_covers_its_lines_and_stops_at_other_text() {
    let src = "> a\n>\n> b\nc";
    let mut ctx = Context::new(src);
    let quote = parse_block(&mut ctx);
    assert_eq!(quote.kind, AstKind::BlockQuote);
    assert_eq!(quote.span, Span { start: 0, end: 10 });
    assert_eq!(quote.children.len(), 2);
    assert_eq!(quote.children[0].span, Span { start: 2, end: 3 });
    assert_eq!(quote.children[1].span, Span { start: 8, end: 9 });
    assert_eq!(ctx.cur_line_position, 3);
    assert_eq!(ctx.current_line(), "c");
}

#[test]
fn quote_marker_without_space_is_stripped() {
    let src = ">x";
    let mut ctx = Context::new(src);
    let quote = parse_block(&mut ctx);
    assert_eq!(quote.children.len(), 1);
    assert_eq!(quote.children[0].children[0].span, Span { start: 1, end: 2 });
}
