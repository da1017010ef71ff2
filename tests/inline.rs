use oxjot::ast::{AstKind, AstNode, Span};
use oxjot::parser::inline::parse_inline;

fn plain(start: usize, end: usize) -> AstNode {
    AstNode { kind: AstKind::PlainText, span: Span { start, end }, attrs: None, children: vec![] }
}

fn with_children(kind: AstKind, start: usize, end: usize, children: Vec<AstNode>) -> AstNode {
    AstNode { kind, span: Span { start, end }, attrs: None, children }
}

fn code(start: usize, end: usize) -> AstNode {
    with_children(AstKind::Code, start, end, vec![])
}

fn link_like(image: bool, ls: usize, le: usize, ds: usize, de: usize, children: Vec<AstNode>) -> AstNode {
    let dest_span = Some(Span { start: ds, end: de });
    let kind = if image {
        AstKind::Image { dest_span, title_span: None }
    } else {
        AstKind::Link { dest_span, title_span: None }
    };
    AstNode { kind, span: Span { start: ls, end: le }, attrs: None, children }
}

#[test]
fn simple_text() {
    let line = "This is a simple line.";
    let actual = parse_inline(line, 0);
    let expect = vec![plain(0, 22)];
    assert_eq!(expect, actual);
}

#[test]
fn spans_offset_is_applied() {
    let line = "offset";
    let actual = parse_inline(line, 5);
    let expect = vec![plain(5, 11)];
    assert_eq!(expect, actual);
}

#[test]
fn single_char_delimiters_make_their_nodes() {
    for (delim, kind) in [
        ("_", AstKind::Emph),
        ("*", AstKind::Strong),
        ("~", AstKind::Sub),
        ("^", AstKind::Sup),
    ] {
        let line = format!("{delim}some text{delim}");
        let actual = parse_inline(&line, 0);
        let expect = vec![with_children(kind, 1, 10, vec![plain(1, 10)])];
        assert_eq!(expect, actual);
    }
}

#[test]
fn multiple_nodes() {
    let line = "Text with _emphasized_.";
    let actual = parse_inline(line, 0);
    let expected = vec![
        plain(0, 10),
        with_children(AstKind::Emph, 11, 21, vec![plain(11, 21)]),
        plain(22, 23),
    ];
    assert_eq!(expected, actual);
}

#[test]
fn multi_char_delimiters_make_their_nodes() {
    for (line, kind, start, end) in [
        ("{=highlight=}", AstKind::Mark, 2, 11),
        ("{+insert+}", AstKind::Insert, 2, 8),
        ("{-remove-}", AstKind::Delete, 2, 8),
    ] {
        let actual = parse_inline(line, 0);
        let expected = vec![with_children(kind, start, end, vec![plain(start, end)])];
        assert_eq!(expected, actual);
    }
}

#[test]
fn multi_syntaxes_in_one_line() {
    let line = "_emphasized_ and *strong*";
    let actual = parse_inline(line, 0);
    let expected = vec![
        with_children(AstKind::Emph, 1, 11, vec![plain(1, 11)]),
        plain(12, 17),
        with_children(AstKind::Strong, 18, 24, vec![plain(18, 24)]),
    ];
    assert_eq!(expected, actual);
}

#[test]
fn nested_inline_nodes() {
    let line = "_*they can be nested*_";
    let actual = parse_inline(line, 0);
    let expected = vec![with_children(
        AstKind::Emph,
        1,
        21,
        vec![with_children(AstKind::Strong, 2, 20, vec![plain(2, 20)])],
    )];
    assert_eq!(expected, actual);
}

#[test]
fn inline_code_simple() {
    let line = "`code`";
    let actual = parse_inline(line, 0);
    let expected = vec![code(1, 5)];
    assert_eq!(expected, actual);
}

#[test]
fn inline_code_with_backtick_inside() {
    let line = "``Verbatim with a backtick` character``";
    let actual = parse_inline(line, 0);
    let expected = vec![code(2, line.len() - 2)];
    assert_eq!(expected, actual);
}

#[test]
fn inline_code_with_padding_for_backtick() {
    let line = "`` `foo` ``";
    let actual = parse_inline(line, 0);
    let expected = vec![code(3, 8)];
    assert_eq!(expected, actual);
}

#[test]
fn inline_code_unterminated_extends() {
    let line = "`foo bar";
    let actual = parse_inline(line, 0);
    let expected = vec![code(1, line.len())];
    assert_eq!(expected, actual);
}

#[test]
fn inline_math() {
    let line = "Einstein derived $`e=mc^2`.";
    let actual = parse_inline(line, 0);

    let dollar_pos = line.find('$').unwrap();
    let open_tick = line.find('`').unwrap();
    let close_tick = line.rfind('`').unwrap();
    let expected = vec![
        plain(0, dollar_pos),
        with_children(AstKind::MathInline, open_tick + 1, close_tick, vec![]),
        plain(close_tick + 1, line.len()),
    ];

    assert_eq!(expected, actual);
}

#[test]
fn display_math() {
    let line = "Pythagoras proved $$` x^n + y^n = z^n `";
    let actual = parse_inline(line, 0);

    let dollar_pos = line.find('$').unwrap();
    let open_tick = line.find('`').unwrap();
    let close_tick = line.rfind('`').unwrap();
    let expected = vec![
        plain(0, dollar_pos),
        with_children(AstKind::MathDisplay, open_tick + 1, close_tick, vec![]),
    ];

    assert_eq!(expected, actual);
}

#[test]
fn link_basic() {
    let line = "[My link text](http://example.com)";
    let actual = parse_inline(line, 0);

    let label_start = line.find('[').unwrap() + 1;
    let label_end = line.find(']').unwrap();
    let dest_start = line.find('(').unwrap() + 1;
    let dest_end = line.rfind(')').unwrap();

    let expected = vec![link_like(
        false,
        label_start,
        label_end,
        dest_start,
        dest_end,
        vec![plain(label_start, label_end)],
    )];

    assert_eq!(expected, actual);
}

#[test]
fn image_basic() {
    let line = "![picture of a cat](cat.jpg)";
    let actual = parse_inline(line, 0);

    let label_start = line.find('[').unwrap() + 1;
    let label_end = line.find(']').unwrap();
    let dest_start = line.find('(').unwrap() + 1;
    let dest_end = line.rfind(')').unwrap();

    let expected = vec![link_like(
        true,
        label_start,
        label_end,
        dest_start,
        dest_end,
        vec![plain(label_start, label_end)],
    )];

    assert_eq!(expected, actual);
}

#[test]
fn emphasis_spans_interior() {
    let actual = parse_inline("_emphasized_", 0);
    assert_eq!(actual, vec![with_children(AstKind::Emph, 1, 11, vec![plain(1, 11)])]);
    let actual = parse_inline("*strong*", 0);
    assert_eq!(actual, vec![with_children(AstKind::Strong, 1, 7, vec![plain(1, 7)])]);
}

#[test]
fn nested_emphasis_holds_one_strong() {
    let actual = parse_inline("_*both*_", 0);
    assert_eq!(
        actual,
        vec![with_children(AstKind::Emph, 1, 7, vec![with_children(AstKind::Strong, 2, 6, vec![plain(2, 6)])])]
    );
}

#[test]
fn unmatched_delimiter_degrades_to_text() {
    assert_eq!(parse_inline("_oops", 0), vec![plain(0, 5)]);
}

#[test]
fn unmatched_delimiter_rewinds_to_earliest_opener() {
    // `*b_c*` closes inside the unmatched `_`, but the whole rest of the line
    // from the earliest open delimiter becomes one text node.
    assert_eq!(parse_inline("a_b*c*", 0), vec![plain(0, 1), plain(1, 6)]);
}

#[test]
fn code_span_matches_exact_run() {
    let line = "``a`b``";
    let actual = parse_inline(line, 0);
    assert_eq!(actual, vec![code(2, 5)]);
    assert_eq!(&line[2..5], "a`b");
    let line = "`unterminated";
    assert_eq!(parse_inline(line, 0), vec![code(1, line.len())]);
}

#[test]
fn link_extraction() {
    let line = "[text](http://x)";
    let actual = parse_inline(line, 0);
    assert_eq!(actual, vec![link_like(false, 1, 5, 7, 15, vec![plain(1, 5)])]);
    assert_eq!(&line[7..15], "http://x");
}

#[test]
fn link_label_and_destination_are_trimmed() {
    let line = "[ a ]( u )";
    let actual = parse_inline(line, 3);
    assert_eq!(actual, vec![link_like(false, 5, 6, 10, 11, vec![plain(5, 6)])]);
}

#[test]
fn link_without_parenthesis_is_text() {
    assert_eq!(parse_inline("[a] b", 0), vec![plain(0, 5)]);
}

#[test]
fn empty_link_has_no_children_and_no_destination() {
    let actual = parse_inline("[]()", 0);
    let expected = vec![AstNode {
        kind: AstKind::Link { dest_span: None, title_span: None },
        span: Span { start: 1, end: 1 },
        attrs: None,
        children: vec![],
    }];
    assert_eq!(actual, expected);
}

#[test]
fn dollar_without_backtick_is_text() {
    assert_eq!(parse_inline("cost $5", 0), vec![plain(0, 7)]);
}

#[test]
fn empty_line_gives_no_nodes() {
    assert_eq!(parse_inline("", 4), vec![]);
}
