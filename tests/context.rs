use oxjot::parser::context::{is_blank, Context};

#[test]
fn context_navigates_lines_basic() {
    let s = "one\ntwo\nthree";
    let mut ctx = Context::new(s);

    assert_eq!(ctx.line_count(), 3);
    assert!(!ctx.is_eof());

    assert_eq!(ctx.peek_line(), Some("one"));
    assert_eq!(ctx.peek_line_n(1), Some("two"));
    assert_eq!(ctx.peek_line_n(2), Some("three"));
    assert_eq!(ctx.peek_line_n(3), None);

    assert_eq!(ctx.current_line(), "one");
    ctx.advance();
    assert_eq!(ctx.current_line(), "two");
    ctx.advance();
    assert_eq!(ctx.current_line(), "three");
    ctx.advance();

    assert!(ctx.is_eof());
    assert_eq!(ctx.peek_line(), None);
    assert_eq!(ctx.current_line(), "");
}

#[test]
fn crlf_and_cr_are_normalized() {
    let s = "a\r\nb\rc\n";
    let ctx = Context::new(s);

    // No extra trailing empty line when input ends with '\n'
    assert_eq!(ctx.line_count(), 3);
    assert_eq!(ctx.peek_line(), Some("a"));
    assert_eq!(ctx.peek_line_n(1), Some("b"));
    assert_eq!(ctx.peek_line_n(2), Some("c"));
}

#[test]
fn peek_line_n_bounds_and_after_advance() {
    let s = "x\ny";
    let mut ctx = Context::new(s);

    assert_eq!(ctx.peek_line_n(0), Some("x"));
    assert_eq!(ctx.peek_line_n(1), Some("y"));
    assert_eq!(ctx.peek_line_n(2), None);

    ctx.advance();
    assert_eq!(ctx.peek_line_n(0), Some("y"));
    assert_eq!(ctx.peek_line_n(1), None);
}

#[test]
fn unicode_lines_are_preserved() {
    let s = "αβγ\n中文行\nemoji 😀";
    let ctx = Context::new(s);
    assert_eq!(ctx.line_count(), 3);
    assert_eq!(ctx.peek_line(), Some("αβγ"));
    assert_eq!(ctx.peek_line_n(1), Some("中文行"));
    assert_eq!(ctx.peek_line_n(2), Some("emoji 😀"));
}

#[test]
fn is_blank_covers_whitespace() {
    assert!(is_blank(""));
    assert!(is_blank("   "));
    assert!(is_blank("\t  "));
}

#[test]
fn is_blank_rejects_text_and_accepts_unicode_space() {
    assert!(!is_blank("  x "));
    assert!(is_blank("\u{00a0}\u{3000}"));
}

#[test]
fn normalized_buffer_and_line_ranges_are_contiguous() {
    let ctx = Context::new("a\r\n\r\nbc");
    assert_eq!(ctx.buf, "a\n\nbc");
    assert_eq!(ctx.line_count(), 3);
    assert_eq!((ctx.line_range[0].start, ctx.line_range[0].end), (0, 2));
    assert_eq!((ctx.line_range[1].start, ctx.line_range[1].end), (2, 3));
    assert_eq!((ctx.line_range[2].start, ctx.line_range[2].end), (3, 5));
    assert_eq!(ctx.peek_line_n(1), Some(""));
}

#[test]
fn empty_source_has_no_lines() {
    let mut ctx = Context::new("");
    assert_eq!(ctx.line_count(), 0);
    assert!(ctx.is_eof());
    ctx.advance();
    assert!(ctx.is_eof());
    assert_eq!(ctx.current_line(), "");
}
