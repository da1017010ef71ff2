//! Properties that relate parsing and rendering.
use crate::ast::{AstKind, AstNode};
use crate::parser::{plain_line, single_paragraph};
use crate::render::{html, html_list};
use crate::text::lemma_chars_of_bytes;
use vstd::prelude::*;
use vstd::string::StringSliceAdditionalSpecFns;

verus! {

broadcast use vstd::seq::group_seq_axioms;

/// A document made of one line of plain text renders as that text inside one
/// paragraph: for the tree `parse_document` gives such a line, the HTML that
/// `convert_ast_to_html` writes is `<p>`, the line, then `</p>`.
pub proof fn lemma_plain_line_round_trip(text: &str, doc: AstNode)
    requires
        plain_line(text.spec_bytes()),
        doc.kind == AstKind::Document,
        single_paragraph(doc, text.spec_bytes().len() as int),
    ensures
        html(doc, text.spec_bytes()) == "<p>"@ + text@ + "</p>"@,
{
    let b = text.spec_bytes();
    let para = doc.children@[0];
    let leaf = para.children@[0];
    lemma_chars_of_bytes(text);
    assert(b.subrange(0, b.len() as int) =~= b);
    assert(html(leaf, b) == text@);
    assert(html_list(para, 0, b) =~= Seq::<char>::empty());
    assert(html_list(para, 1, b) =~= html(leaf, b));
    assert(html(para, b) == "<p>"@ + text@ + "</p>"@);
    assert(html_list(doc, 0, b) =~= Seq::<char>::empty());
    assert(html_list(doc, 1, b) =~= html(para, b));
}

} // verus!
