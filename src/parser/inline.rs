//! Inline parsing: turns one line into a sequence of nested inline nodes with a
//! single left-to-right scan over its bytes and an explicit delimiter stack.
use crate::ast::{anchored, in_order, nested, within, AstKind, AstNode, Attrs, DelimKind, Span};
use crate::text::{ascii_adjacent, is_ascii_byte};
use vstd::string::StringSliceAdditionalSpecFns;
use vstd::prelude::*;

verus! {

broadcast use vstd::seq::group_seq_axioms;

pub const BACKTICK: u8 = 0x60;

/// `pat` occurs in `b` at position `idx`.
pub open spec fn occurs_at(b: Seq<u8>, idx: int, pat: Seq<u8>) -> bool {
    &&& 0 <= idx
    &&& idx + pat.len() <= b.len()
    &&& b.subrange(idx, idx + pat.len()) == pat
}

/// The length of the run of backticks that starts at `i`.
pub open spec fn run_len(b: Seq<u8>, i: int) -> nat
    decreases b.len() - i,
{
    if 0 <= i < b.len() && b[i] == BACKTICK {
        1 + run_len(b, i + 1)
    } else {
        0
    }
}

/// Where the scan from `i` finds the next run of exactly `run` backticks, if it
/// finds one before the end of the line. Longer or shorter runs are skipped
/// whole.
pub open spec fn closer_from(b: Seq<u8>, i: int, run: int) -> Option<int>
    decreases b.len() - i,
    via closer_from_decreases
{
    if i < 0 || i >= b.len() {
        None
    } else if b[i] == BACKTICK {
        let count = 1 + run_len(b, i + 1);
        if count == run {
            Some(i)
        } else {
            closer_from(b, i + count, run)
        }
    } else {
        closer_from(b, i + 1, run)
    }
}

/// The content of the backtick-delimited span that opens at `idx`, as
/// `(content start, content end, where scanning resumes)`: the content ends at
/// the matching run of the same length, or at the end of the line when there
/// is none; one space of padding is dropped on a side where it separates the
/// content from a backtick.
pub open spec fn backtick_span(b: Seq<u8>, idx: int) -> Option<(int, int, int)> {
    let run = run_len(b, idx) as int;
    if run == 0 {
        None
    } else {
        let cs = idx + run;
        let closer = closer_from(b, cs, run);
        let raw_end = match closer {
            Some(p) => p,
            None => b.len() as int,
        };
        let s = if cs + 1 < b.len() && cs < raw_end && b[cs] == 0x20 && b[cs + 1] == BACKTICK {
            cs + 1
        } else {
            cs
        };
        let e = if closer.is_some() && s < raw_end && raw_end >= s + 2 && b[raw_end - 1] == 0x20
            && b[raw_end - 2] == BACKTICK {
            raw_end - 1
        } else {
            raw_end
        };
        let next = match closer {
            Some(p) => p + run,
            None => b.len() as int,
        };
        Some((s, e, next))
    }
}

#[via_fn]
proof fn closer_from_decreases(b: Seq<u8>, i: int, run: int) {
    if 0 <= i < b.len() {
        lemma_run_len_bounds(b, i + 1);
    }
}

proof fn lemma_run_len_bounds(b: Seq<u8>, i: int)
    requires
        0 <= i <= b.len(),
    ensures
        0 <= run_len(b, i) <= b.len() - i,
        forall|k: int| i <= k < i + run_len(b, i) ==> b[k] == BACKTICK,
        i + run_len(b, i) < b.len() ==> b[i + run_len(b, i)] != BACKTICK,
    decreases b.len() - i,
{
    if i < b.len() && b[i] == BACKTICK {
        lemma_run_len_bounds(b, i + 1);
    }
}

proof fn lemma_closer_bounds(b: Seq<u8>, i: int, run: int)
    requires
        0 <= i,
        run > 0,
    ensures
        closer_from(b, i, run) matches Some(p) ==> i <= p && p + run <= b.len() && b[p] == BACKTICK
            && run_len(b, p) == run,
    decreases b.len() - i,
{
    if 0 <= i < b.len() {
        lemma_run_len_bounds(b, i);
        if b[i] == BACKTICK {
            if run_len(b, i) != run {
                lemma_closer_bounds(b, i + run_len(b, i), run);
            }
        } else {
            lemma_closer_bounds(b, i + 1, run);
        }
    }
}

/// Does `pat` occur in `bytes` at `idx`?
fn starts_with(bytes: &[u8], idx: usize, pat: &[u8]) -> (r: bool)
    requires
        idx <= bytes@.len(),
    ensures
        r == occurs_at(bytes@, idx as int, pat@),
{
    if pat.len() > bytes.len() - idx {
        return false;
    }
    let mut k: usize = 0;
    while k < pat.len()
        invariant
            idx + pat.len() <= bytes.len(),
            k <= pat.len(),
            forall|j: int| 0 <= j < k ==> bytes@[idx + j] == pat@[j],
        decreases pat@.len() - k,
    {
        if bytes[idx + k] != pat[k] {
            proof {
                assert(bytes@.subrange(idx as int, idx + pat@.len())[k as int] != pat@[k as int]);
            }
            return false;
        }
        k = k + 1;
    }
    proof {
        assert(bytes@.subrange(idx as int, idx + pat@.len()) =~= pat@);
    }
    true
}

/// The length of the run of backticks at `idx`.
fn count_backticks(bytes: &[u8], idx: usize) -> (r: usize)
    requires
        idx <= bytes@.len(),
    ensures
        r == run_len(bytes@, idx as int),
{
    proof {
        lemma_run_len_bounds(bytes@, idx as int);
    }
    let mut count: usize = 0;
    while idx + count < bytes.len() && bytes[idx + count] == BACKTICK
        invariant
            idx + count <= bytes.len(),
            run_len(bytes@, idx as int) == count + run_len(bytes@, idx + count),
        decreases bytes@.len() - idx - count,
    {
        count = count + 1;
    }
    count
}

/// Finds the next run of exactly `run` backticks from `idx`, as its position and
/// length, or `(len, 0)` when there is none.
fn find_backtick_closer(bytes: &[u8], from: usize, run: usize) -> (r: (usize, usize))
    requires
        from <= bytes@.len(),
        run > 0,
    ensures
        closer_from(bytes@, from as int, run as int) matches Some(p) ==> r == (p as usize, run),
        closer_from(bytes@, from as int, run as int) is None ==> r == (bytes@.len() as usize, 0usize),
{
    let n = bytes.len();
    let mut idx = from;
    while idx < n
        invariant
            n == bytes@.len(),
            idx <= n,
            closer_from(bytes@, idx as int, run as int) == closer_from(
                bytes@,
                from as int,
                run as int,
            ),
        decreases n - idx,
    {
        if bytes[idx] == BACKTICK {
            let count = count_backticks(bytes, idx);
            proof {
                lemma_run_len_bounds(bytes@, idx as int);
            }
            if count == run {
                return (idx, run);
            }
            idx = idx + count;
        } else {
            idx = idx + 1;
        }
    }
    (n, 0)
}

/// The content span and resume position of a backtick-delimited span that
/// opens at `idx`, as `backtick_span` describes.
fn extract_backtick_span(bytes: &[u8], idx: usize) -> (r: Option<(usize, usize, usize)>)
    requires
        idx <= bytes@.len(),
    ensures
        r.is_some() == backtick_span(bytes@, idx as int).is_some(),
        r matches Some(t) ==> {
            &&& backtick_span(bytes@, idx as int) == Some((t.0 as int, t.1 as int, t.2 as int))
            &&& idx < t.0 <= t.1 <= t.2 <= bytes@.len()
            &&& bytes@[idx as int] == BACKTICK
            &&& ascii_adjacent(bytes@, t.0 as int)
            &&& ascii_adjacent(bytes@, t.1 as int)
            &&& ascii_adjacent(bytes@, t.2 as int)
        },
{
    let ghost b = bytes@;
    let run = count_backticks(bytes, idx);
    if run == 0 {
        return None;
    }
    proof {
        lemma_run_len_bounds(b, idx as int);
        lemma_closer_bounds(b, idx + run, run as int);
        assert(idx + run <= bytes.len());
    }
    let content_start_raw = idx + run;
    let (content_end_raw, close_len) = find_backtick_closer(bytes, content_start_raw, run);
    let mut span_start = content_start_raw;
    let mut span_end = if close_len == run {
        content_end_raw
    } else {
        bytes.len()
    };
    if span_start < span_end && span_start + 1 < bytes.len() && bytes[span_start] == 0x20
        && bytes[span_start + 1] == BACKTICK {
        span_start = span_start + 1;
    }
    if close_len == run && span_start < span_end && span_end >= span_start + 2 && bytes[span_end
        - 1] == 0x20 && bytes[span_end - 2] == BACKTICK {
        span_end = span_end - 1;
    }
    let next_idx = if close_len == run {
        content_end_raw + run
    } else {
        bytes.len()
    };
    proof {
        assert(is_ascii_byte(b[content_start_raw - 1]));
        if close_len == run {
            lemma_run_len_bounds(b, content_end_raw as int);
            assert(b[next_idx - 1] == BACKTICK);
        }
    }
    Some((span_start, span_end, next_idx))
}

pub open spec fn is_ascii_ws(c: u8) -> bool {
    c == 0x20 || c == 0x09 || c == 0x0a || c == 0x0c || c == 0x0d
}

/// The first position from `i` holding `t`.
pub open spec fn find_byte(b: Seq<u8>, i: int, t: u8) -> Option<int>
    decreases b.len() - i,
{
    if i < 0 || i >= b.len() {
        None
    } else if b[i] == t {
        Some(i)
    } else {
        find_byte(b, i + 1, t)
    }
}

/// `s` moved forward past the ASCII white space of `b[s..e]`.
pub open spec fn skip_ws(b: Seq<u8>, s: int, e: int) -> int
    decreases e - s,
{
    if s < e && is_ascii_ws(b[s]) {
        skip_ws(b, s + 1, e)
    } else {
        s
    }
}

/// `e` moved back past the ASCII white space of `b[s..e]`.
pub open spec fn back_ws(b: Seq<u8>, s: int, e: int) -> int
    decreases e - s,
{
    if e > s && is_ascii_ws(b[e - 1]) {
        back_ws(b, s, e - 1)
    } else {
        e
    }
}

/// The parts of a link `[label](dest)` or image `![label](dest)` that starts at
/// `idx`: whether it is an image, the label and the destination with their
/// white space trimmed, and where scanning resumes. The label ends at the first
/// `]`, which must be followed by `(`; the destination ends at the first `)`.
pub open spec fn link_shape(b: Seq<u8>, idx: int) -> Option<(bool, int, int, int, int, int)> {
    let opener = if b[idx] == 0x21 && idx + 1 < b.len() && b[idx + 1] == 0x5b {
        Some((true, idx + 2))
    } else if b[idx] == 0x5b {
        Some((false, idx + 1))
    } else {
        None
    };
    match opener {
        None => None,
        Some((img, ls)) => match find_byte(b, ls, 0x5d) {
            None => None,
            Some(cb) => if cb + 1 >= b.len() || b[cb + 1] != 0x28 {
                None
            } else {
                match find_byte(b, cb + 2, 0x29) {
                    None => None,
                    Some(de_raw) => {
                        let ds = skip_ws(b, cb + 2, de_raw);
                        let de = back_ws(b, ds, de_raw);
                        let lis = skip_ws(b, ls, cb);
                        let lie = back_ws(b, lis, cb);
                        Some((img, lis, lie, ds, de, de_raw + 1))
                    },
                }
            },
        },
    }
}

/// A leaf of plain text over `[s, e)`.
pub open spec fn plain_leaf(node: AstNode, s: int, e: int) -> bool {
    &&& node.kind == AstKind::PlainText
    &&& node.span.start == s
    &&& node.span.end == e
    &&& node.attrs.is_none()
    &&& node.children.len() == 0
}

/// `node` is the link or image with label `[ls, le)` and destination `[ds, de)`
/// (line-relative), placed at `off` in the buffer.
pub open spec fn link_node(
    node: AstNode,
    img: bool,
    ls: int,
    le: int,
    ds: int,
    de: int,
    off: int,
) -> bool {
    let dest = if ds < de {
        Some(Span { start: (ds + off) as usize, end: (de + off) as usize })
    } else {
        None
    };
    &&& node.kind == if img {
        AstKind::Image { dest_span: dest, title_span: None }
    } else {
        AstKind::Link { dest_span: dest, title_span: None }
    }
    &&& node.span == Span { start: (ls + off) as usize, end: (le + off) as usize }
    &&& node.attrs.is_none()
    &&& if ls < le {
        node.children.len() == 1 && plain_leaf(node.children@[0], ls + off, le + off)
    } else {
        node.children.len() == 0
    }
}

proof fn lemma_find_byte(b: Seq<u8>, i: int, t: u8)
    requires
        0 <= i,
    ensures
        find_byte(b, i, t) matches Some(p) ==> i <= p < b.len() && b[p] == t,
    decreases b.len() - i,
{
    if 0 <= i < b.len() && b[i] != t {
        lemma_find_byte(b, i + 1, t);
    }
}

proof fn lemma_skip_ws(b: Seq<u8>, s: int, e: int)
    requires
        0 <= s <= e <= b.len(),
        ascii_adjacent(b, s),
    ensures
        s <= skip_ws(b, s, e) <= e,
        ascii_adjacent(b, skip_ws(b, s, e)),
    decreases e - s,
{
    if s < e && is_ascii_ws(b[s]) {
        lemma_skip_ws(b, s + 1, e);
    }
}

proof fn lemma_back_ws(b: Seq<u8>, s: int, e: int)
    requires
        0 <= s <= e <= b.len(),
        ascii_adjacent(b, e),
    ensures
        s <= back_ws(b, s, e) <= e,
        ascii_adjacent(b, back_ws(b, s, e)),
    decreases e - s,
{
    if e > s && is_ascii_ws(b[e - 1]) {
        lemma_back_ws(b, s, e - 1);
    }
}

/// Where a link's parts lie relative to one another.
pub proof fn lemma_link_shape(b: Seq<u8>, idx: int)
    requires
        0 <= idx < b.len(),
    ensures
        link_shape(b, idx) matches Some((img, ls, le, ds, de, next)) ==> {
            &&& idx < ls <= le < ds <= de < next <= b.len()
            &&& ascii_adjacent(b, ls)
            &&& ascii_adjacent(b, le)
            &&& ascii_adjacent(b, ds)
            &&& ascii_adjacent(b, de)
            &&& ascii_adjacent(b, next)
            &&& (b[idx] == 0x5b || b[idx] == 0x21)
        },
{
    let n = b.len() as int;
    let ls0 = if b[idx] == 0x21 && idx + 1 < n && b[idx + 1] == 0x5b {
        idx + 2
    } else {
        idx + 1
    };
    if link_shape(b, idx).is_some() {
        lemma_find_byte(b, ls0, 0x5d);
        let cb = find_byte(b, ls0, 0x5d).unwrap();
        lemma_find_byte(b, cb + 2, 0x29);
        let de_raw = find_byte(b, cb + 2, 0x29).unwrap();
        assert(ascii_adjacent(b, ls0));
        assert(ascii_adjacent(b, cb));
        assert(ascii_adjacent(b, cb + 2));
        assert(ascii_adjacent(b, de_raw));
        assert(ascii_adjacent(b, de_raw + 1));
        lemma_skip_ws(b, cb + 2, de_raw);
        let ds = skip_ws(b, cb + 2, de_raw);
        lemma_back_ws(b, ds, de_raw);
        lemma_skip_ws(b, ls0, cb);
        let lis = skip_ws(b, ls0, cb);
        lemma_back_ws(b, lis, cb);
    }
}

/// The first position from `idx` holding `target`.
fn find_matching(bytes: &[u8], idx: usize, target: u8) -> (r: Option<usize>)
    requires
        idx <= bytes@.len(),
    ensures
        r.is_some() == find_byte(bytes@, idx as int, target).is_some(),
        r matches Some(p) ==> find_byte(bytes@, idx as int, target) == Some(p as int),
{
    let mut i = idx;
    while i < bytes.len()
        invariant
            idx <= i <= bytes.len(),
            find_byte(bytes@, i as int, target) == find_byte(bytes@, idx as int, target),
        decreases bytes@.len() - i,
    {
        if bytes[i] == target {
            return Some(i);
        }
        i = i + 1;
    }
    None
}

/// Moves `s` forward past ASCII white space, stopping at `e`.
fn skip_ws_forward(bytes: &[u8], s: usize, e: usize) -> (r: usize)
    requires
        s <= e <= bytes@.len(),
    ensures
        r == skip_ws(bytes@, s as int, e as int),
{
    let mut i = s;
    while i < e && is_ascii_whitespace(bytes[i])
        invariant
            s <= i <= e <= bytes.len(),
            skip_ws(bytes@, i as int, e as int) == skip_ws(bytes@, s as int, e as int),
        decreases e - i,
    {
        i = i + 1;
    }
    i
}

/// Moves `e` back past ASCII white space, stopping at `s`.
fn skip_ws_backward(bytes: &[u8], s: usize, e: usize) -> (r: usize)
    requires
        s <= e <= bytes@.len(),
    ensures
        r == back_ws(bytes@, s as int, e as int),
{
    let mut i = e;
    while i > s && is_ascii_whitespace(bytes[i - 1])
        invariant
            s <= i <= e <= bytes.len(),
            back_ws(bytes@, s as int, i as int) == back_ws(bytes@, s as int, e as int),
        decreases i - s,
    {
        i = i - 1;
    }
    i
}

/// Space, tab, line feed, form feed or carriage return.
fn is_ascii_whitespace(c: u8) -> (r: bool)
    ensures
        r == is_ascii_ws(c),
{
    c == 0x20 || c == 0x09 || c == 0x0a || c == 0x0c || c == 0x0d
}

fn plain_node(start: usize, end: usize) -> (r: AstNode)
    ensures
        plain_leaf(r, start as int, end as int),
{
    AstNode { kind: AstKind::PlainText, span: Span { start, end }, attrs: None, children: Vec::new() }
}

/// Parses the link or image that starts at `idx`, if one does, giving the node
/// and the position after its closing parenthesis.
fn parse_link_or_image(bytes: &[u8], idx: usize, offset: usize) -> (r: Option<(AstNode, usize)>)
    requires
        idx < bytes@.len(),
        offset + bytes@.len() <= usize::MAX,
    ensures
        r.is_some() == link_shape(bytes@, idx as int).is_some(),
        r matches Some((node, next)) ==> {
            let (img, ls, le, ds, de, nx) = link_shape(bytes@, idx as int).unwrap();
            &&& next == nx
            &&& link_node(node, img, ls, le, ds, de, offset as int)
        },
{
    let ghost b = bytes@;
    proof {
        lemma_link_shape(b, idx as int);
    }
    let (is_image, label_start) = if bytes[idx] == 0x21 && idx + 1 < bytes.len() && bytes[idx + 1]
        == 0x5b {
        (true, idx + 2)
    } else if bytes[idx] == 0x5b {
        (false, idx + 1)
    } else {
        return None;
    };
    let close_bracket = match find_matching(bytes, label_start, 0x5d) {
        Some(p) => p,
        None => return None,
    };
    proof {
        lemma_find_byte(b, label_start as int, 0x5d);
    }
    if close_bracket + 1 >= bytes.len() || bytes[close_bracket + 1] != 0x28 {
        return None;
    }
    let dest_start_raw = close_bracket + 2;
    let dest_end_raw = match find_matching(bytes, dest_start_raw, 0x29) {
        Some(p) => p,
        None => return None,
    };
    proof {
        lemma_find_byte(b, dest_start_raw as int, 0x29);
    }
    let dest_start = skip_ws_forward(bytes, dest_start_raw, dest_end_raw);
    proof {
        lemma_skip_ws(b, dest_start_raw as int, dest_end_raw as int);
    }
    let dest_end = skip_ws_backward(bytes, dest_start, dest_end_raw);
    let label_inner_start = skip_ws_forward(bytes, label_start, close_bracket);
    proof {
        lemma_skip_ws(b, label_start as int, close_bracket as int);
    }
    let label_inner_end = skip_ws_backward(bytes, label_inner_start, close_bracket);
    proof {
        lemma_back_ws(b, label_inner_start as int, close_bracket as int);
        lemma_back_ws(b, dest_start as int, dest_end_raw as int);
    }
    let mut children: Vec<AstNode> = Vec::new();
    if label_inner_start < label_inner_end {
        children.push(plain_node(label_inner_start + offset, label_inner_end + offset));
    }
    let dest_span = if dest_start < dest_end {
        Some(Span { start: dest_start + offset, end: dest_end + offset })
    } else {
        None
    };
    let span = Span { start: label_inner_start + offset, end: label_inner_end + offset };
    let kind = if is_image {
        AstKind::Image { dest_span, title_span: None }
    } else {
        AstKind::Link { dest_span, title_span: None }
    };
    let node = AstNode { kind, span, attrs: None, children };
    Some((node, dest_end_raw + 1))
}

/// An opening marker still waiting for its closer, with the nodes gathered
/// since it opened.
#[derive(Debug)]
struct Delimiter {
    def_index: usize,
    open_pos: usize,
    content_start: usize,
    children: Vec<AstNode>,
}

/// A pair of markers that wrap inline content, and the kind of node they make.
#[derive(Debug)]
struct DelimiterDef {
    kind: DelimKind,
    open: Vec<u8>,
    close: Vec<u8>,
}

pub const NUM_DELIMITERS: usize = 7;

/// The opening marker of delimiter `i`, in priority order:
/// `{=`, `{+`, `{-`, `_`, `*`, `~`, `^`.
pub open spec fn open_marker(i: int) -> Seq<u8> {
    if i == 0 {
        seq![0x7bu8, 0x3du8]
    } else if i == 1 {
        seq![0x7bu8, 0x2bu8]
    } else if i == 2 {
        seq![0x7bu8, 0x2du8]
    } else if i == 3 {
        seq![0x5fu8]
    } else if i == 4 {
        seq![0x2au8]
    } else if i == 5 {
        seq![0x7eu8]
    } else {
        seq![0x5eu8]
    }
}

/// The closing marker of delimiter `i`: `=}`, `+}`, `-}`, `_`, `*`, `~`, `^`.
pub open spec fn close_marker(i: int) -> Seq<u8> {
    if i == 0 {
        seq![0x3du8, 0x7du8]
    } else if i == 1 {
        seq![0x2bu8, 0x7du8]
    } else if i == 2 {
        seq![0x2du8, 0x7du8]
    } else {
        open_marker(i)
    }
}

/// The node that delimiter `i` makes: Mark, Insert, Delete, Emph, Strong, Sub, Sup.
pub open spec fn marker_kind(i: int) -> AstKind {
    if i == 0 {
        AstKind::Mark
    } else if i == 1 {
        AstKind::Insert
    } else if i == 2 {
        AstKind::Delete
    } else if i == 3 {
        AstKind::Emph
    } else if i == 4 {
        AstKind::Strong
    } else if i == 5 {
        AstKind::Sub
    } else {
        AstKind::Sup
    }
}

pub open spec fn delim_kind_node(k: DelimKind) -> AstKind {
    match k {
        DelimKind::Underscore => AstKind::Emph,
        DelimKind::Star => AstKind::Strong,
        DelimKind::Tilde => AstKind::Sub,
        DelimKind::Caret => AstKind::Sup,
        DelimKind::Mark => AstKind::Mark,
        DelimKind::Insert => AstKind::Insert,
        DelimKind::Delete => AstKind::Delete,
        _ => AstKind::PlainText,
    }
}

impl DelimiterDef {
    fn new(kind: DelimKind, open: Vec<u8>, close: Vec<u8>) -> (r: Self)
        ensures
            r.kind == kind,
            r.open@ == open@,
            r.close@ == close@,
    {
        DelimiterDef { kind, open, close }
    }

    fn ast_kind(&self) -> (r: AstKind)
        ensures
            r == delim_kind_node(self.kind),
    {
        match self.kind {
            DelimKind::Underscore => AstKind::Emph,
            DelimKind::Star => AstKind::Strong,
            DelimKind::Tilde => AstKind::Sub,
            DelimKind::Caret => AstKind::Sup,
            DelimKind::Mark => AstKind::Mark,
            DelimKind::Insert => AstKind::Insert,
            DelimKind::Delete => AstKind::Delete,
            _ => AstKind::PlainText,
        }
    }
}

/// The table holds the delimiters in priority order.
spec fn defs_ok(defs: Seq<DelimiterDef>) -> bool {
    &&& defs.len() == NUM_DELIMITERS
    &&& forall|i: int|
        0 <= i < NUM_DELIMITERS ==> {
            &&& (#[trigger] defs[i]).open@ == open_marker(i)
            &&& defs[i].close@ == close_marker(i)
            &&& delim_kind_node(defs[i].kind) == marker_kind(i)
        }
}

fn delimiters() -> (r: Vec<DelimiterDef>)
    ensures
        defs_ok(r@),
{
    let mut defs: Vec<DelimiterDef> = Vec::new();
    defs.push(DelimiterDef::new(DelimKind::Mark, vec![0x7b, 0x3d], vec![0x3d, 0x7d]));
    defs.push(DelimiterDef::new(DelimKind::Insert, vec![0x7b, 0x2b], vec![0x2b, 0x7d]));
    defs.push(DelimiterDef::new(DelimKind::Delete, vec![0x7b, 0x2d], vec![0x2d, 0x7d]));
    defs.push(DelimiterDef::new(DelimKind::Underscore, vec![0x5f], vec![0x5f]));
    defs.push(DelimiterDef::new(DelimKind::Star, vec![0x2a], vec![0x2a]));
    defs.push(DelimiterDef::new(DelimKind::Tilde, vec![0x7e], vec![0x7e]));
    defs.push(DelimiterDef::new(DelimKind::Caret, vec![0x5e], vec![0x5e]));
    proof {
        assert(defs@[0].open@ =~= open_marker(0));
        assert(defs@[1].open@ =~= open_marker(1));
        assert(defs@[2].open@ =~= open_marker(2));
        assert(defs@[3].open@ =~= open_marker(3));
        assert(defs@[4].open@ =~= open_marker(4));
        assert(defs@[5].open@ =~= open_marker(5));
        assert(defs@[6].open@ =~= open_marker(6));
        assert(defs@[0].close@ =~= close_marker(0));
        assert(defs@[1].close@ =~= close_marker(1));
        assert(defs@[2].close@ =~= close_marker(2));
        assert(defs@[3].close@ =~= close_marker(3));
        assert(defs@[4].close@ =~= close_marker(4));
        assert(defs@[5].close@ =~= close_marker(5));
        assert(defs@[6].close@ =~= close_marker(6));
    }
    defs
}

/// Which delimiter opens at `idx`: the one with the longest opening marker
/// there, the earliest in the table among equals.
fn match_opening(bytes: &[u8], idx: usize, defs: &Vec<DelimiterDef>) -> (r: Option<(usize, usize)>)
    requires
        idx <= bytes@.len(),
        defs_ok(defs@),
    ensures
        r is None <==> forall|j: int|
            0 <= j < NUM_DELIMITERS ==> !occurs_at(bytes@, idx as int, #[trigger] open_marker(j)),
        r matches Some((i, len)) ==> open_best(bytes@, idx as int, NUM_DELIMITERS as int) == Some(
            (i as int, len as int),
        ),
        r is None ==> open_best(bytes@, idx as int, NUM_DELIMITERS as int) is None,
        r matches Some((i, len)) ==> {
            &&& i < NUM_DELIMITERS
            &&& occurs_at(bytes@, idx as int, open_marker(i as int))
            &&& len == open_marker(i as int).len()
            &&& forall|j: int|
                0 <= j < NUM_DELIMITERS && occurs_at(bytes@, idx as int, #[trigger] open_marker(j))
                    ==> open_marker(j).len() <= len && (j < i ==> open_marker(j).len() < len)
        },
{
    let mut best: Option<(usize, usize)> = None;
    let mut i: usize = 0;
    while i < defs.len()
        invariant
            defs_ok(defs@),
            idx <= bytes@.len(),
            i <= NUM_DELIMITERS,
            best is None <==> forall|j: int|
                0 <= j < i ==> !occurs_at(bytes@, idx as int, #[trigger] open_marker(j)),
            best matches Some((bi, blen)) ==> open_best(bytes@, idx as int, i as int) == Some(
                (bi as int, blen as int),
            ),
            best is None ==> open_best(bytes@, idx as int, i as int) is None,
            best matches Some((bi, blen)) ==> {
                &&& bi < i
                &&& occurs_at(bytes@, idx as int, open_marker(bi as int))
                &&& blen == open_marker(bi as int).len()
                &&& forall|j: int|
                    0 <= j < i && occurs_at(bytes@, idx as int, #[trigger] open_marker(j))
                        ==> open_marker(j).len() <= blen && (j < bi ==> open_marker(j).len() < blen)
            },
        decreases NUM_DELIMITERS - i,
    {
        let def = &defs[i];
        if starts_with(bytes, idx, def.open.as_slice()) {
            let len = def.open.len();
            let better = match best {
                None => true,
                Some((_, best_len)) => len > best_len,
            };
            if better {
                best = Some((i, len));
            }
        }
        i = i + 1;
    }
    best
}

/// Whether the innermost open delimiter closes at `idx`: its index and the
/// length of its closing marker.
fn match_closing(bytes: &[u8], idx: usize, stack: &Vec<Delimiter>, defs: &Vec<DelimiterDef>) -> (r:
    Option<(usize, usize)>)
    requires
        idx <= bytes@.len(),
        defs_ok(defs@),
        forall|k: int| 0 <= k < stack@.len() ==> (#[trigger] stack@[k]).def_index < NUM_DELIMITERS,
    ensures
        stack@.len() == 0 ==> r is None,
        stack@.len() > 0 ==> {
            let top = stack@.last().def_index as int;
            &&& r.is_some() == occurs_at(bytes@, idx as int, close_marker(top))
            &&& r.is_some() ==> r == Some((top as usize, close_marker(top).len() as usize))
        },
{
    if stack.len() == 0 {
        return None;
    }
    let top = &stack[stack.len() - 1];
    let def = &defs[top.def_index];
    if starts_with(bytes, idx, def.close.as_slice()) {
        Some((top.def_index, def.close.len()))
    } else {
        None
    }
}

/// The node most recently handed to `push_node`.
spec fn last_emitted(stack: Seq<Delimiter>, nodes: Seq<AstNode>) -> AstNode {
    if stack.len() > 0 {
        stack.last().children@.last()
    } else {
        nodes.last()
    }
}

/// `node` went to the innermost open delimiter, or to the output when none is open.
spec fn emitted(
    os: Seq<Delimiter>,
    on: Seq<AstNode>,
    ns: Seq<Delimiter>,
    nn: Seq<AstNode>,
    node: AstNode,
) -> bool {
    if os.len() > 0 {
        &&& ns.len() == os.len()
        &&& ns.drop_last() == os.drop_last()
        &&& ns.last().def_index == os.last().def_index
        &&& ns.last().open_pos == os.last().open_pos
        &&& ns.last().content_start == os.last().content_start
        &&& ns.last().children@ == os.last().children@.push(node)
        &&& nn == on
    } else {
        &&& ns == os
        &&& nn == on.push(node)
    }
}

fn push_node(delim_stack: &mut Vec<Delimiter>, nodes: &mut Vec<AstNode>, node: AstNode)
    ensures
        emitted(old(delim_stack)@, old(nodes)@, final(delim_stack)@, final(nodes)@, node),
{
    if delim_stack.len() > 0 {
        let mut top = delim_stack.pop().unwrap();
        top.children.push(node);
        delim_stack.push(top);
        proof {
            assert(final(delim_stack)@.drop_last() =~= old(delim_stack)@.drop_last());
        }
    } else {
        nodes.push(node);
    }
}

fn push_plain(
    delim_stack: &mut Vec<Delimiter>,
    nodes: &mut Vec<AstNode>,
    start: usize,
    end: usize,
    offset: usize,
)
    requires
        offset + end <= usize::MAX,
    ensures
        start < end ==> {
            &&& emitted(
                old(delim_stack)@,
                old(nodes)@,
                final(delim_stack)@,
                final(nodes)@,
                last_emitted(final(delim_stack)@, final(nodes)@),
            )
            &&& plain_leaf(
                last_emitted(final(delim_stack)@, final(nodes)@),
                start + offset,
                end + offset,
            )
        },
        start >= end ==> final(delim_stack)@ == old(delim_stack)@ && final(nodes)@ == old(nodes)@,
        sv(0, start as int, final(nodes)@, final(delim_stack)@) == flush_v(
            sv(0, start as int, old(nodes)@, old(delim_stack)@),
            end as int,
            offset as int,
        ),
{
    if start >= end {
        return;
    }
    let node = plain_node(start + offset, end + offset);
    let ghost nd = node;
    let ghost os = delim_stack@;
    let ghost on = nodes@;
    push_node(delim_stack, nodes, node);
    proof {
        lemma_leaf_view(nd, AstKind::PlainText, start + offset, end + offset);
        lemma_emitted_view(os, on, delim_stack@, nodes@, nd, 0, start as int);
    }
}

/// Bytes that can begin inline markup.
pub open spec fn is_markup_byte(c: u8) -> bool {
    ||| c == 0x5b  // [
    ||| c == 0x21  // !
    ||| c == 0x24  // $
    ||| c == BACKTICK
    ||| c == 0x7b  // {
    ||| c == 0x5f  // _
    ||| c == 0x2a  // *
    ||| c == 0x7e  // ~
    ||| c == 0x5e  // ^
}

/// No byte of `b` can begin inline markup.
pub open spec fn markup_free(b: Seq<u8>) -> bool {
    forall|i: int| 0 <= i < b.len() ==> !is_markup_byte(#[trigger] b[i])
}

/// Sibling nodes anchored in the line `b` at `off`, each nested within
/// `[lo, hi]`, in source order.
pub open spec fn seq_ok(ns: Seq<AstNode>, b: Seq<u8>, off: int, lo: int, hi: int) -> bool {
    &&& in_order(ns)
    &&& forall|i: int|
        0 <= i < ns.len() ==> anchored(#[trigger] ns[i], b, off) && within(ns[i], lo, hi)
}

/// Where the nodes gathered by frame `k` must end: where the next frame opens,
/// or at the flush point for the innermost one.
spec fn list_hi(stack: Seq<Delimiter>, k: int, off: int, last_emit: int) -> int {
    if k < stack.len() - 1 {
        off + stack[k + 1].open_pos
    } else {
        off + last_emit
    }
}

/// Where the output nodes must end: where the outermost frame opens, or at the
/// flush point when no frame is open.
spec fn nodes_hi(stack: Seq<Delimiter>, off: int, last_emit: int) -> int {
    if stack.len() == 0 {
        off + last_emit
    } else {
        off + stack[0].open_pos
    }
}

spec fn frame_ok(b: Seq<u8>, f: Delimiter) -> bool {
    &&& f.def_index < NUM_DELIMITERS
    &&& f.open_pos < f.content_start <= b.len()
    &&& ascii_adjacent(b, f.open_pos as int)
    &&& ascii_adjacent(b, f.content_start as int)
}

/// The scan's state: the open frames are ordered along the line, and every
/// node gathered so far, in the output or in a frame, sits in order before
/// the point where the next text will be flushed.
spec fn scan_ok(
    b: Seq<u8>,
    off: int,
    nodes: Seq<AstNode>,
    stack: Seq<Delimiter>,
    last_emit: int,
) -> bool {
    &&& 0 <= last_emit <= b.len()
    &&& ascii_adjacent(b, last_emit)
    &&& forall|k: int| 0 <= k < stack.len() ==> frame_ok(b, #[trigger] stack[k])
    &&& forall|k: int|
        0 <= k < stack.len() - 1 ==> (#[trigger] stack[k]).content_start <= stack[k + 1].open_pos
    &&& forall|k: int| 0 <= k < stack.len() ==> stack[0].open_pos <= (#[trigger] stack[k]).open_pos
    &&& stack.len() > 0 ==> stack.last().content_start <= last_emit
    &&& seq_ok(nodes, b, off, off, nodes_hi(stack, off, last_emit))
    &&& forall|k: int|
        0 <= k < stack.len() ==> seq_ok(
            (#[trigger] stack[k]).children@,
            b,
            off,
            off + stack[k].content_start,
            list_hi(stack, k, off, last_emit),
        )
}

proof fn lemma_seq_push(ns: Seq<AstNode>, b: Seq<u8>, off: int, lo: int, hi: int, node: AstNode, hi2: int)
    requires
        seq_ok(ns, b, off, lo, hi),
        anchored(node, b, off),
        within(node, hi, hi2),
        lo <= hi,
    ensures
        seq_ok(ns.push(node), b, off, lo, hi2),
{
    let ns2 = ns.push(node);
    assert forall|i: int, j: int| 0 <= i < j < ns2.len() implies #[trigger] ns2[i].span.end
        <= #[trigger] ns2[j].span.start by {
        if j == ns.len() {
            assert(within(ns[i], lo, hi));
        } else {
            assert(ns2[i] == ns[i] && ns2[j] == ns[j]);
        }
    }
    assert forall|i: int| 0 <= i < ns2.len() implies anchored(#[trigger] ns2[i], b, off) && within(
        ns2[i],
        lo,
        hi2,
    ) by {
        if i < ns.len() {
            assert(ns2[i] == ns[i]);
            assert(within(ns[i], lo, hi));
        }
    }
}

/// Handing a node that lies between the flush point and `ne` to the innermost
/// frame (or the output) keeps the state sound with the flush point at `ne`.
proof fn lemma_emit(
    b: Seq<u8>,
    off: int,
    on: Seq<AstNode>,
    os: Seq<Delimiter>,
    nn: Seq<AstNode>,
    ns: Seq<Delimiter>,
    le: int,
    node: AstNode,
    ne: int,
)
    requires
        scan_ok(b, off, on, os, le),
        emitted(os, on, ns, nn, node),
        anchored(node, b, off),
        within(node, off + le, off + ne),
        le <= ne <= b.len(),
        ascii_adjacent(b, ne),
    ensures
        scan_ok(b, off, nn, ns, ne),
{
    let m = os.len();
    if m == 0 {
        lemma_seq_push(on, b, off, off, off + le, node, off + ne);
    } else {
        assert forall|k: int| 0 <= k < m - 1 implies ns[k] == os[k] by {
            assert(ns[k] == ns.drop_last()[k]);
            assert(os[k] == os.drop_last()[k]);
        }
        assert forall|k: int| 0 <= k < ns.len() implies frame_ok(b, #[trigger] ns[k]) by {
            if k < m - 1 {
                assert(frame_ok(b, os[k]));
            } else {
                assert(frame_ok(b, os[k]));
            }
        }
        assert forall|k: int| 0 <= k < ns.len() - 1 implies (#[trigger] ns[k]).content_start
            <= ns[k + 1].open_pos by {
            assert(os[k].content_start <= os[k + 1].open_pos);
        }
        assert forall|k: int| 0 <= k < ns.len() implies ns[0].open_pos <= (
        #[trigger] ns[k]).open_pos by {
            assert(os[0].open_pos <= os[k].open_pos);
        }
        assert(nodes_hi(ns, off, ne) == nodes_hi(os, off, le));
        lemma_seq_push(
            os[m - 1].children@,
            b,
            off,
            off + os[m - 1].content_start,
            off + le,
            node,
            off + ne,
        );
        assert forall|k: int| 0 <= k < ns.len() implies seq_ok(
            (#[trigger] ns[k]).children@,
            b,
            off,
            off + ns[k].content_start,
            list_hi(ns, k, off, ne),
        ) by {
            if k < m - 1 {
                assert(seq_ok(
                    os[k].children@,
                    b,
                    off,
                    off + os[k].content_start,
                    list_hi(os, k, off, le),
                ));
            } else {
                assert(seq_ok(
                    os[k].children@,
                    b,
                    off,
                    off + os[k].content_start,
                    list_hi(os, k, off, le),
                ));
            }
        }
    }
}

/// Bytes of a marker at `idx` that are all ASCII leave both ends of the
/// marker next to ASCII text.
proof fn lemma_marker_ascii(b: Seq<u8>, idx: int, m: Seq<u8>)
    requires
        occurs_at(b, idx, m),
        m.len() > 0,
        forall|j: int| 0 <= j < m.len() ==> is_ascii_byte(#[trigger] m[j]),
    ensures
        ascii_adjacent(b, idx),
        ascii_adjacent(b, idx + m.len()),
        b[idx] == m[0],
{
    assert(b[idx] == b.subrange(idx, idx + m.len())[0]);
    assert(b[idx + m.len() - 1] == b.subrange(idx, idx + m.len())[m.len() - 1]);
}

proof fn lemma_markers_ascii(i: int)
    requires
        0 <= i < NUM_DELIMITERS,
    ensures
        open_marker(i).len() > 0,
        close_marker(i).len() > 0,
        forall|j: int| 0 <= j < open_marker(i).len() ==> is_ascii_byte(#[trigger] open_marker(i)[j]),
        forall|j: int|
            0 <= j < close_marker(i).len() ==> is_ascii_byte(#[trigger] close_marker(i)[j]),
        is_markup_byte(open_marker(i)[0]),
{
}

/// Parses one line, which starts at `offset` in the buffer, into its inline
/// nodes: exactly the nodes of `inline_spec`. They follow one another along
/// the line, their spans nest and start and end next to ASCII text, and a line
/// without markup bytes gives one plain text node over the whole line.
#[verifier::rlimit(50)]
pub fn parse_inline(line: &str, offset: usize) -> (r: Vec<AstNode>)
    requires
        offset + line.spec_bytes().len() <= usize::MAX,
    ensures
        seq_ok(
            r@,
            line.spec_bytes(),
            offset as int,
            offset as int,
            offset + line.spec_bytes().len(),
        ),
        view_nodes(r@) == inline_spec(line.spec_bytes(), offset as int),
        markup_free(line.spec_bytes()) ==> if line.spec_bytes().len() == 0 {
            r@.len() == 0
        } else {
            r@.len() == 1 && plain_leaf(r@[0], offset as int, offset + line.spec_bytes().len())
        },
{
    let bytes = line.as_bytes();
    let ghost b = bytes@;
    let ghost off = offset as int;
    let n = bytes.len();
    let defs = delimiters();
    let mut nodes: Vec<AstNode> = Vec::new();
    let mut delim_stack: Vec<Delimiter> = Vec::new();
    let mut last_emit: usize = 0;
    let mut idx: usize = 0;
    proof {
        assert(in_order(nodes@));
        assert(view_nodes(nodes@) =~= Seq::<NodeV>::empty());
        assert(stack_view(delim_stack@) =~= Seq::<FrameV>::empty());
        assert(sv(0, 0, nodes@, delim_stack@) == ScanV {
            idx: 0,
            last_emit: 0,
            nodes: Seq::empty(),
            stack: Seq::empty(),
        });
    }
    while idx < n
        invariant
            bytes@ == b,
            b == line.spec_bytes(),
            n == b.len(),
            off == offset,
            offset + n <= usize::MAX,
            defs_ok(defs@),
            last_emit <= idx <= n,
            scan_ok(b, off, nodes@, delim_stack@, last_emit as int),
            markup_free(b) ==> nodes@.len() == 0 && delim_stack@.len() == 0 && last_emit == 0,
            run_scan(b, off, sv(idx as int, last_emit as int, nodes@, delim_stack@)) == inline_spec(
                b,
                off,
            ),
        decreases n - idx,
    {
        let ghost st = sv(idx as int, last_emit as int, nodes@, delim_stack@);
        proof {
            lemma_link_shape(b, idx as int);
        }
        if let Some((node, next_idx)) = parse_link_or_image(bytes, idx, offset) {
            proof {
                lemma_link_node_ok(b, off, idx as int, node);
                assert(is_markup_byte(b[idx as int]));
                let (img, ls, le, ds, de, nx) = link_shape(b, idx as int).unwrap();
                lemma_link_view(node, img, ls, le, ds, de, off);
            }
            emit(&mut delim_stack, &mut nodes, last_emit, idx, node, next_idx, offset, Ghost(b));
            proof {
                assert(step(b, off, st) == sv(next_idx as int, next_idx as int, nodes@, delim_stack@));
            }
            idx = next_idx;
            last_emit = idx;
            continue;
        }
        if bytes[idx] == 0x24 {
            let run: usize = if idx + 1 < n && bytes[idx + 1] == 0x24 {
                2
            } else {
                1
            };
            if let Some((span_start, span_end, next_idx)) = extract_backtick_span(bytes, idx + run) {
                let kind = if run == 2 {
                    AstKind::MathDisplay
                } else {
                    AstKind::MathInline
                };
                let node = AstNode {
                    kind,
                    span: Span { start: span_start + offset, end: span_end + offset },
                    attrs: None,
                    children: Vec::new(),
                };
                proof {
                    lemma_leaf_view(node, kind, span_start + off, span_end + off);
                }
                emit(&mut delim_stack, &mut nodes, last_emit, idx, node, next_idx, offset, Ghost(b));
                proof {
                    assert(run == dollar_run(b, idx as int));
                    assert(step(b, off, st) == sv(next_idx as int, next_idx as int, nodes@, delim_stack@));
                }
                idx = next_idx;
                last_emit = idx;
                continue;
            }
        }
        if let Some((span_start, span_end, next_idx)) = extract_backtick_span(bytes, idx) {
            let node = AstNode {
                kind: AstKind::Code,
                span: Span { start: span_start + offset, end: span_end + offset },
                attrs: None,
                children: Vec::new(),
            };
            proof {
                lemma_leaf_view(node, AstKind::Code, span_start + off, span_end + off);
                assert(!(b[idx as int] == 0x24 && backtick_span(b, idx + dollar_run(b, idx as int)).is_some()));
            }
            emit(&mut delim_stack, &mut nodes, last_emit, idx, node, next_idx, offset, Ghost(b));
            proof {
                assert(step(b, off, st) == sv(next_idx as int, next_idx as int, nodes@, delim_stack@));
            }
            idx = next_idx;
            last_emit = idx;
            continue;
        }
        if let Some((def_index, close_len)) = match_closing(bytes, idx, &delim_stack, &defs) {
            proof {
                lemma_markers_ascii(def_index as int);
                lemma_marker_ascii(b, idx as int, close_marker(def_index as int));
            }
            proof {
                assert(!(b[idx as int] == 0x24 && backtick_span(b, idx + dollar_run(b, idx as int)).is_some()));
                assert(stack_view(delim_stack@).last().def == delim_stack@.last().def_index);
            }
            close_frame(&mut delim_stack, &mut nodes, last_emit, idx, close_len, &defs, offset, Ghost(b));
            proof {
                assert(step(b, off, st) == sv(idx + close_len, idx + close_len, nodes@, delim_stack@));
            }
            last_emit = idx + close_len;
            idx = idx + close_len;
            continue;
        }
        if let Some((def_index, open_len)) = match_opening(bytes, idx, &defs) {
            proof {
                lemma_markers_ascii(def_index as int);
                lemma_marker_ascii(b, idx as int, open_marker(def_index as int));
            }
            proof {
                assert(!(b[idx as int] == 0x24 && backtick_span(b, idx + dollar_run(b, idx as int)).is_some()));
                if delim_stack@.len() > 0 {
                    assert(stack_view(delim_stack@).last().def == delim_stack@.last().def_index);
                }
            }
            open_frame(&mut delim_stack, &mut nodes, last_emit, idx, def_index, open_len, offset, Ghost(b));
            proof {
                assert(step(b, off, st) == sv(idx + open_len, idx + open_len, nodes@, delim_stack@));
            }
            last_emit = idx + open_len;
            idx = idx + open_len;
        } else {
            proof {
                if markup_free(b) {
                    assert(!is_markup_byte(b[idx as int]));
                }
                assert(!(b[idx as int] == 0x24 && backtick_span(b, idx + dollar_run(b, idx as int)).is_some()));
                if delim_stack@.len() > 0 {
                    assert(stack_view(delim_stack@).last().def == delim_stack@.last().def_index);
                }
                assert(step(b, off, st) == sv(idx + 1, last_emit as int, nodes@, delim_stack@));
            }
            idx = idx + 1;
        }
    }
    let ghost st_end = sv(idx as int, last_emit as int, nodes@, delim_stack@);
    proof {
        assert(finish(b, off, st_end) == inline_spec(b, off));
    }
    if delim_stack.len() > 0 {
        let mut min_open = delim_stack[0].open_pos;
        let mut k: usize = 1;
        while k < delim_stack.len()
            invariant
                1 <= k <= delim_stack@.len(),
                scan_ok(b, off, nodes@, delim_stack@, last_emit as int),
                min_open == delim_stack@[0].open_pos,
                min_open == earliest_open(stack_view(delim_stack@), k as int),
            decreases delim_stack@.len() - k,
        {
            if delim_stack[k].open_pos < min_open {
                min_open = delim_stack[k].open_pos;
            }
            k = k + 1;
        }
        proof {
            assert(frame_ok(b, delim_stack@[0]));
            assert(frame_ok(b, delim_stack@.last()));
            assert(delim_stack@[0].open_pos <= delim_stack@.last().open_pos);
        }
        proof {
            assert(min_open == earliest_open(stack_view(delim_stack@), delim_stack@.len() as int));
        }
        if min_open < last_emit {
            last_emit = min_open;
        }
        let ghost os = delim_stack@;
        delim_stack.clear();
        proof {
            assert(last_emit == os[0].open_pos);
            assert(scan_ok(b, off, nodes@, delim_stack@, last_emit as int));
        }
    }
    proof {
        assert(delim_stack@.len() == 0);
        assert(stack_view(delim_stack@) =~= Seq::<FrameV>::empty());
    }
    if last_emit < n {
        let ghost on = nodes@;
        push_plain(&mut delim_stack, &mut nodes, last_emit, n, offset);
        proof {
            lemma_emit(b, off, on, delim_stack@, nodes@, delim_stack@, last_emit as int,
                last_emitted(delim_stack@, nodes@), n as int);
        }
    }
    proof {
        assert(view_nodes(nodes@) == finish(b, off, st_end));
    }
    nodes
}

/// Closing the innermost frame makes a node that lies between where that frame
/// opened and the closer at `idx`, and leaves the rest of the state sound with
/// the flush point where the frame opened.
proof fn lemma_close(b: Seq<u8>, off: int, on: Seq<AstNode>, os: Seq<Delimiter>, idx: int, node: AstNode)
    requires
        scan_ok(b, off, on, os, idx),
        os.len() > 0,
        idx < b.len(),
        ascii_adjacent(b, idx),
        node.span.start == off + os.last().content_start,
        node.span.end == off + idx,
        node.children == os.last().children,
        dest_of_none(node),
    ensures
        scan_ok(b, off, on, os.drop_last(), os.last().open_pos as int),
        anchored(node, b, off),
        within(node, off + os.last().open_pos, off + idx),
{
    let m = os.len();
    let ns = os.drop_last();
    let f = os.last();
    let p = f.open_pos as int;
    assert(frame_ok(b, f));
    assert(seq_ok(f.children@, b, off, off + f.content_start, off + idx));
    assert forall|k: int| 0 <= k < ns.len() implies ns[k] == os[k] by {}
    if m >= 2 {
        assert(os[m - 2].content_start <= os[m - 1].open_pos);
    }
    assert(nodes_hi(ns, off, p) == nodes_hi(os, off, idx));
    assert forall|k: int| 0 <= k < ns.len() implies seq_ok(
        (#[trigger] ns[k]).children@,
        b,
        off,
        off + ns[k].content_start,
        list_hi(ns, k, off, p),
    ) by {
        assert(seq_ok(
            os[k].children@,
            b,
            off,
            off + os[k].content_start,
            list_hi(os, k, off, idx),
        ));
    }
    assert forall|k: int| 0 <= k < ns.len() implies frame_ok(b, #[trigger] ns[k]) by {
        assert(frame_ok(b, os[k]));
    }
    assert forall|k: int| 0 <= k < ns.len() - 1 implies (#[trigger] ns[k]).content_start
        <= ns[k + 1].open_pos by {
        assert(os[k].content_start <= os[k + 1].open_pos);
    }
    assert forall|k: int| 0 <= k < ns.len() implies ns[0].open_pos <= (
    #[trigger] ns[k]).open_pos by {
        assert(os[0].open_pos <= os[k].open_pos);
    }
    assert forall|i: int| 0 <= i < node.children.len() implies anchored(
        #[trigger] node.children@[i],
        b,
        off,
    ) by {
        assert(anchored(f.children@[i], b, off));
    }
    assert forall|i: int| 0 <= i < node.children.len() implies {
        &&& node.span.start <= (#[trigger] node.children@[i]).span.start
        &&& node.children@[i].span.end <= node.span.end
        &&& nested(node.children@[i])
    } by {
        assert(within(f.children@[i], off + f.content_start, off + idx));
    }
}

spec fn dest_of_none(node: AstNode) -> bool {
    crate::ast::dest_of(node.kind).is_none()
}

/// Opening a frame at `idx` keeps the state sound with the flush point after
/// its opening marker.
proof fn lemma_open(b: Seq<u8>, off: int, on: Seq<AstNode>, os: Seq<Delimiter>, idx: int, f: Delimiter)
    requires
        scan_ok(b, off, on, os, idx),
        frame_ok(b, f),
        f.open_pos == idx,
        f.children@.len() == 0,
    ensures
        scan_ok(b, off, on, os.push(f), f.content_start as int),
{
    let ns = os.push(f);
    let m = os.len();
    assert forall|k: int| 0 <= k < m implies ns[k] == os[k] by {}
    assert(ns[m as int] == f);
    if m > 0 {
        assert(frame_ok(b, os[m - 1]));
        assert(os[0].open_pos <= os[m - 1].open_pos);
    }
    assert forall|k: int| 0 <= k < ns.len() implies frame_ok(b, #[trigger] ns[k]) by {
        if k < m {
            assert(frame_ok(b, os[k]));
        }
    }
    assert forall|k: int| 0 <= k < ns.len() - 1 implies (#[trigger] ns[k]).content_start
        <= ns[k + 1].open_pos by {
        if k < m - 1 {
            assert(os[k].content_start <= os[k + 1].open_pos);
        }
    }
    assert forall|k: int| 0 <= k < ns.len() implies ns[0].open_pos <= (
    #[trigger] ns[k]).open_pos by {
        if k < m {
            assert(os[0].open_pos <= os[k].open_pos);
        }
    }
    assert(nodes_hi(ns, off, f.content_start as int) == nodes_hi(os, off, idx));
    assert forall|k: int| 0 <= k < ns.len() implies seq_ok(
        (#[trigger] ns[k]).children@,
        b,
        off,
        off + ns[k].content_start,
        list_hi(ns, k, off, f.content_start as int),
    ) by {
        if k < m {
            assert(seq_ok(
                os[k].children@,
                b,
                off,
                off + os[k].content_start,
                list_hi(os, k, off, idx),
            ));
        } else {
            assert(in_order(f.children@));
        }
    }
}

/// The link or image node a successful `parse_link_or_image` gives is anchored
/// in the line and lies between `idx` and where scanning resumes.
proof fn lemma_link_node_ok(b: Seq<u8>, off: int, idx: int, node: AstNode)
    requires
        0 <= idx < b.len(),
        0 <= off,
        off + b.len() <= usize::MAX,
        link_shape(b, idx) matches Some((img, ls, le, ds, de, nx)) && link_node(
            node,
            img,
            ls,
            le,
            ds,
            de,
            off,
        ),
    ensures
        anchored(node, b, off),
        within(node, off + idx, off + link_shape(b, idx).unwrap().5),
{
    lemma_link_shape(b, idx);
    let (img, ls, le, ds, de, nx) = link_shape(b, idx).unwrap();
    if ls < le {
        assert(anchored(node.children@[0], b, off));
        assert(nested(node.children@[0]));
    }
}

/// Flushes the text before `idx`, then hands `node`, which lies between `idx`
/// and `next`, to the innermost open delimiter or the output.
fn emit(
    delim_stack: &mut Vec<Delimiter>,
    nodes: &mut Vec<AstNode>,
    last_emit: usize,
    idx: usize,
    node: AstNode,
    next: usize,
    offset: usize,
    Ghost(b): Ghost<Seq<u8>>,
)
    requires
        scan_ok(b, offset as int, old(nodes)@, old(delim_stack)@, last_emit as int),
        last_emit <= idx < next <= b.len(),
        offset + b.len() <= usize::MAX,
        ascii_adjacent(b, idx as int),
        ascii_adjacent(b, next as int),
        anchored(node, b, offset as int),
        within(node, offset + idx, offset + next),
    ensures
        scan_ok(b, offset as int, final(nodes)@, final(delim_stack)@, next as int),
        sv(next as int, next as int, final(nodes)@, final(delim_stack)@) == emit_at(
            sv(idx as int, last_emit as int, old(nodes)@, old(delim_stack)@),
            idx as int,
            view_node(node),
            next as int,
            offset as int,
        ),
{
    let ghost off = offset as int;
    let ghost st0 = sv(idx as int, last_emit as int, nodes@, delim_stack@);
    if last_emit < idx {
        let ghost os1 = delim_stack@;
        let ghost on1 = nodes@;
        push_plain(delim_stack, nodes, last_emit, idx, offset);
        proof {
            lemma_emit(b, off, on1, os1, nodes@, delim_stack@, last_emit as int,
                last_emitted(delim_stack@, nodes@), idx as int);
        }
    }
    let ghost st1 = sv(idx as int, last_emit as int, nodes@, delim_stack@);
    proof {
        assert(st1 == flush_v(st0, idx as int, off));
    }
    let ghost os2 = delim_stack@;
    let ghost on2 = nodes@;
    let ghost nd = node;
    push_node(delim_stack, nodes, node);
    proof {
        lemma_emit(b, off, on2, os2, nodes@, delim_stack@, idx as int, nd, next as int);
        lemma_emitted_view(os2, on2, delim_stack@, nodes@, nd, idx as int, last_emit as int);
    }
}

/// Flushes the text before `idx`, then closes the innermost open delimiter,
/// whose closing marker of length `close_len` sits at `idx`.
fn close_frame(
    delim_stack: &mut Vec<Delimiter>,
    nodes: &mut Vec<AstNode>,
    last_emit: usize,
    idx: usize,
    close_len: usize,
    defs: &Vec<DelimiterDef>,
    offset: usize,
    Ghost(b): Ghost<Seq<u8>>,
)
    requires
        scan_ok(b, offset as int, old(nodes)@, old(delim_stack)@, last_emit as int),
        old(delim_stack)@.len() > 0,
        defs_ok(defs@),
        last_emit <= idx < idx + close_len <= b.len(),
        offset + b.len() <= usize::MAX,
        ascii_adjacent(b, idx as int),
        ascii_adjacent(b, idx + close_len),
    ensures
        scan_ok(b, offset as int, final(nodes)@, final(delim_stack)@, idx + close_len),
        sv(idx + close_len, idx + close_len, final(nodes)@, final(delim_stack)@) == close_at(
            sv(idx as int, last_emit as int, old(nodes)@, old(delim_stack)@),
            idx as int,
            close_len as int,
            offset as int,
        ),
{
    let ghost off = offset as int;
    let ghost st0 = sv(idx as int, last_emit as int, nodes@, delim_stack@);
    if last_emit < idx {
        let ghost os1 = delim_stack@;
        let ghost on1 = nodes@;
        push_plain(delim_stack, nodes, last_emit, idx, offset);
        proof {
            lemma_emit(b, off, on1, os1, nodes@, delim_stack@, last_emit as int,
                last_emitted(delim_stack@, nodes@), idx as int);
        }
    }
    let ghost os2 = delim_stack@;
    let ghost on2 = nodes@;
    let top = delim_stack.pop().unwrap();
    proof {
        assert(top == os2.last());
        assert(frame_ok(b, top));
    }
    let def = &defs[top.def_index];
    let node = AstNode {
        kind: def.ast_kind(),
        span: Span { start: top.content_start + offset, end: idx + offset },
        attrs: None,
        children: top.children,
    };
    let ghost os3 = delim_stack@;
    let ghost nd = node;
    proof {
        assert(os3 == os2.drop_last());
        assert(delim_kind_node(defs@[top.def_index as int].kind) == marker_kind(top.def_index as int));
        lemma_close(b, off, on2, os2, idx as int, nd);
        let st1 = sv(idx as int, last_emit as int, on2, os2);
        assert(st1 == flush_v(st0, idx as int, off));
        lemma_view_children(nd);
        assert(stack_view(os3) =~= stack_view(os2).drop_last());
        assert(view_node(nd) == NodeV {
            kind: marker_kind(st1.stack.last().def),
            span: Span {
                start: (st1.stack.last().content_start + off) as usize,
                end: (idx + off) as usize,
            },
            attrs: None,
            children: st1.stack.last().children,
        });
    }
    push_node(delim_stack, nodes, node);
    proof {
        lemma_emit(b, off, on2, os3, nodes@, delim_stack@, os2.last().open_pos as int, nd,
            idx + close_len);
        lemma_emitted_view(os3, on2, delim_stack@, nodes@, nd, idx as int, last_emit as int);
    }
}

/// Flushes the text before `idx`, then opens delimiter `def_index`, whose
/// opening marker of length `open_len` sits at `idx`.
fn open_frame(
    delim_stack: &mut Vec<Delimiter>,
    nodes: &mut Vec<AstNode>,
    last_emit: usize,
    idx: usize,
    def_index: usize,
    open_len: usize,
    offset: usize,
    Ghost(b): Ghost<Seq<u8>>,
)
    requires
        scan_ok(b, offset as int, old(nodes)@, old(delim_stack)@, last_emit as int),
        def_index < NUM_DELIMITERS,
        last_emit <= idx < idx + open_len <= b.len(),
        offset + b.len() <= usize::MAX,
        ascii_adjacent(b, idx as int),
        ascii_adjacent(b, idx + open_len),
    ensures
        scan_ok(b, offset as int, final(nodes)@, final(delim_stack)@, idx + open_len),
        sv(idx + open_len, idx + open_len, final(nodes)@, final(delim_stack)@) == open_at(
            sv(idx as int, last_emit as int, old(nodes)@, old(delim_stack)@),
            idx as int,
            def_index as int,
            open_len as int,
            offset as int,
        ),
{
    let ghost off = offset as int;
    let ghost st0 = sv(idx as int, last_emit as int, nodes@, delim_stack@);
    if last_emit < idx {
        let ghost os1 = delim_stack@;
        let ghost on1 = nodes@;
        push_plain(delim_stack, nodes, last_emit, idx, offset);
        proof {
            lemma_emit(b, off, on1, os1, nodes@, delim_stack@, last_emit as int,
                last_emitted(delim_stack@, nodes@), idx as int);
        }
    }
    let ghost os2 = delim_stack@;
    let frame = Delimiter {
        def_index,
        open_pos: idx,
        content_start: idx + open_len,
        children: Vec::new(),
    };
    let ghost fr = frame;
    delim_stack.push(frame);
    proof {
        lemma_open(b, off, nodes@, os2, idx as int, fr);
        assert(sv(idx as int, last_emit as int, nodes@, os2) == flush_v(st0, idx as int, off));
        assert(view_nodes(fr.children@) =~= Seq::<NodeV>::empty());
        assert(stack_view(delim_stack@) =~= stack_view(os2).push(frame_view(fr)));
    }
}

/// An inline node as a mathematical value: what `AstNode` holds, with its
/// children as a sequence.
pub ghost struct NodeV {
    pub kind: AstKind,
    pub span: Span,
    pub attrs: Option<Attrs>,
    pub children: Seq<NodeV>,
}

pub open spec fn view_node(n: AstNode) -> NodeV
    decreases n, 1int, 0int,
{
    NodeV {
        kind: n.kind,
        span: n.span,
        attrs: n.attrs,
        children: view_list(n, n.children.len() as int),
    }
}

/// The views of the first `k` children of `n`.
pub open spec fn view_list(n: AstNode, k: int) -> Seq<NodeV>
    decreases n, 0int, k,
{
    if k <= 0 || k > n.children.len() {
        Seq::empty()
    } else {
        view_list(n, k - 1).push(view_node(n.children@[k - 1]))
    }
}

pub open spec fn view_nodes(ns: Seq<AstNode>) -> Seq<NodeV> {
    ns.map_values(|n: AstNode| view_node(n))
}

/// A node without children over `[s, e)`.
pub open spec fn leaf_v(kind: AstKind, s: int, e: int) -> NodeV {
    NodeV {
        kind,
        span: Span { start: s as usize, end: e as usize },
        attrs: None,
        children: Seq::empty(),
    }
}

/// The link or image with label `[ls, le)` and destination `[ds, de)`.
pub open spec fn link_v(img: bool, ls: int, le: int, ds: int, de: int, off: int) -> NodeV {
    let dest = if ds < de {
        Some(Span { start: (ds + off) as usize, end: (de + off) as usize })
    } else {
        None
    };
    NodeV {
        kind: if img {
            AstKind::Image { dest_span: dest, title_span: None }
        } else {
            AstKind::Link { dest_span: dest, title_span: None }
        },
        span: Span { start: (ls + off) as usize, end: (le + off) as usize },
        attrs: None,
        children: if ls < le {
            seq![leaf_v(AstKind::PlainText, ls + off, le + off)]
        } else {
            Seq::empty()
        },
    }
}

/// An open delimiter: its index in the table, where its marker starts, where
/// its content starts, and the nodes gathered since.
pub ghost struct FrameV {
    pub def: int,
    pub open_pos: int,
    pub content_start: int,
    pub children: Seq<NodeV>,
}

/// The state of the scan over a line: the position, the flush point, the
/// output so far, and the stack of open delimiters.
pub ghost struct ScanV {
    pub idx: int,
    pub last_emit: int,
    pub nodes: Seq<NodeV>,
    pub stack: Seq<FrameV>,
}

/// `node` goes to the innermost open delimiter, or to the output.
pub open spec fn emit_v(st: ScanV, node: NodeV) -> ScanV {
    if st.stack.len() > 0 {
        let top = st.stack.last();
        ScanV {
            stack: st.stack.drop_last().push(FrameV { children: top.children.push(node), ..top }),
            ..st
        }
    } else {
        ScanV { nodes: st.nodes.push(node), ..st }
    }
}

/// The text between the flush point and `upto`, if any, becomes a plain node.
pub open spec fn flush_v(st: ScanV, upto: int, off: int) -> ScanV {
    if st.last_emit < upto {
        emit_v(st, leaf_v(AstKind::PlainText, st.last_emit + off, upto + off))
    } else {
        st
    }
}

/// Flushes up to `idx`, emits `node`, and resumes at `next`.
pub open spec fn emit_at(st: ScanV, idx: int, node: NodeV, next: int, off: int) -> ScanV {
    ScanV { idx: next, last_emit: next, ..emit_v(flush_v(st, idx, off), node) }
}

/// Flushes up to `idx`, closes the innermost delimiter into its node, and
/// resumes after its closing marker of length `len`.
pub open spec fn close_at(st: ScanV, idx: int, len: int, off: int) -> ScanV {
    let s1 = flush_v(st, idx, off);
    let top = s1.stack.last();
    let node = NodeV {
        kind: marker_kind(top.def),
        span: Span { start: (top.content_start + off) as usize, end: (idx + off) as usize },
        attrs: None,
        children: top.children,
    };
    ScanV {
        idx: idx + len,
        last_emit: idx + len,
        ..emit_v(ScanV { stack: s1.stack.drop_last(), ..s1 }, node)
    }
}

/// Flushes up to `idx` and opens delimiter `i`, whose marker has length `len`.
pub open spec fn open_at(st: ScanV, idx: int, i: int, len: int, off: int) -> ScanV {
    let s1 = flush_v(st, idx, off);
    ScanV {
        idx: idx + len,
        last_emit: idx + len,
        stack: s1.stack.push(
            FrameV { def: i, open_pos: idx, content_start: idx + len, children: Seq::empty() },
        ),
        ..s1
    }
}

/// The delimiter among the first `i` of the table that opens at `idx`: the
/// longest opening marker there, the earliest among equals.
pub open spec fn open_best(b: Seq<u8>, idx: int, i: int) -> Option<(int, int)>
    decreases i,
{
    if i <= 0 {
        None
    } else {
        let prev = open_best(b, idx, i - 1);
        if occurs_at(b, idx, open_marker(i - 1)) {
            let len = open_marker(i - 1).len() as int;
            match prev {
                None => Some((i - 1, len)),
                Some((_, best_len)) => if len > best_len {
                    Some((i - 1, len))
                } else {
                    prev
                },
            }
        } else {
            prev
        }
    }
}

/// How many `$` open a math span at `idx`.
pub open spec fn dollar_run(b: Seq<u8>, idx: int) -> int {
    if idx + 1 < b.len() && b[idx + 1] == 0x24 {
        2
    } else {
        1
    }
}

/// One step of the scan at `st.idx`: a link or image; else a math span after
/// `$` or `$$`; else a code span; else the closing marker of the innermost open
/// delimiter; else an opening marker; else the byte is passed over.
pub open spec fn step(b: Seq<u8>, off: int, st: ScanV) -> ScanV {
    let idx = st.idx;
    let run = dollar_run(b, idx);
    if let Some((img, ls, le, ds, de, nx)) = link_shape(b, idx) {
        emit_at(st, idx, link_v(img, ls, le, ds, de, off), nx, off)
    } else if b[idx] == 0x24 && backtick_span(b, idx + run).is_some() {
        let (s, e, nx) = backtick_span(b, idx + run).unwrap();
        let kind = if run == 2 {
            AstKind::MathDisplay
        } else {
            AstKind::MathInline
        };
        emit_at(st, idx, leaf_v(kind, s + off, e + off), nx, off)
    } else if let Some((s, e, nx)) = backtick_span(b, idx) {
        emit_at(st, idx, leaf_v(AstKind::Code, s + off, e + off), nx, off)
    } else if st.stack.len() > 0 && occurs_at(b, idx, close_marker(st.stack.last().def)) {
        close_at(st, idx, close_marker(st.stack.last().def).len() as int, off)
    } else if let Some((i, len)) = open_best(b, idx, NUM_DELIMITERS as int) {
        open_at(st, idx, i, len, off)
    } else {
        ScanV { idx: idx + 1, ..st }
    }
}

/// The smallest opening position among the first `k` open delimiters.
pub open spec fn earliest_open(stack: Seq<FrameV>, k: int) -> int
    decreases k,
{
    if k <= 1 {
        stack[0].open_pos
    } else {
        let m = earliest_open(stack, k - 1);
        if stack[k - 1].open_pos < m {
            stack[k - 1].open_pos
        } else {
            m
        }
    }
}

/// The end of the line: delimiters still open are not formatting; the text
/// from the earliest of them (or from the flush point) to the end of the line
/// becomes one plain node.
pub open spec fn finish(b: Seq<u8>, off: int, st: ScanV) -> Seq<NodeV> {
    let le = if st.stack.len() > 0 && earliest_open(st.stack, st.stack.len() as int) < st.last_emit {
        earliest_open(st.stack, st.stack.len() as int)
    } else {
        st.last_emit
    };
    if le < b.len() {
        st.nodes.push(leaf_v(AstKind::PlainText, le + off, b.len() + off))
    } else {
        st.nodes
    }
}

/// The scan from `st` to the end of the line.
pub open spec fn run_scan(b: Seq<u8>, off: int, st: ScanV) -> Seq<NodeV>
    decreases b.len() - st.idx,
    via run_scan_decreases
{
    if st.idx < 0 || st.idx >= b.len() {
        finish(b, off, st)
    } else {
        run_scan(b, off, step(b, off, st))
    }
}

#[via_fn]
proof fn run_scan_decreases(b: Seq<u8>, off: int, st: ScanV) {
    if 0 <= st.idx < b.len() {
        lemma_step_progress(b, off, st);
    }
}

/// The inline nodes of the line `b`, which starts at `off` in the buffer.
pub open spec fn inline_spec(b: Seq<u8>, off: int) -> Seq<NodeV> {
    run_scan(b, off, ScanV { idx: 0, last_emit: 0, nodes: Seq::empty(), stack: Seq::empty() })
}

proof fn lemma_backtick_span_bounds(b: Seq<u8>, j: int)
    requires
        0 <= j <= b.len(),
    ensures
        backtick_span(b, j) matches Some((s, e, nx)) ==> j < s <= e <= nx <= b.len(),
{
    lemma_run_len_bounds(b, j);
    let run = run_len(b, j) as int;
    if run > 0 {
        lemma_closer_bounds(b, j + run, run);
    }
}

proof fn lemma_open_best(b: Seq<u8>, idx: int, i: int)
    requires
        0 <= i <= NUM_DELIMITERS,
    ensures
        open_best(b, idx, i) matches Some((k, len)) ==> 0 <= k < i && occurs_at(b, idx, open_marker(k))
            && len == open_marker(k).len() && len >= 1,
    decreases i,
{
    if i > 0 {
        lemma_open_best(b, idx, i - 1);
        lemma_markers_ascii(i - 1);
    }
}

proof fn lemma_step_progress(b: Seq<u8>, off: int, st: ScanV)
    requires
        0 <= st.idx < b.len(),
    ensures
        st.idx < step(b, off, st).idx <= b.len(),
{
    let idx = st.idx;
    lemma_link_shape(b, idx);
    let run = dollar_run(b, idx);
    lemma_backtick_span_bounds(b, idx + run);
    lemma_backtick_span_bounds(b, idx);
    lemma_open_best(b, idx, NUM_DELIMITERS as int);
    if st.stack.len() > 0 {
        let d = st.stack.last().def;
        assert(close_marker(d).len() >= 1);
    }
}

spec fn frame_view(f: Delimiter) -> FrameV {
    FrameV {
        def: f.def_index as int,
        open_pos: f.open_pos as int,
        content_start: f.content_start as int,
        children: view_nodes(f.children@),
    }
}

spec fn stack_view(st: Seq<Delimiter>) -> Seq<FrameV> {
    st.map_values(|f: Delimiter| frame_view(f))
}

/// The scan state that the executable state stands for.
spec fn sv(idx: int, last_emit: int, nodes: Seq<AstNode>, stack: Seq<Delimiter>) -> ScanV {
    ScanV { idx, last_emit, nodes: view_nodes(nodes), stack: stack_view(stack) }
}

proof fn lemma_view_list(n: AstNode, k: int)
    requires
        0 <= k <= n.children.len(),
    ensures
        view_list(n, k) == view_nodes(n.children@.subrange(0, k)),
    decreases k,
{
    if k > 0 {
        lemma_view_list(n, k - 1);
        assert(n.children@.subrange(0, k) =~= n.children@.subrange(0, k - 1).push(
            n.children@[k - 1],
        ));
    }
    assert(view_list(n, k) =~= view_nodes(n.children@.subrange(0, k)));
}

pub proof fn lemma_view_children(n: AstNode)
    ensures
        view_node(n).children == view_nodes(n.children@),
{
    lemma_view_list(n, n.children.len() as int);
    assert(n.children@.subrange(0, n.children.len() as int) =~= n.children@);
}

proof fn lemma_leaf_view(n: AstNode, kind: AstKind, s: int, e: int)
    requires
        n.kind == kind,
        n.span.start == s,
        n.span.end == e,
        n.attrs.is_none(),
        n.children.len() == 0,
    ensures
        view_node(n) == leaf_v(kind, s, e),
{
    lemma_view_children(n);
    assert(view_node(n).children =~= Seq::<NodeV>::empty());
}

proof fn lemma_link_view(n: AstNode, img: bool, ls: int, le: int, ds: int, de: int, off: int)
    requires
        link_node(n, img, ls, le, ds, de, off),
    ensures
        view_node(n) == link_v(img, ls, le, ds, de, off),
{
    lemma_view_children(n);
    if ls < le {
        lemma_leaf_view(n.children@[0], AstKind::PlainText, ls + off, le + off);
        assert(view_node(n).children =~= seq![leaf_v(AstKind::PlainText, ls + off, le + off)]);
    } else {
        assert(view_node(n).children =~= Seq::<NodeV>::empty());
    }
}

proof fn lemma_emitted_view(
    os: Seq<Delimiter>,
    on: Seq<AstNode>,
    ns: Seq<Delimiter>,
    nn: Seq<AstNode>,
    node: AstNode,
    idx: int,
    le: int,
)
    requires
        emitted(os, on, ns, nn, node),
    ensures
        sv(idx, le, nn, ns) == emit_v(sv(idx, le, on, os), view_node(node)),
{
    if os.len() > 0 {
        let top = os.last();
        let ntop = ns.last();
        assert(ns =~= os.drop_last().push(ntop));
        assert(view_nodes(ntop.children@) =~= view_nodes(top.children@).push(view_node(node)));
        assert(stack_view(ns) =~= stack_view(os).drop_last().push(
            FrameV { children: frame_view(top).children.push(view_node(node)), ..frame_view(top) },
        ));
    } else {
        assert(view_nodes(nn) =~= view_nodes(on).push(view_node(node)));
    }
}

} // verus!
