//! Line-based parsing context: normalizes newlines, indexes lines once, and
//! gives constant-time access to lines with lookahead.
use crate::text::{
    all_white_space, ascii_adjacent, lemma_ascii_adjacent_is_boundary, lemma_encode_concat,
    substr,
};
use vstd::prelude::*;
use vstd::string::{StringExecFns, StringSliceAdditionalSpecFns};
use vstd::utf8::*;

verus! {

broadcast use vstd::seq::group_seq_axioms;

pub const LF: u8 = 10;

pub const CR: u8 = 13;

/// The byte range `[start, end)` of one line, its terminator included.
#[derive(Debug)]
pub struct Range {
    pub start: usize,
    pub end: usize,
}

#[derive(Debug)]
pub struct Context {
    /// The normalized source text.
    pub buf: String,
    pub line_range: Vec<Range>,
    /// Index of the first unconsumed line
    pub cur_line_position: usize,
}

/// `b` with every CRLF pair and every lone CR turned into LF.
pub open spec fn normalized(b: Seq<u8>) -> Seq<u8>
    decreases b.len(),
{
    if b.len() == 0 {
        b
    } else if b[0] == CR && b.len() >= 2 && b[1] == LF {
        seq![LF] + normalized(b.subrange(2, b.len() as int))
    } else if b[0] == CR {
        seq![LF] + normalized(b.subrange(1, b.len() as int))
    } else {
        seq![b[0]] + normalized(b.subrange(1, b.len() as int))
    }
}

/// `r` cuts `b` into its lines: non-empty, contiguous ranges without gaps that
/// together cover `b`, each ending just after an LF except possibly the last,
/// and holding no other LF.
#[verifier::opaque]
pub open spec fn line_table(b: Seq<u8>, r: Seq<Range>) -> bool {
    &&& (b.len() == 0 <==> r.len() == 0)
    &&& r.len() > 0 ==> r[0].start == 0 && r.last().end == b.len()
    &&& forall|k: int| 0 <= k < r.len() ==> (#[trigger] r[k]).start < r[k].end
    &&& forall|k: int|
        0 <= k < r.len() - 1 ==> (#[trigger] r[k]).end == r[k + 1].start && b[r[k].end - 1] == LF
    &&& forall|k: int, j: int|
        0 <= k < r.len() && (#[trigger] r[k]).start <= j < r[k].end - 1 ==> #[trigger] b[j] != LF
}

/// Where the line that starts at `s` ends: just after the next LF, or at the
/// end of the text.
pub open spec fn next_break(b: Seq<u8>, s: int) -> int
    decreases b.len() - s,
{
    if s < 0 || s >= b.len() {
        b.len() as int
    } else if b[s] == LF {
        s + 1
    } else {
        next_break(b, s + 1)
    }
}

/// The line table of `b`, which `lemma_line_table_unique` shows is the only one.
pub open spec fn lines_of(b: Seq<u8>) -> Seq<Range> {
    choose|r: Seq<Range>| line_table(b, r)
}

proof fn lemma_next_break(b: Seq<u8>, s: int, e: int)
    requires
        0 <= s < e <= b.len(),
        forall|j: int| s <= j < e - 1 ==> b[j] != LF,
        b[e - 1] == LF || e == b.len(),
    ensures
        next_break(b, s) == e,
    decreases e - s,
{
    if b[s] != LF {
        if s + 1 < e {
            lemma_next_break(b, s + 1, e);
        } else {
            assert(next_break(b, s + 1) == b.len());
        }
    }
}

proof fn lemma_table_ends(b: Seq<u8>, r: Seq<Range>, k: int)
    requires
        line_table(b, r),
        0 <= k < r.len(),
    ensures
        r[k].end == next_break(b, r[k].start as int),
        r[k].end <= b.len(),
{
    reveal(line_table);
    lemma_line_range_bounds(b, r, k);
    if k < r.len() - 1 {
        assert(b[r[k].end - 1] == LF);
    }
    assert forall|j: int| r[k].start <= j < r[k].end - 1 implies b[j] != LF by {
        assert(r[k].start <= j < r[k].end - 1);
    }
    lemma_next_break(b, r[k].start as int, r[k].end as int);
}

/// A text has one line table only.
pub proof fn lemma_line_table_unique(b: Seq<u8>, r1: Seq<Range>, r2: Seq<Range>)
    requires
        line_table(b, r1),
        line_table(b, r2),
    ensures
        r1 == r2,
{
    reveal(line_table);
    let m = if r1.len() < r2.len() { r1.len() as int } else { r2.len() as int };
    assert forall|k: int| 0 <= k < m implies r1[k] == r2[k] by {
        lemma_tables_agree(b, r1, r2, k);
    }
    if r1.len() < r2.len() {
        lemma_table_ends(b, r2, m);
        lemma_tables_agree(b, r1, r2, m - 1);
        assert(r2[m - 1].end == r2[m].start);
        lemma_line_range_bounds(b, r2, m);
    } else if r2.len() < r1.len() {
        lemma_table_ends(b, r1, m);
        lemma_tables_agree(b, r1, r2, m - 1);
        assert(r1[m - 1].end == r1[m].start);
        lemma_line_range_bounds(b, r1, m);
    }
    assert(r1 =~= r2);
}

proof fn lemma_tables_agree(b: Seq<u8>, r1: Seq<Range>, r2: Seq<Range>, k: int)
    requires
        line_table(b, r1),
        line_table(b, r2),
        0 <= k < r1.len(),
        k < r2.len(),
    ensures
        r1[k] == r2[k],
    decreases k,
{
    reveal(line_table);
    if k > 0 {
        lemma_tables_agree(b, r1, r2, k - 1);
        assert(r1[k - 1].end == r1[k].start);
        assert(r2[k - 1].end == r2[k].start);
    }
    lemma_table_ends(b, r1, k);
    lemma_table_ends(b, r2, k);
}

/// A context's lines are the line table of its text.
pub proof fn lemma_lines_of(b: Seq<u8>, r: Seq<Range>)
    requires
        line_table(b, r),
    ensures
        lines_of(b) == r,
{
    lemma_line_table_unique(b, lines_of(b), r);
}

/// Where the content of the line `[start, end)` stops: before its LF, if it has one.
pub open spec fn content_end(b: Seq<u8>, start: int, end: int) -> int {
    if start < end && b[end - 1] == LF {
        end - 1
    } else {
        end
    }
}

pub open spec fn line_start_of(r: Seq<Range>, j: int) -> int {
    r[j].start as int
}

/// Where the content of line `j` of the table `r` over `t` ends.
pub open spec fn line_end_of(t: Seq<u8>, r: Seq<Range>, j: int) -> int {
    content_end(t, r[j].start as int, r[j].end as int)
}

/// Line `j` of the table `r` over `t`, without its terminator.
pub open spec fn line_of(t: Seq<u8>, r: Seq<Range>, j: int) -> Seq<u8> {
    t.subrange(line_start_of(r, j), line_end_of(t, r, j))
}

pub open spec fn line_blank_of(t: Seq<u8>, r: Seq<Range>, j: int) -> bool {
    all_white_space(decode_utf8(line_of(t, r, j)))
}

impl Context {
    /// The normalized text the context reads.
    pub open spec fn text(&self) -> Seq<u8> {
        encode_utf8(self.buf@)
    }

    pub open spec fn wf(&self) -> bool {
        &&& valid_utf8(self.text())
        &&& line_table(self.text(), self.line_range@)
        &&& self.cur_line_position <= self.line_range.len()
    }

    pub open spec fn num_lines(&self) -> int {
        self.line_range.len() as int
    }

    pub open spec fn line_start(&self, j: int) -> int {
        line_start_of(self.line_range@, j)
    }

    /// Where line `j`'s content ends, its terminator left out.
    pub open spec fn line_content_end(&self, j: int) -> int {
        line_end_of(self.text(), self.line_range@, j)
    }

    /// Line `j` without its terminator.
    pub open spec fn line(&self, j: int) -> Seq<u8> {
        line_of(self.text(), self.line_range@, j)
    }

    /// Line `j` as characters.
    pub open spec fn line_chars(&self, j: int) -> Seq<char> {
        decode_utf8(self.line(j))
    }

    /// Line `j` is empty or white space only.
    pub open spec fn line_blank(&self, j: int) -> bool {
        line_blank_of(self.text(), self.line_range@, j)
    }

    /// The buffer offset of the cursor: where the current line starts, or the
    /// end of the text once every line is consumed.
    pub open spec fn cursor_offset(&self) -> int {
        if self.cur_line_position < self.num_lines() {
            self.line_start(self.cur_line_position as int)
        } else {
            self.text().len() as int
        }
    }

    /// Both contexts read the same text, cut into the same lines.
    pub open spec fn same_lines(&self, other: &Context) -> bool {
        &&& self.text() == other.text()
        &&& self.line_range@ == other.line_range@
    }

    pub proof fn lemma_text_valid(&self)
        ensures
            valid_utf8(self.text()),
    {
        encode_utf8_valid_utf8(self.buf@);
    }

    /// Each line of a well-formed context lies between character boundaries.
    pub proof fn lemma_line_bounds(&self, j: int)
        requires
            self.wf(),
            0 <= j < self.num_lines(),
        ensures
            0 <= self.line_start(j) <= self.line_content_end(j) <= self.line_range@[j].end
                <= self.text().len(),
            is_char_boundary(self.text(), self.line_start(j)),
            is_char_boundary(self.text(), self.line_content_end(j)),
            valid_utf8(self.line(j)),
            self.line_content_end(j) < self.line_range@[j].end ==> self.text()[self.line_content_end(j)] == LF,
            forall|i: int| self.line_start(j) <= i < self.line_content_end(j) ==> self.text()[i] != LF,
            j > 0 ==> self.line_range@[j - 1].end == self.line_range@[j].start,
            j < self.num_lines() - 1 ==> self.text()[self.line_range@[j].end - 1] == LF,
            j == self.num_lines() - 1 ==> self.line_range@[j].end == self.text().len(),
            is_char_boundary(self.text(), self.line_range@[j].end as int),
            self.line_start(j) < self.line_range@[j].end,
    {
        let b = self.text();
        let r = self.line_range@;
        reveal(line_table);
        lemma_line_range_bounds(b, r, j);
        let s = self.line_start(j);
        let e = self.line_content_end(j);
        if j > 0 {
            assert(r[j - 1].end == r[j].start);
            assert(b[s - 1] == LF);
        }
        assert(ascii_adjacent(b, s));
        lemma_ascii_adjacent_is_boundary(b, s);
        if e < r[j].end {
            assert(ascii_adjacent(b, e));
        } else if j < r.len() - 1 {
            assert(b[e - 1] == LF);
        } else {
            assert(e == b.len());
        }
        assert(ascii_adjacent(b, e));
        lemma_ascii_adjacent_is_boundary(b, e);
        crate::text::lemma_valid_subrange(b, s, e);
        assert forall|i: int| s <= i < e implies b[i] != LF by {
            if i < r[j].end - 1 {
                assert(r[j].start <= i < r[j].end - 1);
            }
        }
        if j < r.len() - 1 {
            assert(r[j].end == r[j + 1].start);
            lemma_line_range_bounds(b, r, j + 1);
        }
        assert(ascii_adjacent(b, r[j].end as int));
        lemma_ascii_adjacent_is_boundary(b, r[j].end as int);
    }

    /// Create a context from source text.
    ///
    /// Normalizes newline sequences (CRLF and CR -> LF) and pre-indexes line
    /// ranges so that lookups are O(1) and return borrowed `&str` slices.
    pub fn new(src: &str) -> (r: Self)
        ensures
            r.wf(),
            r.text() == normalized(src.spec_bytes()),
            r.line_range@ == lines_of(r.text()),
            r.cur_line_position == 0,
    {
        let buf = normalize_newlines(src);
        let line_range = index_lines(buf.as_str());
        proof {
            encode_utf8_valid_utf8(buf@);
            lemma_lines_of(encode_utf8(buf@), line_range@);
        }
        Context { buf, line_range, cur_line_position: 0 }
    }

    /// Total number of lines indexed.
    pub fn line_count(&self) -> (r: usize)
        ensures
            r == self.line_range.len(),
    {
        self.line_range.len()
    }

    /// Returns the current line without the trailing newline, if any.
    ///
    /// Returns `None` at EOF.
    pub fn peek_line(&self) -> (r: Option<&str>)
        requires
            self.wf(),
        ensures
            r.is_some() <==> self.cur_line_position < self.num_lines(),
            r.is_some() ==> r.unwrap().spec_bytes() == self.line(self.cur_line_position as int),
    {
        self.peek_line_n(0)
    }

    /// Returns the nth lookahead line (0 = current), or `None` if out of bounds.
    pub fn peek_line_n(&self, n: usize) -> (r: Option<&str>)
        requires
            self.wf(),
        ensures
            r.is_some() <==> self.cur_line_position + n < self.num_lines(),
            r.is_some() ==> r.unwrap().spec_bytes() == self.line(self.cur_line_position + n),
    {
        let j = match self.cur_line_position.checked_add(n) {
            Some(j) => j,
            None => return None,
        };
        if j >= self.line_range.len() {
            return None;
        }
        let s = self.buf.as_str();
        let bytes = s.as_bytes();
        let start = self.line_range[j].start;
        let mut end = self.line_range[j].end;
        proof {
            lemma_line_range_bounds(self.text(), self.line_range@, j as int);
        }
        // Slice the line, trimming a single trailing '\n' if present so callers
        // see line content without the newline.
        if end > start && bytes[end - 1] == LF {
            end = end - 1;
        }
        proof {
            self.lemma_line_bounds(j as int);
        }
        Some(substr(s, start, end))
    }

    /// True if there are no more lines to consume.
    pub fn is_eof(&self) -> (r: bool)
        ensures
            r == (self.cur_line_position >= self.num_lines()),
    {
        self.cur_line_position >= self.line_count()
    }

    /// Advance to the next line (no-op at EOF).
    pub fn advance(&mut self)
        requires
            old(self).wf(),
        ensures
            final(self).wf(),
            final(self).same_lines(old(self)),
            final(self).cur_line_position == if old(self).cur_line_position < old(self).num_lines() {
                old(self).cur_line_position + 1
            } else {
                old(self).cur_line_position as int
            },
    {
        if !self.is_eof() {
            self.cur_line_position = self.cur_line_position + 1;
        }
    }

    /// Returns the current line, or an empty string at EOF.
    ///
    /// This makes it convenient to call `is_blank(ctx.current_line())` without
    /// checking for `None`.
    pub fn current_line(&self) -> (r: &str)
        requires
            self.wf(),
        ensures
            self.cur_line_position < self.num_lines() ==> r.spec_bytes() == self.line(
                self.cur_line_position as int,
            ),
            self.cur_line_position >= self.num_lines() ==> r@.len() == 0,
            self.cur_line_position < self.num_lines() ==> r@ == self.line_chars(
                self.cur_line_position as int,
            ),
    {
        proof {
            reveal_strlit("");
        }
        match self.peek_line() {
            Some(line) => {
                proof {
                    crate::text::lemma_chars_of_bytes(line);
                }
                line
            },
            None => "",
        }
    }
}

pub proof fn lemma_line_range_bounds(b: Seq<u8>, r: Seq<Range>, j: int)
    requires
        line_table(b, r),
        0 <= j < r.len(),
    ensures
        0 <= r[j].start < r[j].end <= b.len(),
    decreases r.len() - j,
{
    reveal(line_table);
    assert(r[j].start < r[j].end);
    if j == r.len() - 1 {
    } else {
        lemma_line_range_bounds(b, r, j + 1);
    }
    if j == 0 {
    } else {
        lemma_line_range_start(b, r, j);
    }
}

proof fn lemma_line_range_start(b: Seq<u8>, r: Seq<Range>, j: int)
    requires
        line_table(b, r),
        0 <= j < r.len(),
    ensures
        0 <= r[j].start,
    decreases j,
{
    reveal(line_table);
    if j > 0 {
        assert(r[j - 1].end == r[j].start);
        assert(r[j - 1].start < r[j - 1].end);
        lemma_line_range_start(b, r, j - 1);
    }
}

/// The bytes of the one-character text "\n".
proof fn lemma_newline_bytes()
    ensures
        "\n".spec_bytes() == seq![LF],
{
    reveal_strlit("\n");
    assert("\n"@ =~= seq!['\n']);
    assert(('\n' as u32) == 10u32);
    assert(10u32 & 0x7F == 10u32) by (bit_vector);
    let c = seq!['\n'];
    assert(c.drop_first() =~= Seq::<char>::empty());
    assert(encode_utf8(c.drop_first()) =~= Seq::<u8>::empty());
    assert(encode_scalar(10u32) =~= seq![10u8]);
    assert(encode_utf8(c) =~= seq![LF]);
}

/// Convert CRLF and lone CR to LF.
///
/// This function preserves all other characters verbatim.
fn normalize_newlines(src: &str) -> (r: String)
    ensures
        encode_utf8(r@) == normalized(src.spec_bytes()),
{
    let bytes = src.as_bytes();
    let ghost b = src.spec_bytes();
    let n = bytes.len();
    let mut out = String::new();
    let mut seg_start: usize = 0;
    let mut i: usize = 0;
    proof {
        encode_utf8_valid_utf8(src@);
        assert(b.subrange(0, n as int) =~= b);
        assert(encode_utf8(out@) =~= Seq::<u8>::empty());
    }
    while i < n
        invariant
            n == b.len(),
            bytes@ == b,
            b == src.spec_bytes(),
            valid_utf8(b),
            seg_start <= i <= n,
            seg_start == 0 || b[seg_start - 1] == LF || b[seg_start - 1] == CR,
            forall|k: int| seg_start <= k < i ==> b[k] != CR,
            encode_utf8(out@) + b.subrange(seg_start as int, i as int) + normalized(
                b.subrange(i as int, n as int),
            ) == normalized(b),
        decreases n - i,
    {
        let ghost rest = b.subrange(i as int, n as int);
        if bytes[i] == CR {
            proof {
                assert(ascii_adjacent(b, seg_start as int));
                assert(ascii_adjacent(b, i as int));
                lemma_ascii_adjacent_is_boundary(b, seg_start as int);
                lemma_ascii_adjacent_is_boundary(b, i as int);
            }
            let piece = substr(src, seg_start, i);
            let ghost before = out@;
            out.append(piece);
            proof {
                lemma_encode_concat(before, piece@);
            }
            let ghost mid = out@;
            out.append("\n");
            proof {
                lemma_encode_concat(mid, "\n"@);
                lemma_newline_bytes();
            }
            if i + 1 < n && bytes[i + 1] == LF {
                i = i + 2;
            } else {
                i = i + 1;
            }
            seg_start = i;
            proof {
                assert(rest.subrange(i - (n - rest.len()), rest.len() as int) =~= b.subrange(
                    i as int,
                    n as int,
                ));
                assert(b.subrange(i as int, i as int) =~= Seq::<u8>::empty());
                assert(encode_utf8(out@) + b.subrange(seg_start as int, i as int) + normalized(
                    b.subrange(i as int, n as int),
                ) =~= normalized(b));
            }
        } else {
            proof {
                assert(rest.subrange(1, rest.len() as int) =~= b.subrange(i + 1, n as int));
                assert(b.subrange(seg_start as int, i as int) + seq![b[i as int]] =~= b.subrange(
                    seg_start as int,
                    i + 1,
                ));
            }
            i = i + 1;
            proof {
                assert(encode_utf8(out@) + b.subrange(seg_start as int, i as int) + normalized(
                    b.subrange(i as int, n as int),
                ) =~= normalized(b));
            }
        }
    }
    proof {
        assert(ascii_adjacent(b, seg_start as int));
        lemma_ascii_adjacent_is_boundary(b, seg_start as int);
        is_char_boundary_start_end_of_seq(b);
    }
    let piece = substr(src, seg_start, n);
    let ghost before = out@;
    out.append(piece);
    proof {
        lemma_encode_concat(before, piece@);
        assert(b.subrange(n as int, n as int) =~= Seq::<u8>::empty());
        assert(normalized(b.subrange(n as int, n as int)) =~= Seq::<u8>::empty());
        assert(encode_utf8(out@) =~= normalized(b));
    }
    out
}

/// Compute byte (start, end) for each line, including a trailing '\n' if present.
///
/// Behavior matches `str::lines()` w.r.t. trailing newline: if the input ends
/// with '\n', we do not add an extra empty final line. The key difference is
/// that each line range is contiguous and includes the '\n' character, so there
/// are no gaps between adjacent line ranges.
fn index_lines(buf: &str) -> (r: Vec<Range>)
    ensures
        line_table(buf.spec_bytes(), r@),
{
    let bytes = buf.as_bytes();
    let ghost b = buf.spec_bytes();
    let n = bytes.len();
    let mut ranges: Vec<Range> = Vec::new();
    let mut start: usize = 0;
    let mut idx: usize = 0;
    while idx < n
        invariant
            n == b.len(),
            bytes@ == b,
            start <= idx <= n,
            ranges@.len() == 0 ==> start == 0,
            ranges@.len() > 0 ==> ranges@[0].start == 0 && ranges@.last().end == start,
            forall|k: int|
                0 <= k < ranges@.len() ==> (#[trigger] ranges@[k]).start < ranges@[k].end && b[ranges@[k].end - 1] == LF,
            forall|k: int|
                0 <= k < ranges@.len() - 1 ==> (#[trigger] ranges@[k]).end == ranges@[k + 1].start,
            forall|k: int, j: int|
                0 <= k < ranges@.len() && (#[trigger] ranges@[k]).start <= j < ranges@[k].end - 1
                    ==> #[trigger] b[j] != LF,
            forall|j: int| start <= j < idx ==> b[j] != LF,
        decreases n - idx,
    {
        if bytes[idx] == LF {
            // Include the trailing '\n' in the line's range so that ranges are
            // contiguous with no gaps.
            ranges.push(Range { start, end: idx + 1 });
            start = idx + 1;
        }
        idx = idx + 1;
    }
    // Push the last line if the buffer does not end with '\n'.
    if start < n {
        ranges.push(Range { start, end: n });
    }
    proof {
        reveal(line_table);
    }
    ranges
}

/// True when `line` is empty or holds only white space.
pub fn is_blank(line: &str) -> (r: bool)
    ensures
        r == all_white_space(line@),
{
    let t = crate::text::trim(line);
    proof {
        let s = crate::text::trim_start_ws(line@);
        crate::text::lemma_trim_start_empty(line@);
        crate::text::lemma_trim_start_first(line@);
        if s.len() > 0 {
            crate::text::lemma_trim_end_keeps_first(s);
        }
    }
    t.is_empty()
}

} // verus!
