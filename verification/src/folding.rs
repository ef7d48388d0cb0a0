//! The brace scanner: a single left-to-right pass that matches `{` ... `}`
//! pairs with a stack and emits a folding range for every pair whose opening
//! and closing braces stand on different lines.

use vstd::prelude::*;

use crate::line_index::LineIndex;
use crate::line_index::lemma_line_of_le_offset;
use crate::line_index::lemma_line_of_mono;
use crate::line_index::line_of;

verus! {

/// The open-brace stack after scanning the first `i` characters of `s`: one
/// `(offset, line)` entry per `{` not yet matched by a `}`, in scan order.
/// A `}` on an empty stack is ignored.
pub open spec fn scan_stack(s: Seq<char>, i: int) -> Seq<(int, int)>
    decreases i,
{
    if i <= 0 {
        Seq::empty()
    } else {
        let st = scan_stack(s, i - 1);
        if s[i - 1] == '{' {
            st.push((i - 1, line_of(s, i - 1)))
        } else if s[i - 1] == '}' {
            if st.len() > 0 {
                st.drop_last()
            } else {
                st
            }
        } else {
            st
        }
    }
}

/// Model of one emitted folding range: the offsets of the matched brace pair
/// and the lines those braces stand on.
pub ghost struct SpanModel {
    pub open_offset: int,
    pub start_line: int,
    pub close_offset: int,
    pub end_line: int,
}

/// The folding ranges emitted after scanning the first `i` characters of `s`,
/// in discovery order (order of the closing braces).  A `}` that matches a `{`
/// on an earlier line emits a range; a `}` on the same line as its `{`, or
/// with no matching `{`, emits nothing.
pub open spec fn scan_spans(s: Seq<char>, i: int) -> Seq<SpanModel>
    decreases i,
{
    if i <= 0 {
        Seq::empty()
    } else {
        let sp = scan_spans(s, i - 1);
        let st = scan_stack(s, i - 1);
        if s[i - 1] == '}' && st.len() > 0 && line_of(s, i - 1) > st.last().1 {
            sp.push(
                SpanModel {
                    open_offset: st.last().0,
                    start_line: st.last().1,
                    close_offset: i - 1,
                    end_line: line_of(s, i - 1),
                },
            )
        } else {
            sp
        }
    }
}

/// Well-formedness of the open-brace stack after `i` characters: every entry
/// records an offset already scanned together with its line, and offsets grow
/// from the bottom of the stack to the top.
pub open spec fn stack_wf(s: Seq<char>, i: int, st: Seq<(int, int)>) -> bool {
    &&& forall|k: int|
        0 <= k < st.len() ==> {
            &&& 0 <= (#[trigger] st[k]).0 < i
            &&& st[k].1 == line_of(s, st[k].0)
        }
    &&& forall|j: int, k: int| 0 <= j < k < st.len() ==> (#[trigger] st[j]).0 < (#[trigger] st[k]).0
}

/// Well-formedness of the emitted spans after `i` characters: each span joins
/// an earlier opening brace to a later closing brace, carries the lines of
/// those offsets, strictly spans more than one line, and spans appear in the
/// order of their closing braces.
pub open spec fn spans_wf(s: Seq<char>, i: int, sp: Seq<SpanModel>) -> bool {
    &&& forall|k: int|
        0 <= k < sp.len() ==> {
            &&& 0 <= (#[trigger] sp[k]).open_offset < sp[k].close_offset < i
            &&& sp[k].start_line == line_of(s, sp[k].open_offset)
            &&& sp[k].end_line == line_of(s, sp[k].close_offset)
            &&& sp[k].start_line < sp[k].end_line
        }
    &&& forall|j: int, k: int|
        0 <= j < k < sp.len() ==> (#[trigger] sp[j]).close_offset < (#[trigger] sp[k]).close_offset
}

/// The scan state is well formed at every prefix length.
pub proof fn lemma_scan_wf(s: Seq<char>, i: int)
    ensures
        stack_wf(s, i, scan_stack(s, i)),
        spans_wf(s, i, scan_spans(s, i)),
    decreases i,
{
    if i > 0 {
        lemma_scan_wf(s, i - 1);
    }
}

/// The visual collapse kinds of the shared protocol output type.  The brace
/// scanner itself never sets one; the field exists for other producers of the
/// same record.
pub enum FoldingRangeKind {
    Comment,
    Imports,
    Region,
}

impl FoldingRangeKind {
    /// The protocol's string tag for this kind.
    pub fn label(&self) -> (r: &'static str)
        ensures
            self is Comment ==> r@ == "comment"@,
            self is Imports ==> r@ == "imports"@,
            self is Region ==> r@ == "region"@,
    {
        match self {
            FoldingRangeKind::Comment => "comment",
            FoldingRangeKind::Imports => "imports",
            FoldingRangeKind::Region => "region",
        }
    }
}

/// One folding range: an inclusive span of 0-indexed lines an editor can
/// collapse.  The scanner fills only `start_line` and `end_line`; the optional
/// fields always stay unset.
pub struct FoldingRange {
    pub start_line: u32,
    pub start_character: Option<u32>,
    pub end_line: u32,
    pub end_character: Option<u32>,
    pub kind: Option<FoldingRangeKind>,
    pub collapsed_text: Option<String>,
}

/// An emitted record carries exactly the lines of its model span and leaves
/// every optional field unset.
pub open spec fn matches_span(r: FoldingRange, m: SpanModel) -> bool {
    &&& r.start_line == m.start_line
    &&& r.end_line == m.end_line
    &&& r.start_character is None
    &&& r.end_character is None
    &&& r.kind is None
    &&& r.collapsed_text is None
}

/// The scanner's whole output for source `s`: one record per span of the
/// model scan of all of `s`, in the same (discovery) order.
pub open spec fn ranges_match(rs: Seq<FoldingRange>, s: Seq<char>) -> bool {
    &&& rs.len() == scan_spans(s, s.len() as int).len()
    &&& forall|k: int|
        0 <= k < rs.len() ==> matches_span(#[trigger] rs[k], scan_spans(s, s.len() as int)[k])
}

/// The characters of `source`, in order, as a vector.
fn collect_chars(source: &str) -> (r: Vec<char>)
    ensures
        r@ == source@,
{
    let mut v: Vec<char> = Vec::new();
    for c in it: source.chars()
        invariant
            it.seq() == source@,
            v@ == it.seq().take(it.index()),
    {
        v.push(c);
    }
    proof {
        assert(v@ =~= source@);
    }
    v
}

/// Compute the folding ranges of `source`: one range per matched brace pair
/// whose opening and closing braces stand on different lines, in discovery
/// order (order of the closing braces).  Unmatched braces, and pairs confined
/// to a single line, contribute nothing; no input is an error.
///
/// The bound on the length keeps every line number within the protocol's
/// 32-bit line fields.
pub fn get_folding_ranges(source: &str) -> (r: Vec<FoldingRange>)
    requires
        source@.len() <= u32::MAX,
    ensures
        ranges_match(r@, source@),
        forall|k: int| 0 <= k < r@.len() ==> (#[trigger] r@[k]).start_line < r@[k].end_line,
{
    let ghost s = source@;
    let chars = collect_chars(source);
    let index = LineIndex::new(&chars);
    let mut stack: Vec<(usize, usize)> = Vec::new();
    let mut out: Vec<FoldingRange> = Vec::new();
    let n = chars.len();
    for i in 0..n
        invariant
            s == source@,
            n == s.len(),
            s.len() <= u32::MAX,
            chars@ == s,
            index.wf(),
            index.source() == s,
            stack@.len() == scan_stack(s, i as int).len(),
            forall|k: int|
                0 <= k < stack@.len() ==> ((#[trigger] stack@[k]).0 as int, stack@[k].1 as int)
                    == scan_stack(s, i as int)[k],
            out@.len() == scan_spans(s, i as int).len(),
            forall|k: int|
                0 <= k < out@.len() ==> matches_span(#[trigger] out@[k], scan_spans(s, i as int)[k]),
    {
        let c = chars[i];
        if c == '{' {
            let line = index.line_of_offset(i);
            stack.push((i, line));
            proof {
                assert(scan_stack(s, i as int + 1) =~= scan_stack(s, i as int).push(
                    (i as int, line_of(s, i as int)),
                ));
            }
        } else if c == '}' {
            let line = index.line_of_offset(i);
            if let Some(top) = stack.pop() {
                proof {
                    lemma_scan_wf(s, i as int);
                    lemma_line_of_le_offset(s, top.0 as int);
                }
                if line > top.1 {
                    out.push(
                        FoldingRange {
                            start_line: top.1 as u32,
                            start_character: None,
                            end_line: line as u32,
                            end_character: None,
                            kind: None,
                            collapsed_text: None,
                        },
                    );
                }
            }
        }
    }
    proof {
        lemma_scan_wf(s, s.len() as int);
    }
    out
}

/// How many occurrences of `c` stand among the first `i` characters of `s`.
pub open spec fn count_char(s: Seq<char>, c: char, i: int) -> int
    decreases i,
{
    if i <= 0 {
        0
    } else if s[i - 1] == c {
        count_char(s, c, i - 1) + 1
    } else {
        count_char(s, c, i - 1)
    }
}

/// Every `{` is pushed at most once and every span consumes one pushed entry,
/// so spans plus the pending stack never outnumber the opening braces; and a
/// span is only ever emitted on a `}`.
pub proof fn lemma_scan_counts(s: Seq<char>, i: int)
    ensures
        scan_spans(s, i).len() + scan_stack(s, i).len() <= count_char(s, '{', i),
        scan_spans(s, i).len() <= count_char(s, '}', i),
    decreases i,
{
    if i > 0 {
        lemma_scan_counts(s, i - 1);
    }
}

/// The number of emitted ranges is bounded by the number of `{` characters
/// and by the number of `}` characters in the source.
pub proof fn lemma_range_count_bounds(rs: Seq<FoldingRange>, s: Seq<char>)
    requires
        ranges_match(rs, s),
    ensures
        rs.len() <= count_char(s, '{', s.len() as int),
        rs.len() <= count_char(s, '}', s.len() as int),
{
    lemma_scan_counts(s, s.len() as int);
}

/// Scanning the same source twice yields the same ranges, record for record:
/// the scan is a pure function of its input.
pub proof fn lemma_scan_idempotent(r1: Seq<FoldingRange>, r2: Seq<FoldingRange>, s: Seq<char>)
    requires
        ranges_match(r1, s),
        ranges_match(r2, s),
    ensures
        r1 == r2,
{
    assert forall|k: int| 0 <= k < r1.len() implies r1[k] == r2[k] by {
        let m = scan_spans(s, s.len() as int)[k];
        assert(matches_span(r1[k], m));
        assert(matches_span(r2[k], m));
    }
    assert(r1 =~= r2);
}

/// Nesting: when a later-emitted span's opening brace stands at or before an
/// earlier-emitted span's opening brace, the later span encloses the earlier
/// one line-wise.  In particular a pair's immediately enclosing pair opens no
/// later and closes no earlier, so its range contains the inner range.
pub proof fn lemma_nesting(s: Seq<char>, i: int, a: int, b: int)
    requires
        0 <= a < b < scan_spans(s, i).len(),
        scan_spans(s, i)[b].open_offset <= scan_spans(s, i)[a].open_offset,
    ensures
        scan_spans(s, i)[b].start_line <= scan_spans(s, i)[a].start_line,
        scan_spans(s, i)[a].end_line <= scan_spans(s, i)[b].end_line,
{
    lemma_scan_wf(s, i);
    lemma_line_of_mono(s, scan_spans(s, i)[b].open_offset, scan_spans(s, i)[a].open_offset);
    lemma_line_of_mono(s, scan_spans(s, i)[a].close_offset, scan_spans(s, i)[b].close_offset);
}

/// Nesting, stated of the scanner's output: under the hypotheses of
/// `lemma_nesting` the emitted records' line spans are ordered the same way.
pub proof fn lemma_nesting_ranges(rs: Seq<FoldingRange>, s: Seq<char>, a: int, b: int)
    requires
        ranges_match(rs, s),
        0 <= a < b < rs.len(),
        scan_spans(s, s.len() as int)[b].open_offset
            <= scan_spans(s, s.len() as int)[a].open_offset,
    ensures
        rs[b].start_line <= rs[a].start_line,
        rs[a].end_line <= rs[b].end_line,
{
    lemma_nesting(s, s.len() as int, a, b);
}

} // verus!
