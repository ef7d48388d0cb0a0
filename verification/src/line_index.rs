//! The line-offset index: a precomputed table of line-start offsets over the
//! source, answering "which line holds offset `o`" by binary search.

use vstd::prelude::*;

verus! {

/// The 0-indexed line number of the character at offset `o` of `s`: the number
/// of line-break characters strictly before `o`.
pub open spec fn line_of(s: Seq<char>, o: int) -> int
    decreases o,
{
    if o <= 0 {
        0
    } else if s[o - 1] == '\n' {
        line_of(s, o - 1) + 1
    } else {
        line_of(s, o - 1)
    }
}

/// Line numbers never decrease as the offset grows.
pub proof fn lemma_line_of_mono(s: Seq<char>, a: int, b: int)
    requires
        a <= b,
    ensures
        line_of(s, a) <= line_of(s, b),
    decreases b - a,
{
    if a < b {
        lemma_line_of_mono(s, a, b - 1);
    }
}

/// A line number is bounded by the offset it was computed from.
pub proof fn lemma_line_of_le_offset(s: Seq<char>, o: int)
    requires
        0 <= o,
    ensures
        line_of(s, o) <= o,
    decreases o,
{
    if o > 0 {
        lemma_line_of_le_offset(s, o - 1);
    }
}

/// What the table of line starts means for source `s`: entry `k` is an offset
/// on line `k`, and is either the start of the text or the position just after
/// a line break.  Entry 0 is always 0, and there is one entry per line.
pub open spec fn table_matches(s: Seq<char>, t: Seq<usize>) -> bool {
    &&& t.len() == line_of(s, s.len() as int) + 1
    &&& forall|k: int|
        0 <= k < t.len() ==> {
            &&& #[trigger] t[k] <= s.len()
            &&& line_of(s, t[k] as int) == k
            &&& (t[k] == 0 || s[t[k] - 1] == '\n')
        }
}

/// Entries of a well-formed table appear in increasing offset order.
pub proof fn lemma_table_increasing(s: Seq<char>, t: Seq<usize>, j: int, k: int)
    requires
        table_matches(s, t),
        0 <= j <= k < t.len(),
    ensures
        t[j] <= t[k],
{
    if t[k] < t[j] {
        lemma_line_of_mono(s, t[k] as int, t[j] as int);
    }
}

/// A table entry bracketing an offset names that offset's line: if
/// `t[k] <= o` and either `k` is the last entry or `o < t[k + 1]`, then the
/// character at offset `o` lies on line `k`.
pub proof fn lemma_table_lookup(s: Seq<char>, t: Seq<usize>, o: int, k: int)
    requires
        table_matches(s, t),
        0 <= o <= s.len(),
        0 <= k < t.len(),
        t[k] <= o,
        k + 1 < t.len() ==> o < t[k + 1],
    ensures
        line_of(s, o) == k,
{
    lemma_line_of_mono(s, t[k] as int, o);
    if k + 1 < t.len() {
        assert(line_of(s, t[k + 1] as int) == line_of(s, t[k + 1] - 1) + 1);
        lemma_line_of_mono(s, o, t[k + 1] - 1);
    } else {
        lemma_line_of_mono(s, o, s.len() as int);
    }
}

/// A line-offset index for one source text: the table of line-start offsets,
/// built once, looked up by binary search.
pub struct LineIndex {
    starts: Vec<usize>,
    src: Ghost<Seq<char>>,
}

impl LineIndex {
    /// The source text this index was built for.
    pub closed spec fn source(self) -> Seq<char> {
        self.src@
    }

    /// The index is a well-formed line-start table for its source.
    pub closed spec fn wf(self) -> bool {
        table_matches(self.source(), self.starts@)
    }

    /// Build the table for `chars`: entry 0 is offset 0, and each line break
    /// contributes the offset just after it.
    pub fn new(chars: &Vec<char>) -> (r: LineIndex)
        ensures
            r.wf(),
            r.source() == chars@,
    {
        let ghost s = chars@;
        let mut starts: Vec<usize> = Vec::new();
        starts.push(0);
        let n = chars.len();
        for i in 0..n
            invariant
                n == s.len(),
                chars@ == s,
                starts@.len() == line_of(s, i as int) + 1,
                forall|k: int|
                    0 <= k < starts@.len() ==> {
                        &&& #[trigger] starts@[k] <= i
                        &&& line_of(s, starts@[k] as int) == k
                        &&& (starts@[k] == 0 || s[starts@[k] - 1] == '\n')
                    },
        {
            if chars[i] == '\n' {
                starts.push(i + 1);
            }
        }
        LineIndex { starts, src: Ghost(s) }
    }

    /// Look up the line holding `offset`, by binary search for the greatest
    /// table entry that does not exceed `offset`.
    pub fn line_of_offset(&self, offset: usize) -> (r: usize)
        requires
            self.wf(),
            offset < self.source().len(),
        ensures
            r as int == line_of(self.source(), offset as int),
            r <= offset,
    {
        let ghost s = self.source();
        let ghost t = self.starts@;
        proof {
            lemma_line_of_mono(s, 0, s.len() as int);
            if t[0] != 0 {
                assert(line_of(s, t[0] as int) == line_of(s, t[0] - 1) + 1);
                lemma_line_of_mono(s, 0, t[0] - 1);
            }
        }
        let mut lo: usize = 0;
        let mut hi: usize = self.starts.len();
        while hi - lo > 1
            invariant
                self.wf(),
                s == self.source(),
                t == self.starts@,
                0 <= lo < hi <= t.len(),
                t[lo as int] <= offset,
                forall|k: int| hi <= k < t.len() ==> offset < #[trigger] t[k],
            decreases hi - lo,
        {
            let mid = lo + (hi - lo) / 2;
            if self.starts[mid] <= offset {
                lo = mid;
            } else {
                assert forall|k: int| mid <= k < t.len() implies offset < #[trigger] t[k] by {
                    lemma_table_increasing(s, t, mid as int, k);
                }
                hi = mid;
            }
        }
        proof {
            lemma_table_lookup(s, t, offset as int, lo as int);
            lemma_line_of_le_offset(s, offset as int);
        }
        lo
    }
}

} // verus!
