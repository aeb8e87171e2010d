use vstd::prelude::*;
use vstd::slice::slice_subrange;
use vstd::string::StringSliceAdditionalSpecFns;

use crate::lexer::Span;

verus! {

/// Where the lines of the first `k` bytes of `b` start: at 0, and after each
/// newline.
pub open spec fn starts_upto(b: Seq<u8>, k: int) -> Seq<usize>
    decreases k,
{
    if k <= 0 {
        seq![0usize]
    } else if b[k - 1] == 10u8 {
        starts_upto(b, k - 1).push(k as usize)
    } else {
        starts_upto(b, k - 1)
    }
}

/// Where the lines of `b` start.
pub open spec fn line_starts_of(b: Seq<u8>) -> Seq<usize> {
    starts_upto(b, b.len() as int)
}

/// Strictly increasing, starting at 0, and at most `n`.
pub open spec fn starts_wf(s: Seq<usize>, n: int) -> bool {
    &&& s.len() > 0
    &&& s[0] == 0
    &&& forall|i: int, j: int| 0 <= i < j < s.len() ==> s[i] < s[j]
    &&& forall|i: int| 0 <= i < s.len() ==> s[i] <= n
}

pub proof fn lemma_starts_wf(b: Seq<u8>, k: int)
    requires
        0 <= k <= b.len(),
        b.len() <= usize::MAX,
    ensures
        starts_wf(starts_upto(b, k), k),
    decreases k,
{
    if k > 0 {
        lemma_starts_wf(b, k - 1);
        let s = starts_upto(b, k - 1);
        if b[k - 1] == 10u8 {
            let s2 = s.push(k as usize);
            assert forall|i: int, j: int| 0 <= i < j < s2.len() implies s2[i] < s2[j] by {
                if j == s.len() {
                    assert(s2[i] == s[i]);
                    assert(s[i] <= k - 1);
                    assert(s2[j] == k);
                } else {
                    assert(s2[i] == s[i] && s2[j] == s[j]);
                }
            }
        }
    }
}

/// The index of the last of `s` that is at most `off`, or -1.
pub open spec fn last_at_most(s: Seq<usize>, off: int) -> int
    decreases s.len(),
{
    if s.len() == 0 {
        -1
    } else if s.last() <= off {
        s.len() - 1
    } else {
        last_at_most(s.drop_last(), off)
    }
}

pub proof fn lemma_last_at_most(s: Seq<usize>, off: int, i: int)
    requires
        forall|a: int, b: int| 0 <= a < b < s.len() ==> s[a] < s[b],
        -1 <= i < s.len(),
        forall|a: int| 0 <= a <= i ==> s[a] <= off,
        forall|a: int| i < a < s.len() ==> s[a] > off,
    ensures
        last_at_most(s, off) == i,
    decreases s.len(),
{
    if s.len() > 0 && i < s.len() - 1 {
        lemma_last_at_most(s.drop_last(), off, i);
    }
}

/// What `last_at_most` finds in an increasing sequence.
pub proof fn lemma_last_at_most_bounds(s: Seq<usize>, off: int)
    requires
        forall|a: int, b: int| 0 <= a < b < s.len() ==> s[a] < s[b],
    ensures
        -1 <= last_at_most(s, off) < s.len(),
        forall|a: int| 0 <= a <= last_at_most(s, off) ==> s[a] <= off,
        forall|a: int| last_at_most(s, off) < a < s.len() ==> s[a] > off,
        s.len() > 0 && s[0] <= off ==> last_at_most(s, off) >= 0,
    decreases s.len(),
{
    if s.len() > 0 {
        if s.last() <= off {
            assert forall|a: int| 0 <= a <= s.len() - 1 implies s[a] <= off by {
                if a < s.len() - 1 {
                    assert(s[a] < s[s.len() - 1]);
                }
            }
        } else {
            let t = s.drop_last();
            lemma_last_at_most_bounds(t, off);
            assert forall|a: int| 0 <= a <= last_at_most(s, off) implies s[a] <= off by {
                assert(s[a] == t[a]);
            }
            assert forall|a: int| last_at_most(s, off) < a < s.len() implies s[a] > off by {
                if a < s.len() - 1 {
                    assert(s[a] == t[a]);
                }
            }
            if s[0] <= off {
                assert(t.len() > 0) by {
                    if t.len() == 0 {
                        assert(s.last() == s[0]);
                    }
                }
                assert(t[0] == s[0]);
            }
        }
    }
}

/// The number of newlines among the first `k` bytes of `b`.
pub open spec fn newlines_before(b: Seq<u8>, k: int) -> int
    decreases k,
{
    if k <= 0 {
        0
    } else if b[k - 1] == 10u8 {
        newlines_before(b, k - 1) + 1
    } else {
        newlines_before(b, k - 1)
    }
}

/// The starts of the first `k` bytes: one more than their newlines, each at
/// the beginning or just after a newline, and no newline after the last.
proof fn lemma_starts_upto_shape(b: Seq<u8>, k: int)
    requires
        0 <= k <= b.len(),
        b.len() <= usize::MAX,
    ensures
        starts_upto(b, k).len() == newlines_before(b, k) + 1,
        forall|i: int|
            0 <= i < starts_upto(b, k).len() ==> (#[trigger] starts_upto(b, k)[i] == 0 || b[starts_upto(
                b,
                k,
            )[i] - 1] == 10u8),
        forall|j: int| starts_upto(b, k).last() <= j < k ==> b[j] != 10u8,
    decreases k,
{
    lemma_starts_wf(b, k);
    if k > 0 {
        lemma_starts_upto_shape(b, k - 1);
        lemma_starts_wf(b, k - 1);
        let s = starts_upto(b, k - 1);
        if b[k - 1] == 10u8 {
            assert forall|i: int| 0 <= i < starts_upto(b, k).len() implies (#[trigger] starts_upto(b, k)[i] == 0
                || b[starts_upto(b, k)[i] - 1] == 10u8) by {
                if i < s.len() {
                    assert(starts_upto(b, k)[i] == s[i]);
                }
            }
        } else {
            assert forall|j: int| starts_upto(b, k).last() <= j < k implies b[j] != 10u8 by {
                if j < k - 1 {
                    assert(starts_upto(b, k).last() == s.last());
                }
            }
        }
    }
}

/// What the starts of a text add past its first `k` bytes: they keep the
/// starts of those bytes in front and add only positions after `k`.
proof fn lemma_starts_upto_extend(b: Seq<u8>, k: int, n: int)
    requires
        0 <= k <= n <= b.len(),
        b.len() <= usize::MAX,
    ensures
        starts_upto(b, k).len() <= starts_upto(b, n).len(),
        forall|i: int| 0 <= i < starts_upto(b, k).len() ==> starts_upto(b, n)[i] == starts_upto(b, k)[i],
        forall|i: int| starts_upto(b, k).len() <= i < starts_upto(b, n).len() ==> starts_upto(b, n)[i] > k,
    decreases n - k,
{
    if n > k {
        lemma_starts_upto_extend(b, k, n - 1);
        lemma_starts_wf(b, n - 1);
    }
}

/// The line of a position is the number of newlines before it. The line
/// starts at the beginning of the text or just after a newline, at or before
/// the position, and no newline stands between its start and the position.
pub proof fn lemma_line_of_position(b: Seq<u8>, offset: int)
    requires
        0 <= offset <= b.len(),
        b.len() <= usize::MAX,
    ensures
        ({
            let starts = line_starts_of(b);
            let line = last_at_most(starts, offset);
            let start = starts[line] as int;
            &&& line == newlines_before(b, offset)
            &&& 0 <= start <= offset
            &&& start == 0 || b[start - 1] == 10u8
            &&& forall|j: int| start <= j < offset ==> b[j] != 10u8
        }),
{
    let starts = line_starts_of(b);
    let pre = starts_upto(b, offset);
    lemma_starts_wf(b, b.len() as int);
    lemma_starts_wf(b, offset);
    lemma_starts_upto_shape(b, offset);
    lemma_starts_upto_shape(b, b.len() as int);
    lemma_starts_upto_extend(b, offset, b.len() as int);
    assert forall|a: int| 0 <= a <= pre.len() - 1 implies starts[a] <= offset by {
        assert(starts[a] == pre[a]);
    }
    lemma_last_at_most(starts, offset, pre.len() - 1);
    assert(starts[pre.len() - 1] == pre.last());
    assert(starts[pre.len() - 1] == 0 || b[starts[pre.len() - 1] - 1] == 10u8);
}

/// A source text with the positions where its lines start.
pub struct Source<'a> {
    text: &'a str,
    line_starts: Vec<usize>,
}

impl<'a> Source<'a> {
    /// The bytes of the text.
    pub closed spec fn bytes(&self) -> Seq<u8> {
        self.text.spec_bytes()
    }

    /// Where each line starts.
    pub closed spec fn starts(&self) -> Seq<usize> {
        self.line_starts@
    }

    pub open spec fn wf(&self) -> bool {
        &&& self.starts() == line_starts_of(self.bytes())
        &&& starts_wf(self.starts(), self.bytes().len() as int)
    }

    pub fn new(text: &'a str) -> (res: Self)
        ensures
            res.bytes() == text.spec_bytes(),
            res.wf(),
    {
        let bytes = text.as_bytes();
        let mut line_starts: Vec<usize> = Vec::new();
        line_starts.push(0);
        let mut i: usize = 0;
        while i < bytes.len()
            invariant
                i <= bytes@.len(),
                bytes@ == text.spec_bytes(),
                line_starts@ == starts_upto(bytes@, i as int),
            decreases bytes@.len() - i,
        {
            if bytes[i] == 10u8 {
                line_starts.push(i + 1);
            }
            i = i + 1;
        }
        proof {
            lemma_starts_wf(bytes@, bytes@.len() as int);
        }
        Source { text, line_starts }
    }

    /// The index of the line that holds byte `offset`.
    pub fn line_of(&self, offset: usize) -> (res: usize)
        requires
            self.wf(),
        ensures
            res == last_at_most(self.starts(), offset as int),
            res < self.starts().len(),
    {
        let s = &self.line_starts;
        let mut lo: usize = 0;
        let mut hi: usize = s.len();
        while lo < hi
            invariant
                self.wf(),
                s@ == self.starts(),
                0 <= lo <= hi <= s@.len(),
                forall|a: int| 0 <= a < lo ==> s@[a] <= offset,
                forall|a: int| hi <= a < s@.len() ==> s@[a] > offset,
            decreases hi - lo,
        {
            let mid = lo + (hi - lo) / 2;
            if s[mid] <= offset {
                assert forall|a: int| 0 <= a < mid + 1 implies s@[a] <= offset by {
                    if a < mid {
                        assert(s@[a] < s@[mid as int]);
                    }
                }
                lo = mid + 1;
            } else {
                assert forall|a: int| mid <= a < s@.len() implies s@[a] > offset by {
                    if a > mid {
                        assert(s@[mid as int] < s@[a]);
                    }
                }
                hi = mid;
            }
        }
        proof {
            assert(s@[0] <= offset);
            lemma_last_at_most(s@, offset as int, lo - 1);
        }
        lo - 1
    }

    /// How far byte `offset` is from the start of its line.
    pub fn column_of(&self, offset: usize) -> (res: usize)
        requires
            self.wf(),
        ensures
            res == offset - self.starts()[last_at_most(self.starts(), offset as int)],
    {
        let ln = self.line_of(offset);
        proof {
            self.lemma_line_start_at_most(offset as int);
        }
        offset - self.line_starts[ln]
    }

    proof fn lemma_line_start_at_most(&self, offset: int)
        requires
            self.wf(),
            0 <= offset,
        ensures
            0 <= last_at_most(self.starts(), offset) < self.starts().len(),
            self.starts()[last_at_most(self.starts(), offset)] <= offset,
            last_at_most(self.starts(), offset) + 1 < self.starts().len() ==> offset < self.starts()[last_at_most(self.starts(), offset) + 1],
    {
        lemma_last_at_most_bounds(self.starts(), offset);
    }

    /// The line and column, both counted from 1, where `span` starts.
    pub fn line_col(&self, span: std::ops::Range<usize>) -> (res: (usize, usize))
        requires
            self.wf(),
            span.start < usize::MAX,
        ensures
            res.0 == last_at_most(self.starts(), span.start as int) + 1,
            res.1 == span.start - self.starts()[last_at_most(self.starts(), span.start as int)] + 1,
    {
        let ln = self.line_of(span.start);
        proof {
            self.lemma_line_start_at_most(span.start as int);
        }
        let col = span.start - self.line_starts[ln];
        let n = self.line_starts.len();
        proof {
            assert(ln < self.starts().len());
            assert(self.starts()[ln as int] <= self.bytes().len());
        }
        (ln + 1, col + 1)
    }

    /// The bytes of line `line_index`, its newline included.
    pub fn line_range(&self, line_index: usize) -> (res: std::ops::Range<usize>)
        requires
            self.wf(),
            line_index < self.starts().len(),
        ensures
            res.start == self.starts()[line_index as int],
            res.end == if line_index + 1 < self.starts().len() {
                self.starts()[line_index + 1] as int
            } else {
                self.bytes().len() as int
            },
    {
        let start = self.line_starts[line_index];
        let end = if line_index < self.line_starts.len() - 1 {
            self.line_starts[line_index + 1]
        } else {
            self.text.as_bytes().len()
        };
        start..end
    }

    /// The bytes of line `line_index`, without the newlines that end it.
    pub fn line_text(&self, line_index: usize) -> (res: &'a [u8])
        requires
            self.wf(),
            line_index < self.starts().len(),
        ensures
            res@ == trim_newlines(
                self.bytes().subrange(
                    self.starts()[line_index as int] as int,
                    if line_index + 1 < self.starts().len() {
                        self.starts()[line_index + 1] as int
                    } else {
                        self.bytes().len() as int
                    },
                ),
            ),
    {
        let range = self.line_range(line_index);
        let bytes = self.text.as_bytes();
        proof {
            if line_index + 1 < self.starts().len() {
                assert(self.starts()[line_index as int] < self.starts()[line_index + 1]);
            }
        }
        let mut end = range.end;
        while end > range.start && bytes[end - 1] == 10u8
            invariant
                range.start <= end <= bytes@.len(),
                bytes@ == self.bytes(),
                trim_newlines(bytes@.subrange(range.start as int, range.end as int)) == trim_newlines(
                    bytes@.subrange(range.start as int, end as int),
                ),
            decreases end,
        {
            proof {
                let t = bytes@.subrange(range.start as int, end as int);
                assert(t.drop_last() =~= bytes@.subrange(range.start as int, end - 1));
            }
            end = end - 1;
        }
        slice_subrange(bytes, range.start, end)
    }

    /// The span of the whole line that holds the start of `span`.
    pub fn line_span(&self, span: Span) -> (res: Span)
        requires
            self.wf(),
        ensures
            res.start == self.starts()[last_at_most(self.starts(), span.start as int)],
            res.end == if last_at_most(self.starts(), span.start as int) + 1 < self.starts().len() {
                self.starts()[last_at_most(self.starts(), span.start as int) + 1] as int
            } else {
                self.bytes().len() as int
            },
    {
        let line = self.line_of(span.start);
        let range = self.line_range(line);
        Span::new(range.start, range.end)
    }
}

/// `b` without the newlines at its end.
pub open spec fn trim_newlines(b: Seq<u8>) -> Seq<u8>
    decreases b.len(),
{
    if b.len() > 0 && b.last() == 10u8 {
        trim_newlines(b.drop_last())
    } else {
        b
    }
}

} // verus!
