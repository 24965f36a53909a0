//! The line index: where each line of a buffer ends.
use crate::range::Range;
use vstd::prelude::*;

verus! {

/// The newline byte, 0x0A.
pub const NEWLINE: u8 = 10;

/// The offsets of the newline bytes among the first `n` bytes of `s`, in increasing order.
pub open spec fn newlines_upto(s: Seq<u8>, n: int) -> Seq<int>
    decreases n,
{
    if n <= 0 {
        Seq::empty()
    } else if s[n - 1] == NEWLINE {
        newlines_upto(s, n - 1).push(n - 1)
    } else {
        newlines_upto(s, n - 1)
    }
}

/// The number of newline bytes in `s`.
pub open spec fn newline_count(s: Seq<u8>) -> nat
    decreases s.len(),
{
    if s.len() == 0 {
        0
    } else {
        newline_count(s.drop_last()) + if s.last() == NEWLINE {
            1nat
        } else {
            0nat
        }
    }
}

/// True when `s` holds bytes after its last newline (or holds bytes and no newline).
pub open spec fn has_unterminated_tail(s: Seq<u8>) -> bool {
    s.len() > 0 && s.last() != NEWLINE
}

/// Where each line of `s` ends: the offset of its terminating newline, or the length of
/// `s` for a last line that has no newline.
pub open spec fn line_ends(s: Seq<u8>) -> Seq<int> {
    if has_unterminated_tail(s) {
        newlines_upto(s, s.len() as int).push(s.len() as int)
    } else {
        newlines_upto(s, s.len() as int)
    }
}

/// The offset at which line `n` starts, given where the lines end.
pub open spec fn line_start(ends: Seq<int>, n: int) -> int {
    if n == 0 {
        0
    } else {
        ends[n - 1] + 1
    }
}

proof fn lemma_newlines_upto(s: Seq<u8>, n: int)
    requires
        0 <= n <= s.len(),
    ensures
        newlines_upto(s, n).len() == newline_count(s.subrange(0, n)),
        forall|i: int|
            0 <= i < newlines_upto(s, n).len() ==> 0 <= #[trigger] newlines_upto(s, n)[i] < n
                && s[newlines_upto(s, n)[i]] == NEWLINE,
        forall|i: int, j: int|
            0 <= i < j < newlines_upto(s, n).len() ==> #[trigger] newlines_upto(s, n)[i]
                < #[trigger] newlines_upto(s, n)[j],
    decreases n,
{
    if n > 0 {
        lemma_newlines_upto(s, n - 1);
        assert(s.subrange(0, n).drop_last() =~= s.subrange(0, n - 1));
    }
}

/// Where the lines of `s` end: offsets in increasing order, each below or at the length,
/// each a newline but possibly the last, which is then the length itself.
pub proof fn lemma_line_ends_ordered(s: Seq<u8>)
    ensures
        forall|i: int|
            0 <= i < line_ends(s).len() ==> 0 <= #[trigger] line_ends(s)[i] <= s.len(),
        forall|i: int, j: int|
            0 <= i < j < line_ends(s).len() ==> #[trigger] line_ends(s)[i]
                < #[trigger] line_ends(s)[j],
{
    lemma_newlines_upto(s, s.len() as int);
}

/// The number of lines is the number of newline bytes, plus one where bytes follow the
/// last newline.
pub proof fn lemma_line_count(s: Seq<u8>)
    ensures
        line_ends(s).len() == if has_unterminated_tail(s) {
            newline_count(s) + 1nat
        } else {
            newline_count(s)
        },
{
    lemma_newlines_upto(s, s.len() as int);
    assert(s.subrange(0, s.len() as int) =~= s);
}

/// Where each line of a buffer ends, computed once by a forward scan for newlines.
/// Entry `k` is the offset of the newline that ends line `k`, or the buffer's length
/// for a last line that has none.
pub struct LineIndex {
    ends: Vec<usize>,
    content: Ghost<Seq<u8>>,
}

impl LineIndex {
    #[verifier::type_invariant]
    spec fn matches_content(self) -> bool {
        &&& self.ends@.len() == line_ends(self.content@).len()
        &&& forall|i: int|
            0 <= i < self.ends@.len() ==> #[trigger] self.ends@[i] == line_ends(self.content@)[i]
    }

    /// The bytes the index was built from.
    pub closed spec fn source(self) -> Seq<u8> {
        self.content@
    }

    /// Builds the index of `content` in one pass.
    pub fn build(content: &[u8]) -> (idx: LineIndex)
        ensures
            idx.source() == content@,
    {
        let mut ends: Vec<usize> = Vec::new();
        let mut i: usize = 0;
        while i < content.len()
            invariant
                i <= content@.len(),
                ends@.len() == newlines_upto(content@, i as int).len(),
                forall|k: int|
                    0 <= k < ends@.len() ==> #[trigger] ends@[k] == newlines_upto(
                        content@,
                        i as int,
                    )[k],
            decreases content@.len() - i,
        {
            if content[i] == NEWLINE {
                ends.push(i);
            }
            i = i + 1;
        }
        let n = content.len();
        if n > 0 && content[n - 1] != NEWLINE {
            ends.push(n);
        }
        LineIndex { ends, content: Ghost(content@) }
    }

    /// The number of lines.
    pub fn line_count(&self) -> (r: usize)
        ensures
            r == line_ends(self.source()).len(),
    {
        proof {
            use_type_invariant(self);
        }
        self.ends.len()
    }

    /// The bytes of line `n`, without its newline.
    pub fn line_range(&self, n: usize) -> (r: Range)
        requires
            n < line_ends(self.source()).len(),
        ensures
            r.lo() == line_start(line_ends(self.source()), n as int),
            r.hi() == line_ends(self.source())[n as int],
    {
        proof {
            use_type_invariant(self);
            lemma_line_ends_ordered(self.content@);
            if n > 0 {
                assert(self.ends@[n - 1] == line_ends(self.content@)[n - 1]);
            }
            assert(self.ends@[n as int] == line_ends(self.content@)[n as int]);
        }
        let end = self.ends[n];
        if n == 0 {
            Range::new(0, end)
        } else {
            Range::new(self.ends[n - 1] + 1, end)
        }
    }

    /// The ranges of up to `count` consecutive lines from line `line_number` on, clipped
    /// at the last line; none when `line_number` is past the last line.
    pub fn line_bytes(&self, line_number: usize, count: usize) -> (r: Vec<Range>)
        ensures
            r@.len() == if line_number >= line_ends(self.source()).len() {
                0
            } else {
                vstd::math::min(count as int, line_ends(self.source()).len() - line_number)
            },
            forall|i: int|
                0 <= i < r@.len() ==> (#[trigger] r@[i]).lo() == line_start(
                    line_ends(self.source()),
                    line_number + i,
                ) && r@[i].hi() == line_ends(self.source())[line_number + i],
    {
        let total = self.line_count();
        let mut r: Vec<Range> = Vec::new();
        if line_number >= total {
            return r;
        }
        let last = if count <= total - line_number {
            line_number + count
        } else {
            total
        };
        let mut n = line_number;
        while n < last
            invariant
                line_number <= n <= last <= total,
                total == line_ends(self.source()).len(),
                r@.len() == n - line_number,
                forall|i: int|
                    0 <= i < r@.len() ==> (#[trigger] r@[i]).lo() == line_start(
                        line_ends(self.source()),
                        line_number + i,
                    ) && r@[i].hi() == line_ends(self.source())[line_number + i],
            decreases last - n,
        {
            let range = self.line_range(n);
            r.push(range);
            n = n + 1;
        }
        r
    }
}

} // verus!
