//! Half-open byte intervals used to address slices of a buffer.
use vstd::prelude::*;
use vstd::slice::slice_subrange;

verus! {

/// The half-open interval `[start, end)` of byte offsets; `start <= end` always holds.
#[derive(Clone, Copy, Debug, PartialEq, Eq, Hash)]
pub struct Range {
    start: usize,
    end: usize,
}

impl Range {
    #[verifier::type_invariant]
    spec fn ordered(self) -> bool {
        self.start <= self.end
    }

    /// The first offset of the interval.
    pub closed spec fn lo(self) -> usize {
        self.start
    }

    /// The offset one past the last byte of the interval.
    pub closed spec fn hi(self) -> usize {
        self.end
    }

    /// The number of bytes the interval covers.
    pub open spec fn width(self) -> nat {
        (self.hi() - self.lo()) as nat
    }

    pub fn new(start: usize, end: usize) -> (r: Range)
        requires
            start <= end,
        ensures
            r.lo() == start,
            r.hi() == end,
    {
        Range { start, end }
    }

    /// The range `[start, end)`, or `None` when `start > end`.
    pub fn try_new(start: usize, end: usize) -> (r: Option<Range>)
        ensures
            r is None <==> start > end,
            r matches Some(x) ==> x.lo() == start && x.hi() == end,
    {
        if start <= end {
            Some(Range { start, end })
        } else {
            None
        }
    }

    /// The empty range at `offset`.
    pub fn zero(offset: usize) -> (r: Range)
        ensures
            r.lo() == offset,
            r.hi() == offset,
    {
        Range { start: offset, end: offset }
    }

    pub fn start(&self) -> (r: usize)
        ensures
            r == self.lo(),
            r <= self.hi(),
    {
        proof {
            use_type_invariant(self);
        }
        self.start
    }

    pub fn end(&self) -> (r: usize)
        ensures
            r == self.hi(),
            self.lo() <= r,
    {
        proof {
            use_type_invariant(self);
        }
        self.end
    }

    /// The range moved right by `amount`; both bounds must stay within `usize`.
    pub fn offset(&self, amount: usize) -> (r: Range)
        requires
            self.hi() + amount <= usize::MAX,
        ensures
            r.lo() == self.lo() + amount,
            r.hi() == self.hi() + amount,
    {
        proof {
            use_type_invariant(self);
        }
        Range { start: self.start + amount, end: self.end + amount }
    }

    /// The range moved right by `amount`, or `None` when a bound would overflow.
    pub fn checked_offset(&self, amount: usize) -> (r: Option<Range>)
        ensures
            r is None <==> self.hi() + amount > usize::MAX,
            r matches Some(x) ==> x.lo() == self.lo() + amount && x.hi() == self.hi() + amount,
    {
        proof {
            use_type_invariant(self);
        }
        match self.end.checked_add(amount) {
            Some(end) => Some(Range { start: self.start + amount, end }),
            None => None,
        }
    }

    pub fn len(&self) -> (r: usize)
        ensures
            r == self.width(),
    {
        proof {
            use_type_invariant(self);
        }
        self.end - self.start
    }

    /// The bytes of `bytes` that the range covers.
    pub fn slice_of<'a>(&self, bytes: &'a [u8]) -> (r: &'a [u8])
        requires
            self.hi() <= bytes@.len(),
        ensures
            self.lo() <= self.hi(),
            r@ == bytes@.subrange(self.lo() as int, self.hi() as int),
            r@.len() == self.width(),
    {
        proof {
            use_type_invariant(self);
        }
        slice_subrange(bytes, self.start, self.end)
    }

    pub fn is_empty(&self) -> (r: bool)
        ensures
            r <==> self.lo() == self.hi(),
    {
        self.start == self.end
    }
}

} // verus!
