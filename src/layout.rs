//! The alignment arithmetic of a read-only file mapping: what to ask the operating
//! system for, where the caller's bytes start inside it, and what to release.
use vstd::prelude::*;

verus! {

/// How a requested window `[offset, offset + len)` of a file is mapped: the mapping
/// starts `delta` bytes earlier, at a multiple of the platform's granularity, and is
/// `delta` bytes longer. The same `delta` gives the caller's view at creation and the
/// region to release afterwards.
#[derive(Clone, Copy, Debug, PartialEq, Eq)]
pub struct MapLayout {
    pub len: usize,
    pub delta: usize,
    pub aligned_offset: u64,
    pub aligned_len: usize,
}

/// Why a window cannot be mapped.
#[derive(Clone, Copy, Debug, PartialEq, Eq)]
pub enum LayoutError {
    /// The mapping would cover no bytes at all.
    ZeroLength,
    /// The mapping's length does not fit in `usize`.
    TooLong,
}

/// The layout is the one for the window `[offset, offset + len)` at `granularity`.
pub open spec fn is_layout_of(l: MapLayout, offset: u64, len: usize, granularity: usize) -> bool {
    &&& l.len == len
    &&& l.delta == offset % (granularity as u64)
    &&& l.aligned_offset == offset - l.delta
    &&& l.aligned_len == len + l.delta
}

impl MapLayout {
    /// Plans the mapping of `[offset, offset + len)` where mappings must start at a
    /// multiple of `granularity` (the page size, or the allocation granularity).
    pub fn plan(offset: u64, len: usize, granularity: usize) -> (r: Result<MapLayout, LayoutError>)
        requires
            granularity > 0,
            granularity <= u64::MAX,
        ensures
            r matches Ok(l) ==> is_layout_of(l, offset, len, granularity) && l.aligned_len > 0,
            r matches Err(LayoutError::ZeroLength) <==> len + offset % (granularity as u64) == 0,
            r matches Err(LayoutError::TooLong) <==> len + offset % (granularity as u64)
                > usize::MAX,
    {
        let delta64 = offset % (granularity as u64);
        assert(delta64 < granularity && delta64 <= offset) by (nonlinear_arith)
            requires
                delta64 == offset % (granularity as u64),
                granularity > 0,
        ;
        let delta = delta64 as usize;
        if len > usize::MAX - delta {
            return Err(LayoutError::TooLong);
        }
        let aligned_len = len + delta;
        if aligned_len == 0 {
            return Err(LayoutError::ZeroLength);
        }
        Ok(MapLayout { len, delta, aligned_offset: offset - delta64, aligned_len })
    }

    /// Where the caller's bytes start, given the address the mapping was placed at.
    pub fn view_start(&self, base: usize) -> (r: usize)
        requires
            base + self.delta <= usize::MAX,
        ensures
            r == base + self.delta,
    {
        base + self.delta
    }

    /// The address to release, given where the caller's bytes start.
    pub fn release_base(&self, view: usize) -> (r: usize)
        requires
            view >= self.delta,
        ensures
            r == view - self.delta,
    {
        view - self.delta
    }

    /// The length to release: the whole aligned mapping.
    pub fn release_len(&self) -> (r: usize)
        ensures
            r == self.aligned_len,
    {
        self.aligned_len
    }
}

} // verus!
