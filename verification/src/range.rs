use vstd::prelude::*;

verus! {

/// A range of virtual addresses: `len` bytes from `start`.
#[derive(Clone, Copy, Debug, PartialEq, Eq)]
pub struct Range {
    pub start: u64,
    pub len: u64,
}

impl Range {
    /// The range of `len` bytes from `start`.
    pub fn New(start: u64, len: u64) -> (r: Range)
        ensures
            r.start == start,
            r.len == len,
    {
        Range { start, len }
    }

    /// The first address.
    pub fn Start(&self) -> (s: u64)
        ensures
            s == self.start,
    {
        self.start
    }

    /// One past the last address.
    pub fn End(&self) -> (e: u64)
        requires
            self.start + self.len <= u64::MAX,
        ensures
            e == self.start + self.len,
    {
        self.start + self.len
    }

    /// The length in bytes.
    pub fn Len(&self) -> (l: u64)
        ensures
            l == self.len,
    {
        self.len
    }
}

/// A piece of host memory: `len` bytes from physical address `start`.
#[derive(Clone, Copy, Debug, PartialEq, Eq)]
pub struct IoVec {
    pub start: u64,
    pub len: usize,
}

impl IoVec {
    /// The piece of `len` bytes from `start`.
    pub fn New(start: u64, len: usize) -> (v: IoVec)
        ensures
            v.start == start,
            v.len == len,
    {
        IoVec { start, len }
    }

    /// The first address.
    pub fn Start(&self) -> (s: u64)
        ensures
            s == self.start,
    {
        self.start
    }

    /// The length in bytes.
    pub fn Len(&self) -> (l: usize)
        ensures
            l == self.len,
    {
        self.len
    }
}

} // verus!
