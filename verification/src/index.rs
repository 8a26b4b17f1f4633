//! Counter and sink cells of the ring.

use vstd::prelude::*;

verus! {

/// Cell that owns the overflow sink of a ring.
pub struct SpoutCell<S> {
    sink: S,
}

impl<S> View for SpoutCell<S> {
    type V = S;

    closed spec fn view(&self) -> S {
        self.sink
    }
}

impl<S> SpoutCell<S> {
    pub fn new(sink: S) -> (cell: Self)
        ensures
            cell@ == sink,
    {
        Self { sink }
    }

    pub fn get_ref(&self) -> (sink: &S)
        ensures
            *sink == self@,
    {
        &self.sink
    }

    pub fn get_mut(&mut self) -> (sink: &mut S)
        ensures
            *sink == old(self)@,
            final(self)@ == *final(sink),
    {
        &mut self.sink
    }

    /// Gives the sink back and ends the cell.
    pub fn into_inner(self) -> (sink: S)
        ensures
            sink == self@,
    {
        self.sink
    }
}

/// A word-sized counter. Its view is the value it holds.
pub struct Index {
    value: usize,
}

impl View for Index {
    type V = usize;

    closed spec fn view(&self) -> usize {
        self.value
    }
}

impl Index {
    pub fn new(val: usize) -> (index: Self)
        ensures
            index@ == val,
    {
        Self { value: val }
    }

    /// Reads the counter as the other side of the ring published it.
    pub fn load(&self) -> (val: usize)
        ensures
            val == self@,
    {
        self.value
    }

    /// Reads a counter that the caller itself owns.
    pub fn load_relaxed(&self) -> (val: usize)
        ensures
            val == self@,
    {
        self.value
    }

    /// Publishes a new value of the counter.
    pub fn store(&mut self, val: usize)
        ensures
            final(self)@ == val,
    {
        self.value = val;
    }

    /// Reads the counter under exclusive access.
    pub fn load_mut(&mut self) -> (val: usize)
        ensures
            val == old(self)@,
            final(self)@ == old(self)@,
    {
        self.value
    }

    /// Writes the counter under exclusive access.
    pub fn store_mut(&mut self, val: usize)
        ensures
            final(self)@ == val,
    {
        self.value = val;
    }
}

} // verus!
