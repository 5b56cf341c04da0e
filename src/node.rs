use vstd::prelude::*;
use crate::model::Run;

verus! {

/// One run of a Chtholly tree: the indices `[left, right]` all hold `value`.
#[derive(Clone, Copy, Debug)]
pub struct ChthollyNode {
    left: usize,
    right: usize,
    value: usize,
}

impl View for ChthollyNode {
    type V = Run;

    closed spec fn view(&self) -> Run {
        Run { left: self.left as nat, right: self.right as nat, value: self.value as nat }
    }
}

impl ChthollyNode {
    pub(crate) fn new(left: usize, right: usize, value: usize) -> (r: Self)
        ensures
            r@ == (Run { left: left as nat, right: right as nat, value: value as nat }),
    {
        ChthollyNode { left, right, value }
    }

    /// First index of the run.
    pub fn left(&self) -> (r: usize)
        ensures
            r == self@.left,
    {
        self.left
    }

    /// Last index of the run (inclusive).
    pub fn right(&self) -> (r: usize)
        ensures
            r == self@.right,
    {
        self.right
    }

    /// The value that every index of the run holds.
    pub fn value(&self) -> (r: usize)
        ensures
            r == self@.value,
    {
        self.value
    }

    /// Whether the range of the node contains `x`.
    pub fn contains(&self, x: usize) -> (r: bool)
        ensures
            r == self@.has(x as int),
    {
        self.left <= x && x <= self.right
    }

    /// Number of indices that the node covers.
    pub fn len(&self) -> (r: usize)
        requires
            self@.left <= self@.right,
            self@.length() <= usize::MAX,
        ensures
            r == self@.length(),
    {
        self.right - self.left + 1
    }
}

} // verus!
