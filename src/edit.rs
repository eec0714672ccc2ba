use std::ops::Range;
use vstd::prelude::*;

verus! {

/// One replace operation: the half-open range `old` of the source version
/// becomes the half-open range `new` of the destination version.
#[derive(Debug, PartialEq, Eq)]
pub struct Edit {
    pub old: Range<u32>,
    pub new: Range<u32>,
}

/// The mathematical value of an `Edit`: its four bounds as integers.
pub ghost struct EditModel {
    pub old_start: int,
    pub old_end: int,
    pub new_start: int,
    pub new_end: int,
}

/// Length of the half-open range `start..end`, zero when it is empty or
/// reversed (as `Range::len` counts it).
pub open spec fn span_len(start: int, end: int) -> int {
    if end > start {
        end - start
    } else {
        0
    }
}

impl EditModel {
    pub open spec fn old_len(self) -> int {
        span_len(self.old_start, self.old_end)
    }

    pub open spec fn new_len(self) -> int {
        span_len(self.new_start, self.new_end)
    }

    /// An edit that neither removes nor inserts anything.
    pub open spec fn is_noop(self) -> bool {
        self.old_len() == 0 && self.new_len() == 0
    }

    /// Both ranges are ordered (`0 <= start <= end`) and the edit changes
    /// something.
    pub open spec fn well_formed(self) -> bool {
        &&& 0 <= self.old_start <= self.old_end
        &&& 0 <= self.new_start
        &&& self.new_start <= self.new_end
        &&& !self.is_noop()
    }

    /// The same edit read backwards: source and destination swapped.
    pub open spec fn swapped(self) -> EditModel {
        EditModel {
            old_start: self.new_start,
            old_end: self.new_end,
            new_start: self.old_start,
            new_end: self.old_end,
        }
    }
}

impl View for Edit {
    type V = EditModel;

    open spec fn view(&self) -> EditModel {
        EditModel {
            old_start: self.old.start as int,
            old_end: self.old.end as int,
            new_start: self.new.start as int,
            new_end: self.new.end as int,
        }
    }
}

/// Length of a `u32` range, zero when it is empty or reversed.
pub fn range_len(r: &Range<u32>) -> (n: u32)
    ensures
        n == span_len(r.start as int, r.end as int),
{
    if r.end > r.start {
        r.end - r.start
    } else {
        0
    }
}

impl Edit {
    /// Builds the edit `old_start..old_end => new_start..new_end`.
    pub fn from_bounds(old_start: u32, old_end: u32, new_start: u32, new_end: u32) -> (e: Edit)
        ensures
            e@ == (EditModel {
                old_start: old_start as int,
                old_end: old_end as int,
                new_start: new_start as int,
                new_end: new_end as int,
            }),
    {
        Edit { old: Range { start: old_start, end: old_end }, new: Range { start: new_start, end: new_end } }
    }

    /// A copy of this edit, bound for bound.
    pub fn duplicate(&self) -> (e: Edit)
        ensures
            e@ == self@,
    {
        Edit::from_bounds(self.old.start, self.old.end, self.new.start, self.new.end)
    }
}

} // verus!
