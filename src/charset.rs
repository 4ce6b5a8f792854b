//! Character sets: ordered lists of inclusive code-point ranges.
use vstd::prelude::*;

verus! {

/// A set of characters, kept as an ordered list of inclusive code-point
/// ranges `(first, last)`.
#[derive(Debug)]
pub struct CharacterSet {
    pub ranges: Vec<(u32, u32)>,
}

/// Whether code point `c` lies in one of the ranges.
pub open spec fn in_ranges(ranges: Seq<(u32, u32)>, c: u32) -> bool {
    exists|i: int| 0 <= i < ranges.len() && (#[trigger] ranges[i]).0 <= c && c <= ranges[i].1
}

/// Whether every range `(a, b)` has `a <= b`.
pub open spec fn ranges_ordered(ranges: Seq<(u32, u32)>) -> bool {
    forall|i: int| 0 <= i < ranges.len() ==> (#[trigger] ranges[i]).0 <= ranges[i].1
}

impl View for CharacterSet {
    type V = Seq<(u32, u32)>;

    open spec fn view(&self) -> Seq<(u32, u32)> {
        self.ranges@
    }
}

impl CharacterSet {
    pub fn new(ranges: Vec<(u32, u32)>) -> (r: CharacterSet)
        ensures
            r@ == ranges@,
    {
        CharacterSet { ranges }
    }

    /// An empty set.
    pub fn empty() -> (r: CharacterSet)
        ensures
            r@.len() == 0,
    {
        CharacterSet { ranges: Vec::new() }
    }

    /// Appends a range after the existing ones.
    pub fn add(&mut self, range: (u32, u32))
        ensures
            final(self)@ == old(self)@.push(range),
    {
        self.ranges.push(range);
    }

    /// Whether `item` lies in one of the ranges.
    pub fn contains(&self, item: char) -> (r: bool)
        ensures
            r == in_ranges(self@, item as u32),
    {
        let c = item as u32;
        let mut i: usize = 0;
        while i < self.ranges.len()
            invariant
                0 <= i <= self.ranges@.len(),
                c == item as u32,
                forall|j: int| 0 <= j < i ==> !((#[trigger] self.ranges@[j]).0 <= c && c <= self.ranges@[j].1),
            decreases self.ranges@.len() - i,
        {
            let (lo, hi) = self.ranges[i];
            if lo <= c && c <= hi {
                assert(self@[i as int].0 <= c && c <= self@[i as int].1);
                return true;
            }
            i = i + 1;
        }
        false
    }

    /// The ranges, in their stored order.
    pub fn ranges(&self) -> (r: &Vec<(u32, u32)>)
        ensures
            r@ == self@,
    {
        &self.ranges
    }

    /// A copy of the set.
    pub fn duplicate(&self) -> (r: CharacterSet)
        ensures
            r@ == self@,
    {
        let mut v: Vec<(u32, u32)> = Vec::new();
        let mut i: usize = 0;
        while i < self.ranges.len()
            invariant
                0 <= i <= self.ranges@.len(),
                v@ == self.ranges@.subrange(0, i as int),
            decreases self.ranges@.len() - i,
        {
            v.push(self.ranges[i]);
            i = i + 1;
            assert(v@ =~= self.ranges@.subrange(0, i as int));
        }
        assert(v@ =~= self.ranges@);
        CharacterSet { ranges: v }
    }
}

} // verus!
