//! Builders for collections of ranges: a collection whose order is known,
//! and one whose order is not. Adding an arbitrary range to an ordered
//! collection gives up the ordering, which the types record.

use vstd::prelude::*;

use crate::range::Range;

verus! {

/// A collection of ranges in known order.
#[derive(Debug)]
pub struct OrderedRanges<T> {
    ranges: Vec<Range<T>>,
}

impl<T> View for OrderedRanges<T> {
    type V = Seq<Range<T>>;

    closed spec fn view(&self) -> Seq<Range<T>> {
        self.ranges@
    }
}

impl<T> OrderedRanges<T> {
    /// An empty collection, trivially ordered.
    pub fn new() -> (r: OrderedRanges<T>)
        ensures
            r@ == Seq::<Range<T>>::empty(),
    {
        let r = OrderedRanges { ranges: Vec::new() };
        proof {
            assert(r@ =~= Seq::<Range<T>>::empty());
        }
        r
    }

    /// Appends a range; an arbitrary addition gives up the ordering.
    pub fn add(self, range: Range<T>) -> (r: UnorderedRanges<T>)
        ensures
            r@ == self@.push(range),
    {
        let mut ranges = self.ranges;
        ranges.push(range);
        UnorderedRanges { ranges }
    }
}

/// A collection of ranges in no particular order.
#[derive(Debug)]
pub struct UnorderedRanges<T> {
    ranges: Vec<Range<T>>,
}

impl<T> View for UnorderedRanges<T> {
    type V = Seq<Range<T>>;

    closed spec fn view(&self) -> Seq<Range<T>> {
        self.ranges@
    }
}

impl<T> UnorderedRanges<T> {
    /// An empty collection.
    pub fn new() -> (r: UnorderedRanges<T>)
        ensures
            r@ == Seq::<Range<T>>::empty(),
    {
        let r = UnorderedRanges { ranges: Vec::new() };
        proof {
            assert(r@ =~= Seq::<Range<T>>::empty());
        }
        r
    }

    /// Appends a range.
    pub fn add(&mut self, range: Range<T>)
        ensures
            final(self)@ == old(self)@.push(range),
    {
        self.ranges.push(range);
    }
}

} // verus!
