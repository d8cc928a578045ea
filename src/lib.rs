//! Iterators over the runs of a slice or a string: maximal stretches of
//! adjacent elements that a predicate accepts pairwise.
//!
//! Runs are found by linear search, by binary search, or by exponential
//! (galloping) search, from either end, as shared or as mutable views.
//! Every run is a view into the caller's memory; nothing is copied.
pub mod model;
pub mod search;
pub mod text;
pub mod laws;
pub mod linear_group_by;
pub mod binary_group_by;
pub mod exponential_group_by;
pub mod linear_str_group_by;

pub use self::binary_group_by::{BinaryGroupBy, BinaryGroupByMut};
pub use self::exponential_group_by::{ExponentialGroupBy, ExponentialGroupByMut};
pub use self::linear_group_by::{LinearGroupBy, LinearGroupByMut};
pub use self::linear_str_group_by::{
    LinearStrGroup, LinearStrGroupBy, LinearStrGroupByMut, LinearStrGroupMut,
};

use vstd::prelude::*;
use crate::model::callable;

verus! {

/// Builds an iterator over the runs of a slice that a predicate defines.
pub trait GroupBy<'a, T, P: Fn(&T, &T) -> bool> {
    /// An iterator on the runs found by *linear search*.
    fn linear_group_by(self, predicate: P) -> LinearGroupBy<'a, T, P>
        requires
            callable(predicate),
    ;

    /// An iterator on the runs found by *binary search*; the predicate
    /// should order consistently with the slice.
    fn binary_group_by(self, predicate: P) -> BinaryGroupBy<'a, T, P>
        requires
            callable(predicate),
    ;

    /// An iterator on the runs found by *exponential search*; the predicate
    /// should order consistently with the slice.
    fn exponential_group_by(self, predicate: P) -> ExponentialGroupBy<'a, T, P>
        requires
            callable(predicate),
    ;
}

/// Builds an iterator over the mutable runs of a slice that a predicate
/// defines.
pub trait GroupByMut<'a, T: 'a, P: Fn(&T, &T) -> bool> {
    /// An iterator on the runs found by *linear search*.
    fn linear_group_by_mut(self, predicate: P) -> LinearGroupByMut<'a, T, P>
        requires
            callable(predicate),
    ;

    /// An iterator on the runs found by *binary search*; the predicate
    /// should order consistently with the slice.
    fn binary_group_by_mut(self, predicate: P) -> BinaryGroupByMut<'a, T, P>
        requires
            callable(predicate),
    ;

    /// An iterator on the runs found by *exponential search*; the predicate
    /// should order consistently with the slice.
    fn exponential_group_by_mut(self, predicate: P) -> ExponentialGroupByMut<'a, T, P>
        requires
            callable(predicate),
    ;
}

impl<'a, T, P: Fn(&T, &T) -> bool> GroupBy<'a, T, P> for &'a [T] {
    fn linear_group_by(self, predicate: P) -> (r: LinearGroupBy<'a, T, P>)
        ensures
            r.rest() == self@,
            r.pred() == predicate,
    {
        LinearGroupBy::new(self, predicate)
    }

    fn binary_group_by(self, predicate: P) -> (r: BinaryGroupBy<'a, T, P>)
        ensures
            r.rest() == self@,
            r.pred() == predicate,
    {
        BinaryGroupBy::new(self, predicate)
    }

    fn exponential_group_by(self, predicate: P) -> (r: ExponentialGroupBy<'a, T, P>)
        ensures
            r.rest() == self@,
            r.pred() == predicate,
    {
        ExponentialGroupBy::new(self, predicate)
    }
}

impl<'a, T: 'a, P: Fn(&T, &T) -> bool> GroupByMut<'a, T, P> for &'a mut [T] {
    fn linear_group_by_mut(self, predicate: P) -> (r: LinearGroupByMut<'a, T, P>)
        ensures
            r.rest() == old(self)@,
            final(r.window())@ == final(self)@,
            r.pred() == predicate,
    {
        LinearGroupByMut::new(self, predicate)
    }

    fn binary_group_by_mut(self, predicate: P) -> (r: BinaryGroupByMut<'a, T, P>)
        ensures
            r.rest() == old(self)@,
            final(r.window())@ == final(self)@,
            r.pred() == predicate,
    {
        BinaryGroupByMut::new(self, predicate)
    }

    fn exponential_group_by_mut(self, predicate: P) -> (r: ExponentialGroupByMut<'a, T, P>)
        ensures
            r.rest() == old(self)@,
            final(r.window())@ == final(self)@,
            r.pred() == predicate,
    {
        ExponentialGroupByMut::new(self, predicate)
    }
}

} // verus!
