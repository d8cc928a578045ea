//! Runs of a slice found by linear search.
use vstd::prelude::*;
use crate::model::{
    answers, back_start, callable, front_len, lemma_linear_back_exact, lemma_linear_front_exact,
    linear_back_cut, linear_front_cut, single_valued,
};
use crate::search::{linear_back, linear_front};

verus! {

/// An iterator over the runs of a slice, found by *linear search*: the
/// predicate only ever sees adjacent elements.
pub struct LinearGroupBy<'a, T, P: Fn(&T, &T) -> bool> {
    slice: &'a [T],
    predicate: P,
}

impl<'a, T, P: Fn(&T, &T) -> bool> LinearGroupBy<'a, T, P> {
    #[verifier::type_invariant]
    spec fn inv(&self) -> bool {
        callable(self.predicate)
    }

    /// The part of the slice not yet handed out.
    pub closed spec fn rest(&self) -> Seq<T> {
        self.slice@
    }

    /// The predicate the runs are built with.
    pub closed spec fn pred(&self) -> P {
        self.predicate
    }

    /// An iterator over the runs of the whole of `slice`.
    pub fn new(slice: &'a [T], predicate: P) -> (r: Self)
        requires
            callable(predicate),
        ensures
            r.rest() == slice@,
            r.pred() == predicate,
    {
        LinearGroupBy { slice, predicate }
    }

    /// The part of the slice not yet handed out.
    pub fn remainder(&self) -> (r: &'a [T])
        ensures
            r@ == self.rest(),
    {
        self.slice
    }

    /// Hands out the first run of what is left, or `None` once nothing is.
    pub fn next(&mut self) -> (r: Option<&'a [T]>)
        ensures
            final(self).pred() == old(self).pred(),
            old(self).rest().len() == 0 <==> r is None,
            r is None ==> final(self).rest() == old(self).rest(),
            r is Some ==> {
                let g = r->0@.len() as int;
                &&& linear_front_cut(old(self).rest(), answers(old(self).pred()), g)
                &&& r->0@ == old(self).rest().take(g)
                &&& final(self).rest() == old(self).rest().skip(g)
                &&& single_valued(answers(old(self).pred())) ==> g == front_len(
                    old(self).rest(),
                    answers(old(self).pred()),
                )
            },
    {
        if self.slice.len() == 0 {
            return None;
        }
        proof {
            use_type_invariant(&*self);
        }
        let g = linear_front(self.slice, &self.predicate);
        let (left, right) = self.slice.split_at(g);
        proof {
            if single_valued(answers(self.predicate)) {
                lemma_linear_front_exact(self.slice@, answers(self.predicate), g as int);
            }
        }
        self.slice = right;
        Some(left)
    }

    /// Hands out the last run of what is left, or `None` once nothing is.
    pub fn next_back(&mut self) -> (r: Option<&'a [T]>)
        ensures
            final(self).pred() == old(self).pred(),
            old(self).rest().len() == 0 <==> r is None,
            r is None ==> final(self).rest() == old(self).rest(),
            r is Some ==> {
                let b = old(self).rest().len() - r->0@.len();
                &&& linear_back_cut(old(self).rest(), answers(old(self).pred()), b)
                &&& r->0@ == old(self).rest().skip(b)
                &&& final(self).rest() == old(self).rest().take(b)
                &&& single_valued(answers(old(self).pred())) ==> b == back_start(
                    old(self).rest(),
                    answers(old(self).pred()),
                )
            },
    {
        if self.slice.len() == 0 {
            return None;
        }
        proof {
            use_type_invariant(&*self);
        }
        let b = linear_back(self.slice, &self.predicate);
        let (left, right) = self.slice.split_at(b);
        proof {
            if single_valued(answers(self.predicate)) {
                lemma_linear_back_exact(self.slice@, answers(self.predicate), b as int);
            }
        }
        self.slice = left;
        Some(right)
    }
}

/// An iterator over the *mutable* runs of a slice, found by *linear search*: the
/// predicate only ever sees adjacent elements.
///
/// The runs it hands out never overlap: each is split off what is left.
pub struct LinearGroupByMut<'a, T, P: Fn(&T, &T) -> bool> {
    slice: &'a mut [T],
    predicate: P,
}

impl<'a, T, P: Fn(&T, &T) -> bool> LinearGroupByMut<'a, T, P> {
    #[verifier::type_invariant]
    spec fn inv(&self) -> bool {
        callable(self.predicate)
    }

    /// The part of the slice not yet handed out, as it is now.
    pub closed spec fn rest(&self) -> Seq<T> {
        self.slice@
    }

    /// The borrow of the part not yet handed out; its final value is what
    /// that part holds once every borrow taken from it has ended.
    pub closed spec fn window(&self) -> &'a mut [T] {
        self.slice
    }

    /// The predicate the runs are built with.
    pub closed spec fn pred(&self) -> P {
        self.predicate
    }

    /// An iterator over the runs of the whole of `slice`.
    pub fn new(slice: &'a mut [T], predicate: P) -> (r: Self)
        requires
            callable(predicate),
        ensures
            r.rest() == old(slice)@,
            final(r.window())@ == final(slice)@,
            r.pred() == predicate,
    {
        LinearGroupByMut { slice, predicate }
    }

    /// The part of the slice not yet handed out.
    pub fn remainder(&self) -> (r: &[T])
        ensures
            r@ == self.rest(),
    {
        &*self.slice
    }

    /// The part of the slice not yet handed out, to change in place.
    pub fn remainder_mut(&mut self) -> (r: &mut [T])
        ensures
            r@ == old(self).rest(),
            final(r)@ == final(self).rest(),
            final(self).pred() == old(self).pred(),
            final(final(self).window())@ == final(old(self).window())@,
    {
        proof {
            use_type_invariant(&*self);
        }
        reborrow_slice(&mut self.slice)
    }

    /// Hands out the first run of what is left, or `None` once nothing is.
    pub fn next(&mut self) -> (r: Option<&'a mut [T]>)
        ensures
            final(self).pred() == old(self).pred(),
            old(self).rest().len() == 0 <==> r is None,
            r is None ==> final(self).rest() == old(self).rest(),
            r is None ==> final(final(self).window())@ == final(old(self).window())@,
            r is Some ==> {
                let g = r->0@.len() as int;
                &&& linear_front_cut(old(self).rest(), answers(old(self).pred()), g)
                &&& r->0@ == old(self).rest().take(g)
                &&& final(self).rest() == old(self).rest().skip(g)
                &&& final(old(self).window())@ == final(r->0)@ + final(final(self).window())@
                &&& single_valued(answers(old(self).pred())) ==> g == front_len(
                    old(self).rest(),
                    answers(old(self).pred()),
                )
            },
    {
        proof {
            use_type_invariant(&*self);
        }
        if self.slice.len() == 0 {
            return None;
        }
        let mut whole: &'a mut [T] = &mut [];
        core::mem::swap(&mut self.slice, &mut whole);
        let g = linear_front(&*whole, &self.predicate);
        proof {
            if single_valued(answers(self.predicate)) {
                lemma_linear_front_exact(whole@, answers(self.predicate), g as int);
            }
        }
        let (left, right) = whole.split_at_mut(g);
        self.slice = right;
        Some(left)
    }

    /// Hands out the last run of what is left, or `None` once nothing is.
    pub fn next_back(&mut self) -> (r: Option<&'a mut [T]>)
        ensures
            final(self).pred() == old(self).pred(),
            old(self).rest().len() == 0 <==> r is None,
            r is None ==> final(self).rest() == old(self).rest(),
            r is None ==> final(final(self).window())@ == final(old(self).window())@,
            r is Some ==> {
                let b = old(self).rest().len() - r->0@.len();
                &&& linear_back_cut(old(self).rest(), answers(old(self).pred()), b)
                &&& r->0@ == old(self).rest().skip(b)
                &&& final(self).rest() == old(self).rest().take(b)
                &&& final(old(self).window())@ == final(final(self).window())@ + final(r->0)@
                &&& single_valued(answers(old(self).pred())) ==> b == back_start(
                    old(self).rest(),
                    answers(old(self).pred()),
                )
            },
    {
        proof {
            use_type_invariant(&*self);
        }
        if self.slice.len() == 0 {
            return None;
        }
        let mut whole: &'a mut [T] = &mut [];
        core::mem::swap(&mut self.slice, &mut whole);
        let b = linear_back(&*whole, &self.predicate);
        proof {
            if single_valued(answers(self.predicate)) {
                lemma_linear_back_exact(whole@, answers(self.predicate), b as int);
            }
        }
        let (left, right) = whole.split_at_mut(b);
        self.slice = left;
        Some(right)
    }
}

/// A shorter borrow of the elements behind a borrow.
pub(crate) fn reborrow_slice<'b, 'a, T>(s: &'b mut &'a mut [T]) -> (r: &'b mut [T])
    ensures
        r@ == (**old(s))@,
        final(r)@ == (**final(s))@,
        final(*final(s))@ == final(*old(s))@,
    no_unwind
{
    &mut **s
}

} // verus!
