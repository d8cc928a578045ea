//! Runs of UTF-8 text found by linear search over its characters.
use vstd::prelude::*;
use vstd::string::StringSliceAdditionalSpecFns;
use vstd::utf8::{encode_utf8, is_char_boundary};
use crate::model::{
    back_start, char_answers, char_callable, front_len, lemma_linear_back_exact,
    lemma_linear_front_exact, linear_back_cut, linear_front_cut, single_valued, Answers,
};
use crate::text::{
    byte_offset, lemma_encode_concat, lemma_same_encoding, lemma_split_at_offset, text_back,
    text_front,
};

verus! {

/// Relies on `str::split_at_mut`: it panics unless `mid` lies on a character
/// boundary, and returns the bytes before and after `mid` as two borrows whose
/// final contents make up the final contents of the whole.
pub assume_specification[ str::split_at_mut ](s: &mut str, mid: usize) -> (r: (&mut str, &mut str))
    requires
        is_char_boundary(old(s).spec_bytes(), mid as int),
    ensures
        r.0.spec_bytes() == old(s).spec_bytes().subrange(0, mid as int),
        r.1.spec_bytes() == old(s).spec_bytes().subrange(
            mid as int,
            old(s).spec_bytes().len() as int,
        ),
        final(s).spec_bytes() == final(r.0).spec_bytes() + final(r.1).spec_bytes(),
;

/// Relies on `<&mut str as Default>::default`: an empty string slice.
pub assume_specification<'a>[ <&'a mut str as core::default::Default>::default ]() -> (r: &'a mut str)
    ensures
        r@ == Seq::<char>::empty(),
;

/// The answers of character equality.
pub open spec fn equal_chars() -> Answers<char> {
    |a: char, b: char, v: bool| v == (a == b)
}

fn same_char(a: char, b: char) -> (r: bool)
    ensures
        r == (a == b),
{
    a == b
}

proof fn lemma_equal_chars_front(s: Seq<char>, g: int)
    requires
        linear_front_cut(s, char_answers(same_char), g),
    ensures
        linear_front_cut(s, equal_chars(), g),
        g == front_len(s, equal_chars()),
{
    assert forall|i: int| 0 < i < g implies #[trigger] equal_chars()(s[i - 1], s[i], true) by {
        assert(char_answers(same_char)(s[i - 1], s[i], true));
    }
    lemma_linear_front_exact(s, equal_chars(), g);
}

proof fn lemma_equal_chars_back(s: Seq<char>, b: int)
    requires
        linear_back_cut(s, char_answers(same_char), b),
    ensures
        linear_back_cut(s, equal_chars(), b),
        b == back_start(s, equal_chars()),
{
    assert forall|i: int| b < i < s.len() implies #[trigger] equal_chars()(s[i - 1], s[i], true) by {
        assert(char_answers(same_char)(s[i - 1], s[i], true));
    }
    lemma_linear_back_exact(s, equal_chars(), b);
}

/// Splits the first run off non-empty text.
fn split_front<'a, P: Fn(char, char) -> bool>(s: &'a str, p: &P) -> (r: (&'a str, &'a str))
    requires
        s@.len() > 0,
        char_callable(*p),
    ensures
        linear_front_cut(s@, char_answers(*p), r.0@.len() as int),
        r.0@ == s@.take(r.0@.len() as int),
        r.1@ == s@.skip(r.0@.len() as int),
        is_char_boundary(encode_utf8(s@), encode_utf8(r.0@).len() as int),
{
    let (off, Ghost(g)) = text_front(s, p);
    proof {
        lemma_split_at_offset(s@, g);
    }
    let (left, right) = s.split_at(off);
    proof {
        lemma_same_encoding(left@, s@.take(g));
        lemma_same_encoding(right@, s@.skip(g));
    }
    (left, right)
}

/// Splits the last run off non-empty text.
fn split_back<'a, P: Fn(char, char) -> bool>(s: &'a str, p: &P) -> (r: (&'a str, &'a str))
    requires
        s@.len() > 0,
        char_callable(*p),
    ensures
        linear_back_cut(s@, char_answers(*p), r.0@.len() as int),
        r.0@ == s@.take(r.0@.len() as int),
        r.1@ == s@.skip(r.0@.len() as int),
        is_char_boundary(encode_utf8(s@), encode_utf8(r.0@).len() as int),
{
    let (off, Ghost(b)) = text_back(s, p);
    proof {
        lemma_split_at_offset(s@, b);
    }
    let (left, right) = s.split_at(off);
    proof {
        lemma_same_encoding(left@, s@.take(b));
        lemma_same_encoding(right@, s@.skip(b));
    }
    (left, right)
}

/// Splits mutable text in two at the character index `k`.
fn split_mut_at<'a>(s: &'a mut str, off: usize, Ghost(k): Ghost<int>) -> (r: (
    &'a mut str,
    &'a mut str,
))
    requires
        0 <= k <= old(s)@.len(),
        off == byte_offset(old(s)@, k),
    ensures
        r.0@ == old(s)@.take(k),
        r.1@ == old(s)@.skip(k),
        final(s)@ == final(r.0)@ + final(r.1)@,
{
    let ghost whole = s@;
    let ghost whole_final = final(s)@;
    proof {
        lemma_split_at_offset(whole, k);
    }
    let (left, right) = s.split_at_mut(off);
    proof {
        lemma_same_encoding(left@, whole.take(k));
        lemma_same_encoding(right@, whole.skip(k));
        lemma_encode_concat(final(left)@, final(right)@);
        lemma_same_encoding(whole_final, final(left)@ + final(right)@);
    }
    (left, right)
}

/// A shorter borrow of the text behind a borrow.
fn reborrow_str<'b, 'a>(s: &'b mut &'a mut str) -> (r: &'b mut str)
    ensures
        r@ == (**old(s))@,
        final(r)@ == (**final(s))@,
        final(*final(s))@ == final(*old(s))@,
    no_unwind
{
    &mut **s
}

/// An iterator over the runs of a `str`, found by *linear search*: the
/// predicate only ever sees adjacent characters, and every run ends on a
/// character boundary.
pub struct LinearStrGroupBy<'a, P: Fn(char, char) -> bool> {
    inner: &'a str,
    predicate: P,
}

impl<'a, P: Fn(char, char) -> bool> LinearStrGroupBy<'a, P> {
    #[verifier::type_invariant]
    spec fn inv(&self) -> bool {
        char_callable(self.predicate)
    }

    /// The part of the text not yet handed out.
    pub closed spec fn rest(&self) -> Seq<char> {
        self.inner@
    }

    /// The predicate the runs are built with.
    pub closed spec fn pred(&self) -> P {
        self.predicate
    }

    /// An iterator over the runs of the whole of `string`.
    pub fn new(string: &'a str, predicate: P) -> (r: Self)
        requires
            char_callable(predicate),
        ensures
            r.rest() == string@,
            r.pred() == predicate,
    {
        LinearStrGroupBy { inner: string, predicate }
    }

    /// The part of the text not yet handed out.
    pub fn as_str(&self) -> (r: &str)
        ensures
            r@ == self.rest(),
    {
        &*self.inner
    }

    /// Hands out the first run of what is left, or `None` once nothing is.
    pub fn next(&mut self) -> (r: Option<&'a str>)
        ensures
            final(self).pred() == old(self).pred(),
            old(self).rest().len() == 0 <==> r is None,
            r is None ==> final(self).rest() == old(self).rest(),
            r is Some ==> {
                let g = r->0@.len() as int;
                &&& linear_front_cut(old(self).rest(), char_answers(old(self).pred()), g)
                &&& r->0@ == old(self).rest().take(g)
                &&& final(self).rest() == old(self).rest().skip(g)
                &&& is_char_boundary(encode_utf8(old(self).rest()), encode_utf8(r->0@).len() as int)
                &&& single_valued(char_answers(old(self).pred())) ==> g == front_len(
                    old(self).rest(),
                    char_answers(old(self).pred()),
                )
            },
    {
        if self.inner.is_empty() {
            return None;
        }
        proof {
            use_type_invariant(&*self);
        }
        let (left, right) = split_front(self.inner, &self.predicate);
        proof {
            if single_valued(char_answers(self.predicate)) {
                lemma_linear_front_exact(self.inner@, char_answers(self.predicate), left@.len() as int);
            }
        }
        self.inner = right;
        Some(left)
    }

    /// Hands out the last run of what is left, or `None` once nothing is.
    pub fn next_back(&mut self) -> (r: Option<&'a str>)
        ensures
            final(self).pred() == old(self).pred(),
            old(self).rest().len() == 0 <==> r is None,
            r is None ==> final(self).rest() == old(self).rest(),
            r is Some ==> {
                let b = old(self).rest().len() - r->0@.len();
                &&& linear_back_cut(old(self).rest(), char_answers(old(self).pred()), b)
                &&& r->0@ == old(self).rest().skip(b)
                &&& final(self).rest() == old(self).rest().take(b)
                &&& is_char_boundary(
                    encode_utf8(old(self).rest()),
                    encode_utf8(final(self).rest()).len() as int,
                )
                &&& single_valued(char_answers(old(self).pred())) ==> b == back_start(
                    old(self).rest(),
                    char_answers(old(self).pred()),
                )
            },
    {
        if self.inner.is_empty() {
            return None;
        }
        proof {
            use_type_invariant(&*self);
        }
        let (left, right) = split_back(self.inner, &self.predicate);
        proof {
            if single_valued(char_answers(self.predicate)) {
                lemma_linear_back_exact(self.inner@, char_answers(self.predicate), left@.len() as int);
            }
        }
        self.inner = left;
        Some(right)
    }
}

/// An iterator over the runs of equal characters of a `str`, found by *linear search*
/// with character equality.
pub struct LinearStrGroup<'a> {
    inner: &'a str,
}

impl<'a> LinearStrGroup<'a> {
    /// The part of the text not yet handed out.
    pub closed spec fn rest(&self) -> Seq<char> {
        self.inner@
    }

    /// An iterator over the runs of the whole of `string`.
    pub fn new(string: &'a str) -> (r: Self)
        ensures
            r.rest() == string@,
    {
        LinearStrGroup { inner: string }
    }

    /// The part of the text not yet handed out.
    pub fn as_str(&self) -> (r: &str)
        ensures
            r@ == self.rest(),
    {
        &*self.inner
    }

    /// Hands out the first run of what is left, or `None` once nothing is.
    pub fn next(&mut self) -> (r: Option<&'a str>)
        ensures
            old(self).rest().len() == 0 <==> r is None,
            r is None ==> final(self).rest() == old(self).rest(),
            r is Some ==> {
                let g = r->0@.len() as int;
                &&& linear_front_cut(old(self).rest(), equal_chars(), g)
                &&& r->0@ == old(self).rest().take(g)
                &&& final(self).rest() == old(self).rest().skip(g)
                &&& is_char_boundary(encode_utf8(old(self).rest()), encode_utf8(r->0@).len() as int)
                &&& g == front_len(old(self).rest(), equal_chars())
            },
    {
        if self.inner.is_empty() {
            return None;
        }
        let (left, right) = split_front(self.inner, &same_char);
        proof {
            lemma_equal_chars_front(self.inner@, left@.len() as int);
        }
        self.inner = right;
        Some(left)
    }

    /// Hands out the last run of what is left, or `None` once nothing is.
    pub fn next_back(&mut self) -> (r: Option<&'a str>)
        ensures
            old(self).rest().len() == 0 <==> r is None,
            r is None ==> final(self).rest() == old(self).rest(),
            r is Some ==> {
                let b = old(self).rest().len() - r->0@.len();
                &&& linear_back_cut(old(self).rest(), equal_chars(), b)
                &&& r->0@ == old(self).rest().skip(b)
                &&& final(self).rest() == old(self).rest().take(b)
                &&& is_char_boundary(
                    encode_utf8(old(self).rest()),
                    encode_utf8(final(self).rest()).len() as int,
                )
                &&& b == back_start(old(self).rest(), equal_chars())
            },
    {
        if self.inner.is_empty() {
            return None;
        }
        let (left, right) = split_back(self.inner, &same_char);
        proof {
            lemma_equal_chars_back(self.inner@, left@.len() as int);
        }
        self.inner = left;
        Some(right)
    }
}

/// An iterator over the *mutable* runs of a `str`, found by *linear search*: the
/// predicate only ever sees adjacent characters, and every run ends on a
/// character boundary.
///
/// The runs it hands out never overlap: each is split off what is left.
pub struct LinearStrGroupByMut<'a, P: Fn(char, char) -> bool> {
    inner: &'a mut str,
    predicate: P,
}

impl<'a, P: Fn(char, char) -> bool> LinearStrGroupByMut<'a, P> {
    #[verifier::type_invariant]
    spec fn inv(&self) -> bool {
        char_callable(self.predicate)
    }

    /// The part of the text not yet handed out, as it is now.
    pub closed spec fn rest(&self) -> Seq<char> {
        self.inner@
    }

    /// The borrow of the part not yet handed out; its final value is what
    /// that part holds once every borrow taken from it has ended.
    pub closed spec fn window(&self) -> &'a mut str {
        self.inner
    }

    /// The predicate the runs are built with.
    pub closed spec fn pred(&self) -> P {
        self.predicate
    }

    /// An iterator over the runs of the whole of `string`.
    pub fn new(string: &'a mut str, predicate: P) -> (r: Self)
        requires
            char_callable(predicate),
        ensures
            r.rest() == old(string)@,
            final(r.window())@ == final(string)@,
            r.pred() == predicate,
    {
        LinearStrGroupByMut { inner: string, predicate }
    }

    /// The part of the text not yet handed out.
    pub fn as_str(&self) -> (r: &str)
        ensures
            r@ == self.rest(),
    {
        &*self.inner
    }

    /// The part of the text not yet handed out, to change in place.
    pub fn as_str_mut(&mut self) -> (r: &mut str)
        ensures
            r@ == old(self).rest(),
            final(r)@ == final(self).rest(),
            final(self).pred() == old(self).pred(),
            final(final(self).window())@ == final(old(self).window())@,
    {
        proof {
            use_type_invariant(&*self);
        }
        reborrow_str(&mut self.inner)
    }

    /// Hands out the first run of what is left, or `None` once nothing is.
    pub fn next(&mut self) -> (r: Option<&'a mut str>)
        ensures
            final(self).pred() == old(self).pred(),
            old(self).rest().len() == 0 <==> r is None,
            r is None ==> final(self).rest() == old(self).rest(),
            r is None ==> final(final(self).window())@ == final(old(self).window())@,
            r is Some ==> {
                let g = r->0@.len() as int;
                &&& linear_front_cut(old(self).rest(), char_answers(old(self).pred()), g)
                &&& r->0@ == old(self).rest().take(g)
                &&& final(self).rest() == old(self).rest().skip(g)
                &&& is_char_boundary(encode_utf8(old(self).rest()), encode_utf8(r->0@).len() as int)
                &&& final(old(self).window())@ == final(r->0)@ + final(final(self).window())@
                &&& single_valued(char_answers(old(self).pred())) ==> g == front_len(
                    old(self).rest(),
                    char_answers(old(self).pred()),
                )
            },
    {
        proof {
            use_type_invariant(&*self);
        }
        if self.inner.is_empty() {
            return None;
        }
        let mut whole: &'a mut str = Default::default();
        core::mem::swap(&mut self.inner, &mut whole);
        let (off, Ghost(k)) = text_front(&*whole, &self.predicate);
        proof {
            if single_valued(char_answers(self.predicate)) {
                lemma_linear_front_exact(whole@, char_answers(self.predicate), k);
            }
        }
        proof {
            lemma_split_at_offset(whole@, k);
        }
        let (left, right) = split_mut_at(whole, off, Ghost(k));
        self.inner = right;
        Some(left)
    }

    /// Hands out the last run of what is left, or `None` once nothing is.
    pub fn next_back(&mut self) -> (r: Option<&'a mut str>)
        ensures
            final(self).pred() == old(self).pred(),
            old(self).rest().len() == 0 <==> r is None,
            r is None ==> final(self).rest() == old(self).rest(),
            r is None ==> final(final(self).window())@ == final(old(self).window())@,
            r is Some ==> {
                let b = old(self).rest().len() - r->0@.len();
                &&& linear_back_cut(old(self).rest(), char_answers(old(self).pred()), b)
                &&& r->0@ == old(self).rest().skip(b)
                &&& final(self).rest() == old(self).rest().take(b)
                &&& is_char_boundary(
                    encode_utf8(old(self).rest()),
                    encode_utf8(final(self).rest()).len() as int,
                )
                &&& final(old(self).window())@ == final(final(self).window())@ + final(r->0)@
                &&& single_valued(char_answers(old(self).pred())) ==> b == back_start(
                    old(self).rest(),
                    char_answers(old(self).pred()),
                )
            },
    {
        proof {
            use_type_invariant(&*self);
        }
        if self.inner.is_empty() {
            return None;
        }
        let mut whole: &'a mut str = Default::default();
        core::mem::swap(&mut self.inner, &mut whole);
        let (off, Ghost(k)) = text_back(&*whole, &self.predicate);
        proof {
            if single_valued(char_answers(self.predicate)) {
                lemma_linear_back_exact(whole@, char_answers(self.predicate), k);
            }
        }
        proof {
            lemma_split_at_offset(whole@, k);
        }
        let (left, right) = split_mut_at(whole, off, Ghost(k));
        self.inner = left;
        Some(right)
    }
}

/// An iterator over the *mutable* runs of equal characters of a `str`, found by *linear search*
/// with character equality.
///
/// The runs it hands out never overlap: each is split off what is left.
pub struct LinearStrGroupMut<'a> {
    inner: &'a mut str,
}

impl<'a> LinearStrGroupMut<'a> {
    /// The part of the text not yet handed out, as it is now.
    pub closed spec fn rest(&self) -> Seq<char> {
        self.inner@
    }

    /// The borrow of the part not yet handed out; its final value is what
    /// that part holds once every borrow taken from it has ended.
    pub closed spec fn window(&self) -> &'a mut str {
        self.inner
    }

    /// An iterator over the runs of the whole of `string`.
    pub fn new(string: &'a mut str) -> (r: Self)
        ensures
            r.rest() == old(string)@,
            final(r.window())@ == final(string)@,
    {
        LinearStrGroupMut { inner: string }
    }

    /// The part of the text not yet handed out.
    pub fn as_str(&self) -> (r: &str)
        ensures
            r@ == self.rest(),
    {
        &*self.inner
    }

    /// The part of the text not yet handed out, to change in place.
    pub fn as_str_mut(&mut self) -> (r: &mut str)
        ensures
            r@ == old(self).rest(),
            final(r)@ == final(self).rest(),
            final(final(self).window())@ == final(old(self).window())@,
    {
        reborrow_str(&mut self.inner)
    }

    /// Hands out the first run of what is left, or `None` once nothing is.
    pub fn next(&mut self) -> (r: Option<&'a mut str>)
        ensures
            old(self).rest().len() == 0 <==> r is None,
            r is None ==> final(self).rest() == old(self).rest(),
            r is None ==> final(final(self).window())@ == final(old(self).window())@,
            r is Some ==> {
                let g = r->0@.len() as int;
                &&& linear_front_cut(old(self).rest(), equal_chars(), g)
                &&& r->0@ == old(self).rest().take(g)
                &&& final(self).rest() == old(self).rest().skip(g)
                &&& is_char_boundary(encode_utf8(old(self).rest()), encode_utf8(r->0@).len() as int)
                &&& final(old(self).window())@ == final(r->0)@ + final(final(self).window())@
                &&& g == front_len(old(self).rest(), equal_chars())
            },
    {
        if self.inner.is_empty() {
            return None;
        }
        let mut whole: &'a mut str = Default::default();
        core::mem::swap(&mut self.inner, &mut whole);
        let (off, Ghost(k)) = text_front(&*whole, &same_char);
        proof {
            lemma_equal_chars_front(whole@, k);
        }
        proof {
            lemma_split_at_offset(whole@, k);
        }
        let (left, right) = split_mut_at(whole, off, Ghost(k));
        self.inner = right;
        Some(left)
    }

    /// Hands out the last run of what is left, or `None` once nothing is.
    pub fn next_back(&mut self) -> (r: Option<&'a mut str>)
        ensures
            old(self).rest().len() == 0 <==> r is None,
            r is None ==> final(self).rest() == old(self).rest(),
            r is None ==> final(final(self).window())@ == final(old(self).window())@,
            r is Some ==> {
                let b = old(self).rest().len() - r->0@.len();
                &&& linear_back_cut(old(self).rest(), equal_chars(), b)
                &&& r->0@ == old(self).rest().skip(b)
                &&& final(self).rest() == old(self).rest().take(b)
                &&& is_char_boundary(
                    encode_utf8(old(self).rest()),
                    encode_utf8(final(self).rest()).len() as int,
                )
                &&& final(old(self).window())@ == final(final(self).window())@ + final(r->0)@
                &&& b == back_start(old(self).rest(), equal_chars())
            },
    {
        if self.inner.is_empty() {
            return None;
        }
        let mut whole: &'a mut str = Default::default();
        core::mem::swap(&mut self.inner, &mut whole);
        let (off, Ghost(k)) = text_back(&*whole, &same_char);
        proof {
            lemma_equal_chars_back(whole@, k);
        }
        proof {
            lemma_split_at_offset(whole@, k);
        }
        let (left, right) = split_mut_at(whole, off, Ghost(k));
        self.inner = left;
        Some(right)
    }
}

} // verus!
