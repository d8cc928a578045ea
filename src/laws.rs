//! Laws that relate the runs found by different strategies, from different
//! ends, and over successive calls.
use vstd::prelude::*;
use vstd::seq_lib::lemma_flatten_concat;
use vstd::utf8::{
    decode_utf8, encode_utf8, encode_utf8_decode_utf8, encode_utf8_valid_utf8, is_char_boundary,
    valid_utf8,
};
use crate::model::{
    back_start, consistent, front_len, groups, groups_back, head_cut, is_break,
    lemma_back_start, lemma_back_start_unique, lemma_front_len, lemma_front_len_unique,
    lemma_head_cut_exact, lemma_linear_back_exact, lemma_linear_front_exact, lemma_tail_cut_exact,
    linear_back_cut, linear_front_cut, single_valued, tail_cut, Answers,
};
use crate::text::{byte_offset, lemma_split_at_offset};

verus! {

/// What a consumer has met and what is left, put back together: the runs
/// taken from the front in the order met, then what is left, then the runs
/// taken from the back, the last one met first.
pub open spec fn reassembled<T>(front: Seq<Seq<T>>, rest: Seq<T>, back: Seq<Seq<T>>) -> Seq<T> {
    front.flatten() + rest + back.reverse().flatten()
}

/// Before any run is taken, the reassembled sequence is the whole sequence.
pub proof fn lemma_reassembled_start<T>(s: Seq<T>)
    ensures
        reassembled(Seq::<Seq<T>>::empty(), s, Seq::<Seq<T>>::empty()) == s,
{
    assert(Seq::<Seq<T>>::empty().reverse() =~= Seq::<Seq<T>>::empty());
    assert(Seq::<T>::empty() + s + Seq::<T>::empty() =~= s);
}

/// Partition, one call at a time, whatever the predicate: taking a run off
/// the front of what is left, as `next` does, leaves the reassembled
/// sequence unchanged.
pub proof fn lemma_front_step_keeps_whole<T>(
    front: Seq<Seq<T>>,
    rest: Seq<T>,
    back: Seq<Seq<T>>,
    g: int,
)
    requires
        0 <= g <= rest.len(),
    ensures
        reassembled(front.push(rest.take(g)), rest.skip(g), back) == reassembled(front, rest, back),
{
    front.lemma_flatten_push(rest.take(g));
    assert(rest.take(g) + rest.skip(g) =~= rest);
    assert(front.flatten() + rest.take(g) + rest.skip(g) + back.reverse().flatten()
        =~= front.flatten() + rest + back.reverse().flatten());
}

/// Partition, one call at a time, whatever the predicate: taking a run off
/// the back of what is left, as `next_back` does, leaves the reassembled
/// sequence unchanged.
pub proof fn lemma_back_step_keeps_whole<T>(
    front: Seq<Seq<T>>,
    rest: Seq<T>,
    back: Seq<Seq<T>>,
    b: int,
)
    requires
        0 <= b <= rest.len(),
    ensures
        reassembled(front, rest.take(b), back.push(rest.skip(b))) == reassembled(front, rest, back),
{
    let h = rest.skip(b);
    assert(back.push(h).reverse() =~= seq![h] + back.reverse());
    lemma_flatten_concat(seq![h], back.reverse());
    seq![h].lemma_flatten_one_element();
    assert(rest.take(b) + h =~= rest);
    assert(front.flatten() + rest.take(b) + (h + back.reverse().flatten())
        =~= front.flatten() + rest + back.reverse().flatten());
}

/// Partition: the runs of a sequence are non-empty, and concatenated in the
/// order they are found they give back the whole sequence.
pub proof fn lemma_partition<T>(s: Seq<T>, ans: Answers<T>)
    ensures
        groups(s, ans).flatten() == s,
        forall|i: int| 0 <= i < groups(s, ans).len() ==> #[trigger] groups(s, ans)[i].len() > 0,
    decreases s.len(),
{
    if s.len() > 0 {
        lemma_front_len(s, ans);
        let g = front_len(s, ans);
        let rest = groups(s.skip(g), ans);
        lemma_partition(s.skip(g), ans);
        let all = groups(s, ans);
        assert(all == seq![s.take(g)] + rest);
        assert(all.drop_first() =~= rest);
        assert(s.take(g) + s.skip(g) =~= s);
        assert forall|i: int| 0 <= i < all.len() implies #[trigger] all[i].len() > 0 by {
            if i > 0 {
                assert(all[i] == rest[i - 1]);
            }
        }
    }
}

/// Breaks of a suffix are the breaks of the whole, shifted.
proof fn lemma_breaks_of_skip<T>(s: Seq<T>, ans: Answers<T>, g: int)
    requires
        0 <= g <= s.len(),
    ensures
        forall|j: int|
            0 < j < s.len() - g ==> (is_break(s.skip(g), ans, j) <==> #[trigger] is_break(
                s,
                ans,
                j + g,
            )),
{
    assert forall|j: int| 0 < j < s.len() - g implies (is_break(s.skip(g), ans, j) <==> #[trigger] is_break(
        s,
        ans,
        j + g,
    )) by {
        assert(s.skip(g)[j - 1] == s[j + g - 1]);
        assert(s.skip(g)[j] == s[j + g]);
    }
}

/// Breaks of a prefix are the breaks of the whole.
proof fn lemma_breaks_of_take<T>(s: Seq<T>, ans: Answers<T>, b: int)
    requires
        0 <= b <= s.len(),
    ensures
        forall|j: int| 0 < j < b ==> (is_break(s.take(b), ans, j) <==> #[trigger] is_break(s, ans, j)),
{
}

/// Taking the last run off the back leaves a sequence whose runs, from the
/// front, are the other runs of the whole.
pub proof fn lemma_back_step<T>(s: Seq<T>, ans: Answers<T>)
    requires
        s.len() > 0,
    ensures
        0 <= back_start(s, ans) < s.len(),
        groups(s, ans) == groups(s.take(back_start(s, ans)), ans).push(
            s.skip(back_start(s, ans)),
        ),
    decreases s.len(),
{
    let n = s.len() as int;
    lemma_front_len(s, ans);
    lemma_back_start(s, ans);
    let g = front_len(s, ans);
    let b = back_start(s, ans);
    if g == n {
        assert forall|j: int| 0 < j < n implies !#[trigger] is_break(s, ans, j) by {}
        lemma_back_start_unique(s, ans, 0);
        assert(s.take(n) =~= s);
        assert(s.skip(n) =~= Seq::<T>::empty());
        assert(s.take(0) =~= Seq::<T>::empty());
        assert(s.skip(0) =~= s);
        assert(groups(s.skip(n), ans) =~= Seq::<Seq<T>>::empty());
        assert(groups(s.take(0), ans) =~= Seq::<Seq<T>>::empty());
        assert(groups(s, ans) =~= groups(s.take(0), ans).push(s.skip(0)));
    } else {
        assert(is_break(s, ans, g));
        if b < g {
            assert(!is_break(s, ans, g));
        }
        let t = s.skip(g);
        lemma_breaks_of_skip(s, ans, g);
        assert forall|j: int| b - g < j < t.len() implies !#[trigger] is_break(t, ans, j) by {
            assert(!is_break(s, ans, j + g));
        }
        if b - g > 0 {
            assert(is_break(s, ans, (b - g) + g));
        }
        lemma_back_start_unique(t, ans, b - g);
        lemma_back_step(t, ans);
        let u = s.take(b);
        lemma_breaks_of_take(s, ans, b);
        assert forall|j: int| 0 < j < g implies !#[trigger] is_break(u, ans, j) by {
            assert(!is_break(s, ans, j));
        }
        lemma_front_len_unique(u, ans, g);
        assert(u.take(g) =~= s.take(g));
        assert(u.skip(g) =~= t.take(b - g));
        assert(t.skip(b - g) =~= s.skip(b));
        assert(groups(u, ans) == seq![u.take(g)] + groups(u.skip(g), ans));
        assert(groups(s, ans) == seq![s.take(g)] + groups(t, ans));
        assert(groups(s, ans) =~= groups(u, ans).push(s.skip(b)));
    }
}

/// Double-ended agreement: consuming only from the back meets the same runs
/// as consuming only from the front, in reverse order. With `lemma_back_step`
/// and the definition of `groups`, any interleaving of the two meets them
/// too.
pub proof fn lemma_double_ended<T>(s: Seq<T>, ans: Answers<T>)
    ensures
        groups_back(s, ans) == groups(s, ans).reverse(),
    decreases s.len(),
{
    if s.len() == 0 {
        assert(groups(s, ans).reverse() =~= Seq::<Seq<T>>::empty());
    } else {
        lemma_back_step(s, ans);
        let b = back_start(s, ans);
        lemma_double_ended(s.take(b), ans);
        let front = groups(s.take(b), ans);
        assert(groups_back(s, ans) == seq![s.skip(b)] + groups_back(s.take(b), ans));
        assert(front.push(s.skip(b)).reverse() =~= seq![s.skip(b)] + front.reverse());
    }
}

/// Strategy agreement from the front: on a sequence sorted consistently with
/// a single-valued predicate, linear, binary and exponential search find the
/// same first run.
pub proof fn lemma_strategies_agree_front<T>(s: Seq<T>, ans: Answers<T>, linear: int, other: int)
    requires
        single_valued(ans),
        consistent(s, ans),
        linear_front_cut(s, ans, linear),
        head_cut(s, ans, other),
    ensures
        linear == other,
        other == front_len(s, ans),
{
    lemma_linear_front_exact(s, ans, linear);
    lemma_head_cut_exact(s, ans, other);
}

/// Strategy agreement from the back: on a sequence sorted consistently with
/// a single-valued predicate, linear, binary and exponential search find the
/// same last run.
pub proof fn lemma_strategies_agree_back<T>(s: Seq<T>, ans: Answers<T>, linear: int, other: int)
    requires
        single_valued(ans),
        consistent(s, ans),
        linear_back_cut(s, ans, linear),
        tail_cut(s, ans, other),
    ensures
        linear == other,
        other == back_start(s, ans),
{
    lemma_linear_back_exact(s, ans, linear);
    lemma_tail_cut_exact(s, ans, other);
}

/// Text boundary safety: a split between characters falls on a character
/// boundary, and each side is valid UTF-8 holding the characters on that side.
pub proof fn lemma_text_split(c: Seq<char>, k: int)
    requires
        0 <= k <= c.len(),
    ensures
        is_char_boundary(encode_utf8(c), byte_offset(c, k)),
        valid_utf8(encode_utf8(c).subrange(0, byte_offset(c, k))),
        valid_utf8(encode_utf8(c).subrange(byte_offset(c, k), encode_utf8(c).len() as int)),
        decode_utf8(encode_utf8(c).subrange(0, byte_offset(c, k))) == c.take(k),
        decode_utf8(encode_utf8(c).subrange(byte_offset(c, k), encode_utf8(c).len() as int))
            == c.skip(k),
{
    lemma_split_at_offset(c, k);
    encode_utf8_valid_utf8(c.take(k));
    encode_utf8_valid_utf8(c.skip(k));
    encode_utf8_decode_utf8(c.take(k));
    encode_utf8_decode_utf8(c.skip(k));
}

} // verus!
