//! Mathematical model of grouping: what a predicate answered, where a
//! sequence breaks into runs, and the runs themselves.
use vstd::prelude::*;

verus! {

/// What a predicate may answer on a pair: `ans(a, b, v)` holds when a call
/// on `(a, b)` may return `v`.
pub type Answers<T> = spec_fn(T, T, bool) -> bool;

/// The answers of a predicate over two element references.
pub open spec fn answers<T, P: Fn(&T, &T) -> bool>(p: P) -> Answers<T> {
    |a: T, b: T, v: bool| p.ensures((&a, &b), v)
}

/// The answers of a predicate over two characters.
pub open spec fn char_answers<P: Fn(char, char) -> bool>(p: P) -> Answers<char> {
    |a: char, b: char, v: bool| p.ensures((a, b), v)
}

/// The predicate may be called on every pair of elements.
pub open spec fn callable<T, P: Fn(&T, &T) -> bool>(p: P) -> bool {
    forall|a: &T, b: &T| #[trigger] p.requires((a, b))
}

/// The predicate may be called on every pair of characters.
pub open spec fn char_callable<P: Fn(char, char) -> bool>(p: P) -> bool {
    forall|a: char, b: char| #[trigger] p.requires((a, b))
}

/// No pair can get both answers: the predicate behaves as a function.
pub open spec fn single_valued<T>(ans: Answers<T>) -> bool {
    forall|a: T, b: T| !(#[trigger] ans(a, b, true) && ans(a, b, false))
}

/// The sequence breaks between positions `i - 1` and `i`.
pub open spec fn is_break<T>(s: Seq<T>, ans: Answers<T>, i: int) -> bool {
    0 < i < s.len() && !ans(s[i - 1], s[i], true)
}

/// `g` ends the first run of `s` as a linear scan observes it: each adjacent
/// pair before `g` was accepted, and the pair across `g`, if any, refused.
pub open spec fn linear_front_cut<T>(s: Seq<T>, ans: Answers<T>, g: int) -> bool {
    &&& 0 < g <= s.len()
    &&& forall|i: int| #![trigger s[i]] 0 < i < g ==> ans(s[i - 1], s[i], true)
    &&& g < s.len() ==> ans(s[g - 1], s[g], false)
}

/// `b` starts the last run of `s` as a linear scan from the back observes it.
pub open spec fn linear_back_cut<T>(s: Seq<T>, ans: Answers<T>, b: int) -> bool {
    &&& 0 <= b < s.len()
    &&& forall|i: int| #![trigger s[i]] b < i < s.len() ==> ans(s[i - 1], s[i], true)
    &&& b > 0 ==> ans(s[b - 1], s[b], false)
}

/// `g` ends the first run of `s` as a search against the first element
/// observes it: the last member was accepted with the first, and the element
/// at `g`, if any, refused.
pub open spec fn head_cut<T>(s: Seq<T>, ans: Answers<T>, g: int) -> bool {
    &&& 0 < g <= s.len()
    &&& g > 1 ==> ans(s[0], s[g - 1], true)
    &&& g < s.len() ==> ans(s[0], s[g], false)
}

/// `b` starts the last run of `s` as a search against the last element
/// observes it.
pub open spec fn tail_cut<T>(s: Seq<T>, ans: Answers<T>, b: int) -> bool {
    &&& 0 <= b < s.len()
    &&& b < s.len() - 1 ==> ans(s[b], s[s.len() - 1], true)
    &&& b > 0 ==> ans(s[b - 1], s[s.len() - 1], false)
}

/// Against the first element, the predicate accepts a prefix of `s` and
/// refuses the rest.
pub open spec fn monotone_head<T>(s: Seq<T>, ans: Answers<T>) -> bool {
    forall|i: int, j: int|
        0 < i < j < s.len() && #[trigger] ans(s[0], s[j], true) ==> #[trigger] ans(
            s[0],
            s[i],
            true,
        )
}

/// Against the last element, the predicate accepts a suffix of `s` and
/// refuses the rest.
pub open spec fn monotone_tail<T>(s: Seq<T>, ans: Answers<T>) -> bool {
    forall|i: int, j: int|
        0 <= i < j < s.len() - 1 && #[trigger] ans(s[i], s[s.len() - 1], true) ==> #[trigger] ans(
            s[j],
            s[s.len() - 1],
            true,
        )
}

/// `s` is sorted consistently with the predicate: two elements are accepted
/// together exactly when each is accepted with any element between them.
pub open spec fn consistent<T>(s: Seq<T>, ans: Answers<T>) -> bool {
    forall|i: int, j: int, k: int|
        #![trigger s[i], s[j], s[k]]
        0 <= i < j < k < s.len() ==> (ans(s[i], s[k], true) <==> (ans(s[i], s[j], true) && ans(
            s[j],
            s[k],
            true,
        )))
}

/// The first break of `s` at or after `i`, or `s.len()` if there is none.
pub open spec fn first_break_from<T>(s: Seq<T>, ans: Answers<T>, i: int) -> int
    decreases s.len() - i,
{
    if i >= s.len() {
        s.len() as int
    } else if is_break(s, ans, i) {
        i
    } else {
        first_break_from(s, ans, i + 1)
    }
}

/// The last break of `s` at or before `i`, or `0` if there is none.
pub open spec fn last_break_to<T>(s: Seq<T>, ans: Answers<T>, i: int) -> int
    decreases i,
{
    if i <= 0 {
        0
    } else if is_break(s, ans, i) {
        i
    } else {
        last_break_to(s, ans, i - 1)
    }
}

/// Length of the first run of a non-empty `s`.
pub open spec fn front_len<T>(s: Seq<T>, ans: Answers<T>) -> int {
    first_break_from(s, ans, 1)
}

/// Start of the last run of a non-empty `s`.
pub open spec fn back_start<T>(s: Seq<T>, ans: Answers<T>) -> int {
    last_break_to(s, ans, s.len() - 1)
}

/// The runs of `s`, front to back.
pub open spec fn groups<T>(s: Seq<T>, ans: Answers<T>) -> Seq<Seq<T>>
    decreases s.len(),
{
    if s.len() == 0 {
        seq![]
    } else {
        let g = front_len(s, ans);
        if 0 < g <= s.len() {
            seq![s.take(g)] + groups(s.skip(g), ans)
        } else {
            seq![s]
        }
    }
}

/// The runs of `s` in the order a consumer from the back meets them.
pub open spec fn groups_back<T>(s: Seq<T>, ans: Answers<T>) -> Seq<Seq<T>>
    decreases s.len(),
{
    if s.len() == 0 {
        seq![]
    } else {
        let b = back_start(s, ans);
        if 0 <= b < s.len() {
            seq![s.skip(b)] + groups_back(s.take(b), ans)
        } else {
            seq![s]
        }
    }
}

/// `first_break_from` finds the first break at or after `i`.
pub proof fn lemma_first_break_from<T>(s: Seq<T>, ans: Answers<T>, i: int)
    requires
        1 <= i <= s.len(),
    ensures
        i <= first_break_from(s, ans, i) <= s.len(),
        forall|j: int| i <= j < first_break_from(s, ans, i) ==> !#[trigger] is_break(s, ans, j),
        first_break_from(s, ans, i) < s.len() ==> is_break(s, ans, first_break_from(s, ans, i)),
    decreases s.len() - i,
{
    if i < s.len() && !is_break(s, ans, i) {
        lemma_first_break_from(s, ans, i + 1);
    }
}

/// `last_break_to` finds the last break at or before `i`.
pub proof fn lemma_last_break_to<T>(s: Seq<T>, ans: Answers<T>, i: int)
    requires
        0 <= i < s.len(),
    ensures
        0 <= last_break_to(s, ans, i) <= i,
        forall|j: int| last_break_to(s, ans, i) < j <= i ==> !#[trigger] is_break(s, ans, j),
        last_break_to(s, ans, i) > 0 ==> is_break(s, ans, last_break_to(s, ans, i)),
    decreases i,
{
    if i > 0 && !is_break(s, ans, i) {
        lemma_last_break_to(s, ans, i - 1);
    }
}

/// The first run of a non-empty sequence ends at its first break.
pub proof fn lemma_front_len<T>(s: Seq<T>, ans: Answers<T>)
    requires
        s.len() > 0,
    ensures
        0 < front_len(s, ans) <= s.len(),
        forall|j: int| 0 < j < front_len(s, ans) ==> !#[trigger] is_break(s, ans, j),
        front_len(s, ans) < s.len() ==> is_break(s, ans, front_len(s, ans)),
{
    lemma_first_break_from(s, ans, 1);
}

/// The last run of a non-empty sequence starts at its last break.
pub proof fn lemma_back_start<T>(s: Seq<T>, ans: Answers<T>)
    requires
        s.len() > 0,
    ensures
        0 <= back_start(s, ans) < s.len(),
        forall|j: int| back_start(s, ans) < j < s.len() ==> !#[trigger] is_break(s, ans, j),
        back_start(s, ans) > 0 ==> is_break(s, ans, back_start(s, ans)),
{
    lemma_last_break_to(s, ans, s.len() - 1);
}

/// An index with no break before it and a break (or the end) at it is the
/// length of the first run.
pub proof fn lemma_front_len_unique<T>(s: Seq<T>, ans: Answers<T>, g: int)
    requires
        0 < g <= s.len(),
        forall|j: int| 0 < j < g ==> !#[trigger] is_break(s, ans, j),
        g < s.len() ==> is_break(s, ans, g),
    ensures
        g == front_len(s, ans),
{
    lemma_front_len(s, ans);
    let f = front_len(s, ans);
    if f < g {
        assert(is_break(s, ans, f));
    } else if g < f {
        assert(!is_break(s, ans, g));
    }
}

/// An index with no break after it and a break (or 0) at it is the start of
/// the last run.
pub proof fn lemma_back_start_unique<T>(s: Seq<T>, ans: Answers<T>, b: int)
    requires
        0 <= b < s.len(),
        forall|j: int| b < j < s.len() ==> !#[trigger] is_break(s, ans, j),
        b > 0 ==> is_break(s, ans, b),
    ensures
        b == back_start(s, ans),
{
    lemma_back_start(s, ans);
    let f = back_start(s, ans);
    if f < b {
        assert(!is_break(s, ans, b));
    } else if b < f {
        assert(is_break(s, ans, f));
    }
}

/// With a single-valued predicate, a linear scan from the front finds
/// exactly the first run.
pub proof fn lemma_linear_front_exact<T>(s: Seq<T>, ans: Answers<T>, g: int)
    requires
        single_valued(ans),
        linear_front_cut(s, ans, g),
    ensures
        g == front_len(s, ans),
{
    assert forall|j: int| 0 < j < g implies !#[trigger] is_break(s, ans, j) by {
        assert(ans(s[j - 1], s[j], true));
    }
    if g < s.len() {
        assert(!(ans(s[g - 1], s[g], true) && ans(s[g - 1], s[g], false)));
    }
    lemma_front_len_unique(s, ans, g);
}

/// With a single-valued predicate, a linear scan from the back finds
/// exactly the last run.
pub proof fn lemma_linear_back_exact<T>(s: Seq<T>, ans: Answers<T>, b: int)
    requires
        single_valued(ans),
        linear_back_cut(s, ans, b),
    ensures
        b == back_start(s, ans),
{
    assert forall|j: int| b < j < s.len() implies !#[trigger] is_break(s, ans, j) by {
        assert(ans(s[j - 1], s[j], true));
    }
    if b > 0 {
        assert(!(ans(s[b - 1], s[b], true) && ans(s[b - 1], s[b], false)));
    }
    lemma_back_start_unique(s, ans, b);
}

/// In a consistently sorted sequence, an element accepted with the first
/// one is linked to it by accepted adjacent pairs.
pub proof fn lemma_chain_from_head<T>(s: Seq<T>, ans: Answers<T>, k: int)
    requires
        consistent(s, ans),
        0 < k < s.len(),
        ans(s[0], s[k], true),
    ensures
        forall|i: int| 0 < i <= k ==> #[trigger] ans(s[i - 1], s[i], true),
    decreases k,
{
    if k > 1 {
        assert(ans(s[0], s[k], true) <==> (ans(s[0], s[k - 1], true) && ans(s[k - 1], s[k], true)));
        lemma_chain_from_head(s, ans, k - 1);
    }
}

/// In a consistently sorted sequence, an element accepted with the last one
/// is linked to it by accepted adjacent pairs.
pub proof fn lemma_chain_to_tail<T>(s: Seq<T>, ans: Answers<T>, b: int)
    requires
        consistent(s, ans),
        0 <= b < s.len() - 1,
        ans(s[b], s[s.len() - 1], true),
    ensures
        forall|i: int| b < i < s.len() ==> #[trigger] ans(s[i - 1], s[i], true),
    decreases s.len() - b,
{
    let n = s.len() as int;
    if b < n - 2 {
        assert(ans(s[b], s[n - 1], true) <==> (ans(s[b], s[b + 1], true) && ans(s[b + 1], s[n - 1], true)));
        lemma_chain_to_tail(s, ans, b + 1);
    }
}

/// In a consistently sorted sequence, with a single-valued predicate, a
/// search against the first element finds exactly the first run.
pub proof fn lemma_head_cut_exact<T>(s: Seq<T>, ans: Answers<T>, g: int)
    requires
        single_valued(ans),
        consistent(s, ans),
        head_cut(s, ans, g),
    ensures
        g == front_len(s, ans),
{
    if g > 1 {
        lemma_chain_from_head(s, ans, g - 1);
    }
    assert forall|j: int| 0 < j < g implies !#[trigger] is_break(s, ans, j) by {
        assert(ans(s[j - 1], s[j], true));
    }
    if g < s.len() {
        assert(!(ans(s[0], s[g], true) && ans(s[0], s[g], false)));
        if g > 1 {
            assert(ans(s[0], s[g], true) <==> (ans(s[0], s[g - 1], true) && ans(s[g - 1], s[g], true)));
        }
    }
    lemma_front_len_unique(s, ans, g);
}

/// In a consistently sorted sequence, with a single-valued predicate, a
/// search against the last element finds exactly the last run.
pub proof fn lemma_tail_cut_exact<T>(s: Seq<T>, ans: Answers<T>, b: int)
    requires
        single_valued(ans),
        consistent(s, ans),
        tail_cut(s, ans, b),
    ensures
        b == back_start(s, ans),
{
    let n = s.len() as int;
    if b < n - 1 {
        lemma_chain_to_tail(s, ans, b);
    }
    assert forall|j: int| b < j < n implies !#[trigger] is_break(s, ans, j) by {
        assert(ans(s[j - 1], s[j], true));
    }
    if b > 0 {
        assert(!(ans(s[b - 1], s[n - 1], true) && ans(s[b - 1], s[n - 1], false)));
        if b < n - 1 {
            assert(ans(s[b - 1], s[n - 1], true) <==> (ans(s[b - 1], s[b], true) && ans(s[b], s[n - 1], true)));
        }
    }
    lemma_back_start_unique(s, ans, b);
}

/// When the predicate against the first element accepts a prefix and refuses
/// the rest, a search against the first element has only one answer.
pub proof fn lemma_head_cut_unique<T>(s: Seq<T>, ans: Answers<T>, g1: int, g2: int)
    requires
        single_valued(ans),
        monotone_head(s, ans),
        head_cut(s, ans, g1),
        head_cut(s, ans, g2),
    ensures
        g1 == g2,
{
    if g1 < g2 {
        assert(!(ans(s[0], s[g1], true) && ans(s[0], s[g1], false)));
        assert(ans(s[0], s[g2 - 1], true));
    } else if g2 < g1 {
        assert(!(ans(s[0], s[g2], true) && ans(s[0], s[g2], false)));
        assert(ans(s[0], s[g1 - 1], true));
    }
}

/// When the predicate against the last element accepts a suffix and refuses
/// the rest, a search against the last element has only one answer.
pub proof fn lemma_tail_cut_unique<T>(s: Seq<T>, ans: Answers<T>, b1: int, b2: int)
    requires
        single_valued(ans),
        monotone_tail(s, ans),
        tail_cut(s, ans, b1),
        tail_cut(s, ans, b2),
    ensures
        b1 == b2,
{
    let n = s.len() as int;
    if b1 < b2 {
        assert(!(ans(s[b2 - 1], s[n - 1], true) && ans(s[b2 - 1], s[n - 1], false)));
        assert(ans(s[b1], s[n - 1], true));
    } else if b2 < b1 {
        assert(!(ans(s[b1 - 1], s[n - 1], true) && ans(s[b1 - 1], s[n - 1], false)));
        assert(ans(s[b2], s[n - 1], true));
    }
}

} // verus!
