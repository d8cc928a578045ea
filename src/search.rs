//! The three boundary searches, each from the front and from the back.
//!
//! Every search takes a non-empty window and returns an index inside it,
//! whatever the predicate answers; what the predicate answered on the way
//! fixes which index that is.
use vstd::prelude::*;
use crate::model::{answers, callable, head_cut, linear_back_cut, linear_front_cut, tail_cut};

verus! {

/// Length of the first run of `s`, scanning adjacent pairs from the front.
pub fn linear_front<T, P: Fn(&T, &T) -> bool>(s: &[T], p: &P) -> (g: usize)
    requires
        s@.len() > 0,
        callable(*p),
    ensures
        linear_front_cut(s@, answers(*p), g as int),
{
    let n = s.len();
    let mut i: usize = 1;
    while i < n
        invariant
            1 <= i <= n,
            n == s@.len(),
            callable(*p),
            forall|j: int| 0 < j < i ==> #[trigger] answers(*p)(s@[j - 1], s@[j], true),
        decreases n - i,
    {
        if !p(&s[i - 1], &s[i]) {
            return i;
        }
        i += 1;
    }
    n
}

/// Start of the last run of `s`, scanning adjacent pairs from the back.
pub fn linear_back<T, P: Fn(&T, &T) -> bool>(s: &[T], p: &P) -> (b: usize)
    requires
        s@.len() > 0,
        callable(*p),
    ensures
        linear_back_cut(s@, answers(*p), b as int),
{
    let n = s.len();
    let mut i: usize = n - 1;
    while i > 0
        invariant
            0 <= i < n,
            n == s@.len(),
            callable(*p),
            forall|j: int| i < j < n ==> #[trigger] answers(*p)(s@[j - 1], s@[j], true),
        decreases i,
    {
        if !p(&s[i - 1], &s[i]) {
            return i;
        }
        i -= 1;
    }
    0
}

/// Partition point against the first element, inside a bracket whose ends
/// are already known: the element before `lo` was accepted (or is the first
/// element itself) and the element at `hi` was refused (or lies past the end).
fn partition_head<T, P: Fn(&T, &T) -> bool>(s: &[T], p: &P, from: usize, to: usize) -> (g: usize)
    requires
        1 <= from <= to <= s@.len(),
        callable(*p),
        from > 1 ==> answers(*p)(s@[0], s@[from - 1], true),
        to < s@.len() ==> answers(*p)(s@[0], s@[to as int], false),
    ensures
        from <= g <= to,
        head_cut(s@, answers(*p), g as int),
{
    let mut lo = from;
    let mut hi = to;
    while lo < hi
        invariant
            1 <= lo <= hi <= s@.len(),
            lo >= from,
            hi <= to,
            callable(*p),
            lo > 1 ==> answers(*p)(s@[0], s@[lo - 1], true),
            hi < s@.len() ==> answers(*p)(s@[0], s@[hi as int], false),
        decreases hi - lo,
    {
        let mid = lo + (hi - lo) / 2;
        if p(&s[0], &s[mid]) {
            lo = mid + 1;
        } else {
            hi = mid;
        }
    }
    lo
}

/// Partition point against the last element, inside a bracket whose ends are
/// already known: the element before `lo` was refused (or `lo` is 0) and the
/// element at `hi` was accepted (or is the last element itself).
fn partition_tail<T, P: Fn(&T, &T) -> bool>(s: &[T], p: &P, from: usize, to: usize) -> (b: usize)
    requires
        from <= to < s@.len(),
        callable(*p),
        from > 0 ==> answers(*p)(s@[from - 1], s@[s@.len() - 1], false),
        to < s@.len() - 1 ==> answers(*p)(s@[to as int], s@[s@.len() - 1], true),
    ensures
        from <= b <= to,
        tail_cut(s@, answers(*p), b as int),
{
    let last = s.len() - 1;
    let mut lo = from;
    let mut hi = to;
    while lo < hi
        invariant
            lo <= hi <= last,
            last == s@.len() - 1,
            lo >= from,
            hi <= to,
            callable(*p),
            lo > 0 ==> answers(*p)(s@[lo - 1], s@[last as int], false),
            hi < last ==> answers(*p)(s@[hi as int], s@[last as int], true),
        decreases hi - lo,
    {
        let mid = lo + (hi - lo) / 2;
        if p(&s[mid], &s[last]) {
            hi = mid;
        } else {
            lo = mid + 1;
        }
    }
    lo
}

/// Length of the first run of `s` by binary search against its first element.
pub fn binary_front<T, P: Fn(&T, &T) -> bool>(s: &[T], p: &P) -> (g: usize)
    requires
        s@.len() > 0,
        callable(*p),
    ensures
        head_cut(s@, answers(*p), g as int),
{
    partition_head(s, p, 1, s.len())
}

/// Start of the last run of `s` by binary search against its last element.
pub fn binary_back<T, P: Fn(&T, &T) -> bool>(s: &[T], p: &P) -> (b: usize)
    requires
        s@.len() > 0,
        callable(*p),
    ensures
        tail_cut(s@, answers(*p), b as int),
{
    partition_tail(s, p, 0, s.len() - 1)
}

/// Length of the first run of `s` by galloping: probe the elements at
/// offsets 1, 2, 4, ... against the first one until one is refused, then
/// search between the last accepted probe and the refused one.
pub fn exponential_front<T, P: Fn(&T, &T) -> bool>(s: &[T], p: &P) -> (g: usize)
    requires
        s@.len() > 0,
        callable(*p),
    ensures
        head_cut(s@, answers(*p), g as int),
{
    let n = s.len();
    let mut lo: usize = 1;
    let mut hi: usize = n;
    let mut probe: usize = 1;
    while probe < hi
        invariant
            1 <= lo <= probe <= hi <= n,
            n == s@.len(),
            hi < n ==> probe == hi,
            callable(*p),
            lo > 1 ==> answers(*p)(s@[0], s@[lo - 1], true),
            hi < n ==> answers(*p)(s@[0], s@[hi as int], false),
        decreases hi - probe,
    {
        if p(&s[0], &s[probe]) {
            lo = probe + 1;
            if probe >= n - probe {
                probe = n;
            } else {
                probe = probe * 2;
            }
        } else {
            hi = probe;
        }
    }
    partition_head(s, p, lo, hi)
}

/// Start of the last run of `s` by galloping from the back: probe the
/// elements at distances 1, 2, 4, ... before the last one, then search
/// between the last accepted probe and the refused one.
pub fn exponential_back<T, P: Fn(&T, &T) -> bool>(s: &[T], p: &P) -> (b: usize)
    requires
        s@.len() > 0,
        callable(*p),
    ensures
        tail_cut(s@, answers(*p), b as int),
{
    let n = s.len();
    let last = n - 1;
    let mut near: usize = 1;
    let mut far: usize = n;
    let mut dist: usize = 1;
    while dist < far
        invariant
            1 <= near <= dist <= far <= n,
            n == s@.len(),
            last == n - 1,
            far < n ==> dist == far,
            callable(*p),
            near > 1 ==> answers(*p)(s@[n - near], s@[last as int], true),
            far < n ==> answers(*p)(s@[n - 1 - far], s@[last as int], false),
        decreases far - dist,
    {
        if p(&s[last - dist], &s[last]) {
            near = dist + 1;
            if dist >= n - dist {
                dist = n;
            } else {
                dist = dist * 2;
            }
        } else {
            far = dist;
        }
    }
    partition_tail(s, p, n - far, n - near)
}

} // verus!
