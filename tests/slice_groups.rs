use slice_group_by::{
    BinaryGroupBy, BinaryGroupByMut, ExponentialGroupBy, ExponentialGroupByMut, GroupBy,
    GroupByMut, LinearGroupBy, LinearGroupByMut,
};

const SAMPLE: [i32; 8] = [1, 1, 1, 3, 3, 2, 2, 2];

#[test]
fn linear_forward_sample() {
    let mut iter = LinearGroupBy::new(&SAMPLE[..], |a: &i32, b: &i32| a == b);
    assert_eq!(iter.next(), Some(&[1, 1, 1][..]));
    assert_eq!(iter.next(), Some(&[3, 3][..]));
    assert_eq!(iter.next(), Some(&[2, 2, 2][..]));
    assert_eq!(iter.next(), None);
}

#[test]
fn linear_backward_sample() {
    let mut iter = LinearGroupBy::new(&SAMPLE[..], |a: &i32, b: &i32| a == b);
    assert_eq!(iter.next_back(), Some(&[2, 2, 2][..]));
    assert_eq!(iter.next_back(), Some(&[3, 3][..]));
    assert_eq!(iter.next_back(), Some(&[1, 1, 1][..]));
    assert_eq!(iter.next_back(), None);
}

#[test]
fn empty_slice_yields_nothing() {
    let empty: [i32; 0] = [];
    assert_eq!(LinearGroupBy::new(&empty[..], |a: &i32, b: &i32| a == b).next(), None);
    assert_eq!(BinaryGroupBy::new(&empty[..], |a: &i32, b: &i32| a == b).next(), None);
    assert_eq!(ExponentialGroupBy::new(&empty[..], |a: &i32, b: &i32| a == b).next_back(), None);
}

#[test]
fn single_element() {
    let one = [1];
    let mut iter = LinearGroupBy::new(&one[..], |a: &i32, b: &i32| a == b);
    assert_eq!(iter.next(), Some(&[1][..]));
    assert_eq!(iter.next(), None);
    let mut iter = ExponentialGroupBy::new(&one[..], |a: &i32, b: &i32| a == b);
    assert_eq!(iter.next(), Some(&[1][..]));
    assert_eq!(iter.next(), None);
}

#[test]
fn exhausted_stays_exhausted() {
    let mut iter = BinaryGroupBy::new(&SAMPLE[..2], |a: &i32, b: &i32| a == b);
    assert_eq!(iter.next(), Some(&[1, 1][..]));
    for _ in 0..3 {
        assert_eq!(iter.next(), None);
        assert_eq!(iter.next_back(), None);
    }
    assert_eq!(iter.remainder(), &[][..]);
}

fn collect_forward<'a>(mut next: impl FnMut() -> Option<&'a [i32]>) -> Vec<Vec<i32>> {
    let mut out = Vec::new();
    while let Some(g) = next() {
        out.push(g.to_vec());
    }
    out
}

#[test]
fn strategies_agree_on_sorted_data() {
    let sorted = [0, 1, 1, 2, 2, 2, 3, 4, 4, 4, 4, 4, 4, 4, 4, 4, 5, 7, 7];
    let eq = |a: &i32, b: &i32| a == b;
    let mut lin = LinearGroupBy::new(&sorted[..], eq);
    let mut bin = BinaryGroupBy::new(&sorted[..], eq);
    let mut exp = ExponentialGroupBy::new(&sorted[..], eq);
    let l = collect_forward(|| lin.next());
    let b = collect_forward(|| bin.next());
    let e = collect_forward(|| exp.next());
    assert_eq!(l, b);
    assert_eq!(l, e);
    assert_eq!(l.len(), 7);
    assert_eq!(l[4], vec![4; 9]);
    let mut bin = BinaryGroupBy::new(&sorted[..], eq);
    let mut exp = ExponentialGroupBy::new(&sorted[..], eq);
    let mut bb = collect_forward(|| bin.next_back());
    let mut eb = collect_forward(|| exp.next_back());
    bb.reverse();
    eb.reverse();
    assert_eq!(l, bb);
    assert_eq!(l, eb);
}

#[test]
fn interleaved_consumption_meets_every_run() {
    let mut iter = LinearGroupBy::new(&SAMPLE[..], |a: &i32, b: &i32| a == b);
    assert_eq!(iter.next_back(), Some(&[2, 2, 2][..]));
    assert_eq!(iter.next(), Some(&[1, 1, 1][..]));
    assert_eq!(iter.remainder(), &[3, 3][..]);
    assert_eq!(iter.next_back(), Some(&[3, 3][..]));
    assert_eq!(iter.next(), None);
    assert_eq!(iter.next_back(), None);
}

#[test]
fn concatenated_runs_rebuild_the_slice() {
    let data = [5, 5, 6, 1, 1, 1, 9, 9, 2];
    let mut iter = ExponentialGroupBy::new(&data[..], |a: &i32, b: &i32| a <= b);
    let mut rebuilt = Vec::new();
    while let Some(g) = iter.next() {
        assert!(!g.is_empty());
        rebuilt.extend_from_slice(g);
    }
    assert_eq!(rebuilt, data.to_vec());
}

#[test]
fn non_adjacent_predicate_with_linear_search() {
    let data = [1, 2, 3, 2, 3, 4, 1];
    let mut iter = LinearGroupBy::new(&data[..], |a: &i32, b: &i32| a < b);
    assert_eq!(iter.next(), Some(&[1, 2, 3][..]));
    assert_eq!(iter.next(), Some(&[2, 3, 4][..]));
    assert_eq!(iter.next(), Some(&[1][..]));
    assert_eq!(iter.next(), None);
}

#[test]
fn mutable_runs_are_disjoint() {
    let mut data = SAMPLE;
    {
        let mut iter = LinearGroupByMut::new(&mut data[..], |a: &i32, b: &i32| a == b);
        let first = iter.next().unwrap();
        let last = iter.next_back().unwrap();
        first[0] = 10;
        last[2] = 20;
        assert_eq!(iter.remainder(), &[3, 3][..]);
        iter.remainder_mut()[0] = 30;
        iter.remainder_mut()[1] = 30;
        let middle = iter.next().unwrap();
        assert_eq!(middle, &mut [30, 30][..]);
        middle[0] = 40;
        assert_eq!(first, &mut [10, 1, 1][..]);
        assert!(iter.next().is_none());
    }
    assert_eq!(data, [10, 1, 1, 40, 30, 2, 2, 20]);
}

#[test]
fn mutable_binary_and_exponential() {
    let mut data = [1, 1, 1, 2, 2, 2, 3, 3];
    let mut iter = BinaryGroupByMut::new(&mut data[..], |a: &i32, b: &i32| a == b);
    assert_eq!(iter.next(), Some(&mut [1, 1, 1][..]));
    assert_eq!(iter.next(), Some(&mut [2, 2, 2][..]));
    assert_eq!(iter.next(), Some(&mut [3, 3][..]));
    assert_eq!(iter.next(), None);

    let mut iter = ExponentialGroupByMut::new(&mut data[..], |a: &i32, b: &i32| a == b);
    assert_eq!(iter.next_back(), Some(&mut [3, 3][..]));
    assert_eq!(iter.next_back(), Some(&mut [2, 2, 2][..]));
    assert_eq!(iter.next_back(), Some(&mut [1, 1, 1][..]));
    assert_eq!(iter.next_back(), None);
}

#[test]
fn builder_traits() {
    let slice = &SAMPLE[..];
    let mut iter = slice.linear_group_by(|a: &i32, b: &i32| a == b);
    assert_eq!(iter.next(), Some(&[1, 1, 1][..]));
    let mut sorted = [1, 1, 2, 3, 3];
    let mut iter = (&mut sorted[..]).exponential_group_by_mut(|a: &i32, b: &i32| a == b);
    assert_eq!(iter.next(), Some(&mut [1, 1][..]));
    assert_eq!(iter.next(), Some(&mut [2][..]));
    let mut iter = (&sorted[..]).binary_group_by(|a: &i32, b: &i32| a == b);
    assert_eq!(iter.next_back(), Some(&[3, 3][..]));
}
