use slice_group_by::{LinearStrGroup, LinearStrGroupBy, LinearStrGroupByMut, LinearStrGroupMut};

#[test]
fn text_interleaved() {
    let mut iter = LinearStrGroup::new("xxyyyzz");
    assert_eq!(iter.next_back(), Some("zz"));
    assert_eq!(iter.as_str(), "xxyyy");
    assert_eq!(iter.next(), Some("xx"));
    assert_eq!(iter.next_back(), Some("yyy"));
    assert_eq!(iter.next(), None);
    assert_eq!(iter.next_back(), None);
}

#[test]
fn text_empty() {
    assert_eq!(LinearStrGroup::new("").next(), None);
    assert_eq!(LinearStrGroupBy::new("", |a: char, b: char| a == b).next_back(), None);
}

#[test]
fn text_multibyte_boundaries() {
    let text = "ééaa€€€😀😀b";
    let mut iter = LinearStrGroup::new(text);
    let mut parts = Vec::new();
    while let Some(g) = iter.next() {
        parts.push(g);
    }
    assert_eq!(parts, vec!["éé", "aa", "€€€", "😀😀", "b"]);
    assert_eq!(parts.concat(), text);
    let mut iter = LinearStrGroup::new(text);
    assert_eq!(iter.next_back(), Some("b"));
    assert_eq!(iter.next_back(), Some("😀😀"));
    assert_eq!(iter.next_back(), Some("€€€"));
}

#[test]
fn text_mutable_runs() {
    let mut text = String::from("aAbB");
    {
        let mut iter = LinearStrGroupByMut::new(text.as_mut_str(), |a: char, b: char| {
            a.to_ascii_lowercase() == b.to_ascii_lowercase()
        });
        let first = iter.next().unwrap();
        first.make_ascii_uppercase();
        assert_eq!(iter.as_str(), "bB");
        iter.as_str_mut().make_ascii_lowercase();
        assert_eq!(iter.next_back().map(|s| &*s), Some("bb"));
        assert!(iter.next().is_none());
    }
    assert_eq!(text, "AAbb");
    let mut other = String::from("qqr");
    let mut iter = LinearStrGroupMut::new(&mut other);
    assert_eq!(iter.as_str(), "qqr");
    assert_eq!(iter.next_back().map(|s| &*s), Some("r"));
    assert_eq!(iter.as_str_mut(), "qq");
}
