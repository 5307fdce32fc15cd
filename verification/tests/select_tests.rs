use std::collections::HashMap;

use bpe_core::select::most_frequent_token;
use bpe_core::sequence::SequenceShard;

fn dict(entries: &[(u32, &[u8])]) -> HashMap<u32, Vec<u8>> {
    entries.iter().map(|(k, v)| (*k, v.to_vec())).collect()
}

#[test]
fn test_most_frequent_by_count() {
    let mut s = SequenceShard::new();
    s.push(&[1, 2, 1, 2], 1);
    s.push(&[2, 3], 1);
    let d = dict(&[(1, b"a"), (2, b"b"), (3, b"c")]);
    // (1, 2) occurs twice, (2, 1) and (2, 3) once each.
    assert_eq!(most_frequent_token(&d, &s), Some((1, 2)));
}

#[test]
fn test_most_frequent_ties_broken_by_bytes() {
    let mut s = SequenceShard::new();
    s.push(&[1, 2], 3);
    s.push(&[3, 1], 3);
    let d = dict(&[(1, b"b"), (2, b"a"), (3, b"c")]);
    // Both pairs occur 3 times; (b"c", b"b") is greater than (b"b", b"a").
    assert_eq!(most_frequent_token(&d, &s), Some((3, 1)));
}

#[test]
fn test_most_frequent_of_empty_shard() {
    let s = SequenceShard::new();
    let d = dict(&[(0, b"\0")]);
    assert_eq!(most_frequent_token(&d, &s), Some((0, 0)));
}

#[test]
fn test_most_frequent_tie_with_equal_bytes() {
    let mut s = SequenceShard::new();
    s.push(&[1, 3], 2);
    s.push(&[2, 3], 2);
    let d = dict(&[(1, b"x"), (2, b"x"), (3, b"y")]);
    assert_eq!(most_frequent_token(&d, &s), None);
}

#[test]
fn test_most_frequent_tie_below_top_is_fine() {
    let mut s = SequenceShard::new();
    s.push(&[1, 3], 2);
    s.push(&[2, 3], 2);
    s.push(&[4, 5], 7);
    let d = dict(&[(1, b"x"), (2, b"x"), (3, b"y"), (4, b"p"), (5, b"q")]);
    assert_eq!(most_frequent_token(&d, &s), Some((4, 5)));
}
