use std::cmp::Ordering::{Greater, Less};
use std::collections::HashMap;

use bpe_core::order::CountInfo;
use bpe_core::sequence::{SequenceCursor, SequenceShard};

/// Dump all pairs in a SequenceCursor
fn to_pairs(c: &mut SequenceCursor) -> Vec<(u32, u32)> {
    let mut ret = Vec::new();

    while !c.is_done() {
        ret.push(c.current_pair().expect("expect a valid pair when not done"));
        c.next();
    }

    ret
}

#[test]
pub fn test_basic_add() {
    let mut s = SequenceShard::new();

    s.push(&[1, 1, 1, 1], 2);
    let counts = s.counts();

    assert_eq!(counts.len(), 1);
    assert_eq!(
        *counts.first().unwrap(),
        CountInfo {
            token_pair: (1, 1),
            count: 6
        }
    );
}

#[test]
pub fn test_cursor_pair() {
    let mut s = SequenceShard::new();

    s.push(&[1, 1, 2, 3], 2);

    let mut c = s.cursor_mut(0);
    assert_eq!(to_pairs(&mut c), vec![(1, 1), (1, 2), (2, 3)]);
}

#[test]
pub fn test_two_sequences() {
    let mut s = SequenceShard::new();

    s.push(&[3, 1, 1, 2], 2);
    s.push(&[4, 1, 1, 5], 1);

    {
        let counts = s.counts();
        // [3, 1] = 2
        // [1, 1] = 2+1 = 3
        // [1, 2] = 2
        // [4, 1] = 1
        // [1, 5] = 1

        assert_eq!(counts.len(), 5);
        let one_one = counts
            .iter()
            .find(|ci| ci.token_pair == (1, 1))
            .expect("expected to find 1,1");
        assert_eq!(one_one.count, 3);
    }

    s.merge_pair((1, 1), 6);
    {
        let counts = s.counts();
        // [3, 6] = 2
        // [6, 2] = 2
        // [4, 6] = 1
        // [6, 5] = 1

        assert_eq!(counts.len(), 4);
        let three_six = counts
            .iter()
            .find(|ci| ci.token_pair == (3, 6))
            .expect("expected to find 3, 6");
        assert_eq!(three_six.count, 2);
    }
}

#[test]
pub fn test_merge_simpler() {
    let mut s = SequenceShard::new();

    s.push(&[3, 1, 1, 2], 2);
    s.merge_pair((1, 1), 4);

    let tokens = s.into_tokens();
    assert_eq!(tokens, vec![3, 4, 2]);
}

#[test]
pub fn test_merge_runs() {
    let mut s = SequenceShard::new();

    s.push(&[1, 1, 1, 1, 1], 2);

    // Greedy merge:
    // [1, 1, 1, 1, 1] -> [2, 1, 1, 1] -> [2, 2, 1]
    s.merge_pair((1, 1), 2);
    let counts = s.counts();

    let mut pairs_one_two_found = false;
    let mut pairs_two_founds = false;
    assert_eq!(counts.len(), 2);

    for count in counts {
        if count.token_pair == (2, 2) {
            assert_eq!(count.count, 2);
            pairs_two_founds = true;
        } else if count.token_pair == (2, 1) {
            assert_eq!(count.count, 2);
            pairs_one_two_found = true;
        } else {
            assert!(
                false,
                "Unexpected token pair ({}, {})",
                count.token_pair.0, count.token_pair.1
            );
        }
    }

    assert!(pairs_one_two_found, "Didn't find (2,1) pair");
    assert!(pairs_two_founds, "Didn't find (2,2) pair");
}

#[test]
fn test_compare_by_count() {
    let token_dict = HashMap::new();
    let c1 = CountInfo {
        token_pair: (1, 2),
        count: 5,
    };

    let c2 = CountInfo {
        token_pair: (3, 4),
        count: 4,
    };

    assert_eq!(c1.compare_to(&c2, &token_dict), Greater);
    assert_eq!(c2.compare_to(&c1, &token_dict), Less);
}

#[test]
fn test_compare_lexographically() {
    let mut token_dict = HashMap::new();
    token_dict.insert(1, b"ab".to_vec());
    token_dict.insert(2, b"c".to_vec());
    token_dict.insert(3, b"a".to_vec());
    token_dict.insert(4, b"bc".to_vec());

    let c1 = CountInfo {
        token_pair: (1, 2),
        count: 5,
    };

    let c2 = CountInfo {
        token_pair: (3, 4),
        count: 5,
    };

    // Pair A = (b"ab", b"c") and pair B = (b"a", b"bc") concatenate to the
    // same bytes, but compared as tuples A > B, since b"ab" > b"a".
    assert_eq!(c1.compare_to(&c2, &token_dict), Greater);
    assert_eq!(c2.compare_to(&c1, &token_dict), Less);
}

#[test]
fn test_cursor_merge_pair_moves_to_merged_token() {
    let mut s = SequenceShard::new();
    s.push(&[1, 2, 3, 4], 1);
    {
        let mut c = s.cursor_mut(0);
        assert_eq!(c.current_pair(), Some((1, 2)));
        c.merge_pair(5);
        assert_eq!(c.current_pair(), Some((5, 3)));
    }
    assert_eq!(s.into_tokens(), vec![5, 3, 4]);
}

#[test]
fn test_merge_pair_reports_whether_found() {
    let mut s = SequenceShard::new();
    s.push(&[1, 2, 1, 2], 3);
    assert!(!s.merge_pair((2, 2), 7));
    assert!(s.merge_pair((1, 2), 7));
    assert_eq!(s.pair_total((7, 7)), 3);
    assert_eq!(s.pair_total((1, 2)), 0);
    assert_eq!(s.into_tokens(), vec![7, 7]);
}

#[test]
fn test_pair_totals_and_drain_dirty() {
    let mut s = SequenceShard::new();
    s.push(&[1, 2, 3], 2);
    assert_eq!(s.pair_total((1, 2)), 2);
    assert_eq!(s.pair_total((2, 3)), 2);
    let mut dirty = s.drain_dirty();
    dirty.sort();
    assert_eq!(dirty, vec![((1, 2), 2), ((2, 3), 2)]);
    assert!(s.drain_dirty().is_empty());
    s.merge_pair((1, 2), 9);
    let mut dirty = s.drain_dirty();
    dirty.sort();
    assert_eq!(dirty, vec![((1, 2), 0), ((2, 3), 0), ((9, 3), 2)]);
}

#[test]
fn test_into_tokens_concatenates_sequences() {
    let mut s = SequenceShard::new();
    s.push(&[1, 2], 1);
    s.push(&[3], 4);
    s.push(&[4, 5, 6], 1);
    assert_eq!(s.into_tokens(), vec![1, 2, 3, 4, 5, 6]);
}

#[test]
fn test_compare_equal_candidates() {
    let mut token_dict = HashMap::new();
    token_dict.insert(1, b"a".to_vec());
    token_dict.insert(2, b"b".to_vec());
    token_dict.insert(3, b"a".to_vec());
    let c1 = CountInfo {
        token_pair: (1, 2),
        count: 5,
    };
    let c2 = CountInfo {
        token_pair: (3, 2),
        count: 5,
    };
    assert_eq!(c1.compare_to(&c2, &token_dict), std::cmp::Ordering::Equal);
}

#[test]
fn test_cursor_next_reports_whether_a_pair_is_left() {
    let mut s = SequenceShard::new();
    s.push(&[1, 2, 3], 1);
    let mut c = s.cursor_mut(0);
    assert_eq!(c.current_pair(), Some((1, 2)));
    assert!(c.next());
    assert_eq!(c.current_pair(), Some((2, 3)));
    assert!(!c.next());
    assert!(c.is_done());
    assert!(!c.next());
}

#[test]
fn test_merge_pair_marks_the_pairs_it_adjusts() {
    let mut s = SequenceShard::new();
    s.push(&[5, 1, 2, 1, 2, 6], 1);
    s.push(&[7, 8], 1);
    s.drain_dirty();
    assert!(s.merge_pair((1, 2), 9));
    let mut dirty = s.drain_dirty();
    dirty.sort();
    assert_eq!(
        dirty,
        vec![
            ((1, 2), 0),
            ((2, 1), 0),
            ((2, 6), 0),
            ((5, 1), 0),
            ((5, 9), 1),
            ((9, 1), 0),
            ((9, 6), 1),
            ((9, 9), 1),
        ]
    );
    assert_eq!(s.into_tokens(), vec![5, 9, 9, 6, 7, 8]);
}

#[test]
fn test_totals_fit_u32() {
    let mut s = SequenceShard::new();
    s.push(&[1, 1], u32::MAX);
    assert!(s.totals_fit_u32());
    s.push(&[1, 1], u32::MAX);
    assert!(!s.totals_fit_u32());
    assert_eq!(s.pair_total((1, 1)), 2 * u32::MAX as i64);
}
