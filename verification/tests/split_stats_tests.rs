use hedgecut::split_stats::{
    gini_impurity, gini_with_impurity_before, SplitStats, SCORE_SCALE,
};

#[test]
fn new_stats_are_unscored() {
    let stats = SplitStats::new(8, 6, 12, 2);
    assert_eq!(stats.num_plus_left, 8);
    assert_eq!(stats.num_minus_left, 6);
    assert_eq!(stats.num_plus_right, 12);
    assert_eq!(stats.num_minus_right, 2);
    assert_eq!(stats.impurity_left, 0);
    assert_eq!(stats.impurity_right, 0);
    assert_eq!(stats.score, None);
    assert!(!stats.has_positive_score());
}

#[test]
fn impurity_of_an_even_mix_is_one_half() {
    assert_eq!(gini_impurity(1, 2), 500_000_000_000);
    assert_eq!(gini_impurity(50, 100), SCORE_SCALE / 2);
}

#[test]
fn impurity_is_rounded_down() {
    assert_eq!(gini_impurity(1, 3), 444_444_444_444);
    assert_eq!(gini_impurity(8, 14), 489_795_918_367);
    assert_eq!(gini_impurity(12, 14), 244_897_959_183);
    assert_eq!(gini_impurity(20, 28), 408_163_265_306);
}

#[test]
fn impurity_of_a_pure_or_empty_set_is_zero() {
    assert_eq!(gini_impurity(0, 10), 0);
    assert_eq!(gini_impurity(10, 10), 0);
    assert_eq!(gini_impurity(0, 0), 0);
}

#[test]
fn impurity_is_the_same_for_either_label() {
    assert_eq!(gini_impurity(3, 10), gini_impurity(7, 10));
}

#[test]
fn score_against_the_impurity_of_all_samples() {
    let mut stats = SplitStats::new(8, 6, 12, 2);
    stats.update_score_and_impurity_before();
    assert_eq!(stats.score, Some(40_816_326_530));
    assert_eq!(stats.impurity_left, 489_795_918_367);
    assert_eq!(stats.impurity_right, 244_897_959_183);
    assert!(stats.has_positive_score());
}

#[test]
fn score_against_a_given_impurity() {
    let mut stats = SplitStats::new(8, 6, 12, 2);
    stats.update_score(500_000_000_000);
    assert_eq!(stats.score, Some(132_653_061_224));
    let mut other = SplitStats::new(3, 1, 1, 3);
    other.update_score(500_000_000_000);
    assert_eq!(other.score, Some(125_000_000_000));
    assert_eq!(other.impurity_left, 375_000_000_000);
    assert_eq!(other.impurity_right, 375_000_000_000);
}

#[test]
fn a_perfect_split_scores_one_half() {
    let mut stats = SplitStats::new(5, 0, 0, 5);
    stats.update_score_and_impurity_before();
    assert_eq!(stats.score, Some(500_000_000_000));
    assert_eq!(stats.impurity_left, 0);
    assert_eq!(stats.impurity_right, 0);
}

#[test]
fn a_split_that_tells_nothing_scores_zero() {
    let mut stats = SplitStats::new(10, 3, 10, 3);
    stats.update_score_and_impurity_before();
    assert_eq!(stats.score, Some(0));
    assert!(!stats.has_positive_score());
}

#[test]
fn an_empty_side_leaves_the_score_undefined() {
    let mut left_empty = SplitStats::new(0, 0, 4, 5);
    left_empty.update_score_and_impurity_before();
    assert_eq!(left_empty.score, None);
    assert_eq!(left_empty.impurity_left, 0);
    assert_eq!(left_empty.impurity_right, 0);
    assert!(!left_empty.has_positive_score());

    let mut right_empty = SplitStats::new(4, 5, 0, 0);
    right_empty.update_score(300_000_000_000);
    assert_eq!(right_empty.score, None);
    assert!(!right_empty.has_positive_score());
}

#[test]
fn scoring_twice_changes_nothing() {
    let mut once = SplitStats::new(7, 5, 13, 3);
    once.update_score_and_impurity_before();
    let mut twice = once;
    twice.update_score_and_impurity_before();
    assert_eq!(once.score, twice.score);
    assert_eq!(once.score, Some(25_722_789_114));
    assert_eq!(once.impurity_left, twice.impurity_left);
    assert_eq!(once.impurity_right, twice.impurity_right);

    let mut stale = SplitStats::new(7, 5, 13, 3);
    stale.score = Some(-5);
    stale.impurity_left = 17;
    stale.update_score_and_impurity_before();
    assert_eq!(stale.score, once.score);
    assert_eq!(stale.impurity_left, once.impurity_left);
}

#[test]
fn scaling_all_counts_keeps_the_score() {
    let mut small = SplitStats::new(7, 5, 13, 3);
    small.update_score_and_impurity_before();
    let mut large = SplitStats::new(70, 50, 130, 30);
    large.update_score_and_impurity_before();
    assert_eq!(small.score, large.score);
}

#[test]
fn counts_of_the_full_width_are_scored() {
    let mut stats = SplitStats::new(u32::MAX, u32::MAX, u32::MAX, u32::MAX);
    stats.update_score_and_impurity_before();
    assert_eq!(stats.score, Some(0));
    assert_eq!(stats.impurity_left, 500_000_000_000);
}

#[test]
fn scores_from_counts() {
    let (score, left, right) = gini_with_impurity_before(8, 6, 12, 2);
    assert_eq!(score, Some(40_816_326_530));
    assert_eq!(left, 489_795_918_367);
    assert_eq!(right, 244_897_959_183);
    assert_eq!(gini_with_impurity_before(0, 0, 3, 4), (None, 0, 0));
}

#[test]
fn buckets_are_counted_and_emptied() {
    let stats = SplitStats::new(8, 6, 12, 2);
    assert_eq!(stats.count_in(true, true), 8);
    assert_eq!(stats.count_in(false, true), 6);
    assert_eq!(stats.count_in(true, false), 12);
    assert_eq!(stats.count_in(false, false), 2);

    let rest = stats.remove_and_rescore(false, false, 2).unwrap();
    assert_eq!(rest.num_minus_right, 0);
    assert_eq!(rest.num_plus_right, 12);
    assert!(rest.score.is_some());
    assert!(stats.remove_and_rescore(false, false, 3).is_none());

    let rest = stats.remove_and_rescore(true, true, 1).unwrap();
    assert_eq!(rest.num_plus_left, 7);
    let mut expected = SplitStats::new(7, 6, 12, 2);
    expected.update_score_and_impurity_before();
    assert_eq!(rest.score, expected.score);
}

#[test]
fn a_split_that_gains_nothing_scores_nought() {
    for counts in [(1u32, 1u32, 2u32, 2u32), (2, 5, 4, 10), (3, 4, 6, 8), (5, 2, 10, 4), (10, 3, 10, 3), (7, 7, 1, 1)] {
        let mut stats = SplitStats::new(counts.0, counts.1, counts.2, counts.3);
        stats.update_score_and_impurity_before();
        assert_eq!(stats.score, Some(0));
        assert!(!stats.has_positive_score());
        let (score, _, _) = gini_with_impurity_before(counts.0, counts.1, counts.2, counts.3);
        assert_eq!(score, Some(0));
        let before = gini_impurity(counts.0 + counts.2, counts.0 + counts.1 + counts.2 + counts.3);
        let mut other = SplitStats::new(counts.0, counts.1, counts.2, counts.3);
        other.update_score(before);
        assert_eq!(other.score, Some(0));
    }
}

#[test]
fn a_score_is_never_above_the_exact_gain() {
    let mut state: u64 = 31;
    let mut next = |bound: u32| -> i128 {
        state = state.wrapping_mul(6364136223846793005).wrapping_add(1442695040888963407);
        ((state >> 33) % (bound as u64 + 1)) as i128
    };
    let scale = SCORE_SCALE as i128;
    let mut just_below = 0;
    for _ in 0..2000 {
        let (a, b, c, d) = (next(40), next(40), next(40), next(40));
        let mut stats = SplitStats::new(a as u32, b as u32, c as u32, d as u32);
        stats.update_score_and_impurity_before();
        if a + b == 0 || c + d == 0 {
            assert_eq!(stats.score, None);
            continue;
        }
        let score = stats.score.unwrap() as i128;
        let cross = a * d - c * b;
        let numerator = 2 * cross * cross * scale;
        let denominator = (a + b + c + d) * (a + b + c + d) * (a + b) * (c + d);
        // The exact gain is twice the square of the difference of the
        // cross products over the square of the number of samples and
        // the sizes of the two sides.
        assert!(score * denominator <= numerator);
        assert!((score + 3) * denominator > numerator);
        assert_eq!(score > 0, stats.has_positive_score());
        if stats.has_positive_score() {
            assert!(cross != 0);
        }
        if score * denominator < numerator {
            just_below += 1;
        }
    }
    assert!(just_below > 0);
}
