use hedgecut::robustness::{exhaustive, h2, heuristic, is_robust, is_robust2, ranks_above};
use hedgecut::split_stats::SplitStats;

fn scored(num_plus_left: u32, num_minus_left: u32, num_plus_right: u32, num_minus_right: u32) -> SplitStats {
    let mut stats = SplitStats::new(num_plus_left, num_minus_left, num_plus_right, num_minus_right);
    stats.update_score_and_impurity_before();
    stats
}

fn score_diff(pair: &(SplitStats, SplitStats)) -> i64 {
    pair.0.score.unwrap() - pair.1.score.unwrap()
}

/// All pairs that one removal leads to and on which both splits have a score.
fn removals(pair: &(SplitStats, SplitStats)) -> Vec<(SplitStats, SplitStats)> {
    let mut found = Vec::new();
    for is_plus in [true, false] {
        for champion_left in [true, false] {
            for runnerup_left in [true, false] {
                let champion = pair.0.remove_and_rescore(is_plus, champion_left, 1);
                let runnerup = pair.1.remove_and_rescore(is_plus, runnerup_left, 1);
                if let (Some(champion), Some(runnerup)) = (champion, runnerup) {
                    if champion.score.is_some() && runnerup.score.is_some() {
                        found.push((champion, runnerup));
                    }
                }
            }
        }
    }
    found
}

/// The least number of removals, up to `budget`, after which the runner-up
/// outscores the champion.
fn first_overturn(champion: &SplitStats, runnerup: &SplitStats, budget: usize) -> Option<usize> {
    let mut level = vec![(*champion, *runnerup)];
    if score_diff(&level[0]) < 0 {
        return Some(0);
    }
    for depth in 1..=budget {
        let mut next = Vec::new();
        for pair in &level {
            for reached in removals(pair) {
                if score_diff(&reached) < 0 {
                    return Some(depth);
                }
                next.push(reached);
            }
        }
        level = next;
    }
    None
}

#[test]
fn champion_is_overturned_in_the_third_round() {
    let s = scored(8, 6, 12, 2);
    let t = scored(10, 3, 10, 3);
    assert_eq!(is_robust(&s, &t, 3), (false, 3));
    assert_eq!(is_robust2(&s, &t, 3, false), (false, 3, -17_862_515_556));
}

#[test]
fn champion_is_overturned_in_the_second_round() {
    let s = scored(7, 5, 13, 3);
    let t = scored(10, 3, 10, 3);
    assert_eq!(is_robust(&s, &t, 3), (false, 2));
    assert_eq!(is_robust2(&s, &t, 3, false), (false, 2, -3_721_385_452));
}

#[test]
fn champion_holds_while_the_budget_is_small() {
    let s = scored(8, 6, 12, 2);
    let t = scored(10, 3, 10, 3);
    assert_eq!(is_robust2(&s, &t, 0, false), (true, 0, 40_816_326_530));
    assert_eq!(is_robust2(&s, &t, 2, false), (true, 2, 8_320_739_089));
    assert_eq!(is_robust(&s, &t, 1), (true, 1));
}

#[test]
fn champion_on_many_samples_holds() {
    let s = scored(70, 50, 130, 30);
    let t = scored(100, 30, 100, 30);
    assert_eq!(is_robust2(&s, &t, 4, false), (true, 4, 20_997_868_335));
}

#[test]
fn a_champion_behind_from_the_start_has_lost_at_once() {
    let s = scored(10, 3, 10, 3);
    let t = scored(8, 6, 12, 2);
    assert_eq!(is_robust2(&s, &t, 5, false), (false, 0, -40_816_326_530));
    assert_eq!(is_robust(&s, &t, 0), (false, 0));
}

#[test]
fn robust_under_a_budget_is_robust_under_every_smaller_one() {
    let pairs = [
        (scored(70, 50, 130, 30), scored(100, 30, 100, 30)),
        (scored(8, 6, 12, 2), scored(10, 3, 10, 3)),
        (scored(7, 5, 13, 3), scored(10, 3, 10, 3)),
        (scored(3, 5, 33, 16), scored(33, 18, 3, 3)),
        (scored(20, 4, 5, 21), scored(15, 9, 10, 16)),
    ];
    let mut held = 0;
    for (s, t) in pairs.iter() {
        for budget in 0..6 {
            let (robust, rounds) = is_robust(s, t, budget);
            assert!(rounds <= budget);
            if robust {
                held += 1;
                for smaller in 0..budget {
                    assert!(is_robust(s, t, smaller).0);
                }
            }
            let (found_none, searched, _) = is_robust2(s, t, budget, false);
            assert_eq!(searched, rounds);
            if found_none {
                for smaller in 0..budget {
                    assert!(is_robust2(s, t, smaller, false).0);
                }
            }
        }
    }
    assert!(held > 0);
}

#[test]
fn a_count_within_the_budget_rules_out_a_robust_split() {
    // One count is nought: the champion is not robust, whatever the search finds.
    let s = scored(3, 0, 1, 3);
    assert_eq!(is_robust2(&s, &s, 0, false).0, true);
    assert_eq!(is_robust(&s, &s, 0), (false, 0));

    // Two counts of either split equal the budget.
    let s = scored(10, 2, 2, 10);
    let t = scored(7, 5, 5, 7);
    assert!(!h2(&s, &t, 2));
    let (found_none, rounds, _) = is_robust2(&s, &t, 2, false);
    assert_eq!(is_robust(&s, &t, 2), (false, rounds));
    assert!(found_none);
    assert_eq!(rounds, 2);
    assert!(h2(&s, &t, 1));
    assert_eq!(is_robust(&s, &t, 1), (true, 1));
}

#[test]
fn a_smaller_budget_may_fail_the_bulk_test() {
    // Statistics of two different sets of samples: the champion withstands
    // three removals, yet two samples taken at once out of one bucket
    // overturn it.
    let s = scored(7, 4, 5, 4);
    let t = scored(19, 49, 18, 48);
    assert_eq!(s.score, Some(3_232_323_231));
    assert_eq!(t.score, Some(22_336_238));
    assert_eq!(is_robust(&s, &t, 3), (true, 1));
    assert!(h2(&s, &t, 2));
    assert!(!heuristic(&s, &t, 2).0);
    assert_eq!(is_robust2(&s, &t, 2, false), (true, 1, 4_046_240));
    assert_eq!(is_robust(&s, &t, 2), (false, 1));
    assert_eq!(is_robust(&s, &t, 1), (true, 1));
    assert_eq!(is_robust(&s, &t, 0), (true, 0));
}

#[test]
fn a_robust_split_passes_both_quick_tests_and_the_search() {
    let mut state: u64 = 4242;
    let mut next = |bound: u32| -> u32 {
        state = state.wrapping_mul(6364136223846793005).wrapping_add(1442695040888963407);
        ((state >> 33) % (bound as u64 + 1)) as u32
    };
    let mut robust = 0;
    let mut stopped_by_a_quick_test = 0;
    for _ in 0..300 {
        let budget = next(3) as usize;
        let num_plus = 8 + next(20);
        let num_minus = 8 + next(20);
        let s_plus_left = 1 + next(num_plus - 2);
        let s_minus_left = 1 + next(num_minus - 2);
        let t_plus_left = 1 + next(num_plus - 2);
        let t_minus_left = 1 + next(num_minus - 2);
        let s = scored(s_plus_left, s_minus_left, num_plus - s_plus_left, num_minus - s_minus_left);
        let t = scored(t_plus_left, t_minus_left, num_plus - t_plus_left, num_minus - t_minus_left);
        let (s, t) = if s.score >= t.score { (s, t) } else { (t, s) };
        let (found_none, rounds, _) = is_robust2(&s, &t, budget, false);
        let passes = h2(&s, &t, budget as u32) && heuristic(&s, &t, budget as u32).0;
        assert_eq!(is_robust(&s, &t, budget), (passes && found_none, rounds));
        if passes && found_none {
            robust += 1;
            for smaller in 0..budget {
                assert!(is_robust(&s, &t, smaller).0);
            }
        }
        if !passes && found_none {
            stopped_by_a_quick_test += 1;
        }
    }
    assert!(robust > 0);
    assert!(stopped_by_a_quick_test > 0);
}

#[test]
fn a_lost_rank_is_reached_by_as_many_removals_as_rounds() {
    let pairs = [
        (scored(8, 6, 12, 2), scored(10, 3, 10, 3)),
        (scored(7, 5, 13, 3), scored(10, 3, 10, 3)),
        (scored(12, 2, 8, 6), scored(10, 3, 10, 3)),
        (scored(20, 4, 5, 21), scored(15, 9, 10, 16)),
        (scored(6, 2, 3, 7), scored(5, 3, 4, 6)),
    ];
    for (s, t) in pairs.iter() {
        for budget in 0..4 {
            let (robust, rounds, _) = is_robust2(s, t, budget, false);
            if !robust {
                let overturn = exhaustive(s, t, rounds);
                assert!(overturn.is_some());
                assert!(overturn.unwrap() <= rounds);
            }
        }
    }
}

#[test]
fn the_search_may_miss_an_overturn() {
    let s = scored(3, 5, 33, 16);
    let t = scored(33, 18, 3, 3);
    assert_eq!(is_robust2(&s, &t, 2, false), (true, 2, 0));
    assert_eq!(exhaustive(&s, &t, 2), Some(2));
    assert_eq!(exhaustive(&s, &t, 1), None);
    assert_eq!(first_overturn(&s, &t, 2), Some(2));
}

#[test]
fn every_sequence_of_removals_is_tried() {
    let pairs = [
        (scored(8, 6, 12, 2), scored(10, 3, 10, 3)),
        (scored(7, 5, 13, 3), scored(10, 3, 10, 3)),
        (scored(70, 50, 130, 30), scored(100, 30, 100, 30)),
        (scored(10, 3, 10, 3), scored(8, 6, 12, 2)),
        (scored(2, 2, 1, 1), scored(1, 1, 2, 2)),
        (scored(6, 2, 3, 7), scored(5, 3, 4, 6)),
    ];
    for (s, t) in pairs.iter() {
        for budget in 0..4 {
            assert_eq!(exhaustive(s, t, budget), first_overturn(s, t, budget));
        }
    }
    assert_eq!(exhaustive(&pairs[0].0, &pairs[0].1, 3), Some(3));
    assert_eq!(exhaustive(&pairs[1].0, &pairs[1].1, 3), Some(2));
    assert_eq!(exhaustive(&pairs[2].0, &pairs[2].1, 3), None);
    assert_eq!(exhaustive(&pairs[3].0, &pairs[3].1, 3), Some(0));
}

#[test]
fn a_runnerup_with_one_label_on_each_side_is_not_weakened() {
    let s = scored(3, 1, 1, 3);
    let t = scored(4, 0, 0, 4);
    let (robust, rounds, lowest) = is_robust2(&s, &t, 4, false);
    assert!(!robust);
    assert_eq!(rounds, 0);
    assert_eq!(lowest, 125_000_000_000 - 500_000_000_000);

    let s = scored(4, 0, 0, 4);
    let t = scored(3, 0, 0, 5);
    assert_eq!(s.score, Some(500_000_000_000));
    assert_eq!(t.score, Some(468_750_000_000));
    assert_eq!(is_robust2(&s, &t, 4, false), (true, 0, 31_250_000_000));
}

#[test]
fn all_counts_must_exceed_the_budget() {
    let s = scored(8, 6, 12, 2);
    let t = scored(10, 3, 10, 3);
    assert!(h2(&s, &t, 1));
    assert!(!h2(&s, &t, 2));
    assert!(!h2(&s, &t, 3));
    assert!(h2(&scored(70, 50, 130, 30), &scored(100, 30, 100, 30), 29));
    assert!(!h2(&scored(70, 50, 130, 30), &scored(100, 30, 100, 30), 30));
}

#[test]
fn bulk_removal_finds_an_overturn() {
    let s = scored(7, 5, 13, 3);
    let t = scored(10, 3, 10, 3);
    let (robust, pair) = heuristic(&s, &t, 2);
    assert!(!robust);
    let (s_rest, t_rest) = pair.unwrap();
    assert_eq!(
        (s_rest.num_plus_left, s_rest.num_minus_left, s_rest.num_plus_right, s_rest.num_minus_right),
        (7, 3, 13, 3)
    );
    assert_eq!(
        (t_rest.num_plus_left, t_rest.num_minus_left, t_rest.num_plus_right, t_rest.num_minus_right),
        (10, 3, 10, 1)
    );
    assert_eq!(s_rest.score, Some(5_991_124_259));
    assert_eq!(t_rest.score, Some(9_712_509_711));
}

#[test]
fn bulk_removal_finds_no_overturn() {
    let s = scored(70, 50, 130, 30);
    let t = scored(100, 30, 100, 30);
    let (robust, pair) = heuristic(&s, &t, 3);
    assert!(robust);
    assert!(pair.is_none());
}

#[test]
fn a_defined_score_ranks_above_an_undefined_one() {
    let defined = scored(10, 3, 10, 3);
    let undefined = scored(0, 0, 10, 3);
    let higher = scored(8, 6, 12, 2);
    assert!(ranks_above(&defined, &undefined));
    assert!(!ranks_above(&undefined, &defined));
    assert!(!ranks_above(&undefined, &undefined));
    assert!(ranks_above(&higher, &defined));
    assert!(!ranks_above(&defined, &higher));
    assert!(!ranks_above(&defined, &defined));
}

#[test]
fn the_search_is_exact_for_one_removal() {
    let mut state: u64 = 99;
    let mut next = |bound: u32| -> u32 {
        state = state.wrapping_mul(6364136223846793005).wrapping_add(1442695040888963407);
        ((state >> 33) % (bound as u64 + 1)) as u32
    };
    let mut robust = 0;
    let mut overturned = 0;
    for _ in 0..400 {
        let num_plus = 2 + next(20);
        let num_minus = 2 + next(20);
        let s_plus_left = 1 + next(num_plus - 2);
        let s_minus_left = 1 + next(num_minus - 2);
        let t_plus_left = 1 + next(num_plus - 2);
        let t_minus_left = 1 + next(num_minus - 2);
        let s = scored(s_plus_left, s_minus_left, num_plus - s_plus_left, num_minus - s_minus_left);
        let t = scored(t_plus_left, t_minus_left, num_plus - t_plus_left, num_minus - t_minus_left);
        let (s, t) = if s.score >= t.score { (s, t) } else { (t, s) };
        let (verdict, rounds, _) = is_robust2(&s, &t, 1, false);
        assert!(rounds <= 1);
        assert_eq!(verdict, first_overturn(&s, &t, 1).is_none());
        assert_eq!(is_robust(&s, &t, 1), (verdict && h2(&s, &t, 1) && heuristic(&s, &t, 1).0, rounds));
        if verdict {
            robust += 1;
        } else {
            overturned += 1;
        }
    }
    assert!(robust > 0);
    assert!(overturned > 0);
}

#[test]
fn counts_above_the_budget_outlast_the_removals() {
    let s = scored(5, 4, 6, 3);
    let t = scored(4, 3, 7, 4);
    assert!(h2(&s, &t, 2));
    let mut level = vec![(s, t)];
    for _ in 0..2 {
        let mut next_level = Vec::new();
        for pair in &level {
            for is_plus in [true, false] {
                for champion_left in [true, false] {
                    for runnerup_left in [true, false] {
                        let champion = pair.0.remove_and_rescore(is_plus, champion_left, 1).unwrap();
                        let runnerup = pair.1.remove_and_rescore(is_plus, runnerup_left, 1).unwrap();
                        assert!(h2(&champion, &runnerup, 0));
                        assert!(champion.score.is_some() && runnerup.score.is_some());
                        next_level.push((champion, runnerup));
                    }
                }
            }
        }
        level = next_level;
    }
    assert_eq!(level.len(), 64);
}
