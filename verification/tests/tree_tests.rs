use hedgecut::dataset::{Dataset, GiveMeSomeCreditDataset, GiveMeSomeCreditSample, Sample, TitanicDataset, TitanicSample};
use hedgecut::evaluation::node_count;
use hedgecut::champion::{best_candidate, has_overturning_rival, holds_against, next_step, non_robust_rivals, Step};
use hedgecut::robustness::{exhaustive, h2, heuristic, is_robust, is_robust2};
use hedgecut::split_stats::SplitStats;
use hedgecut::tree::{AlternativeTree, ForgetError, Split, Tree, TreeElement};
use hedgecut::utils::as_bytes;

struct Numbers {
    state: u64,
}

impl Numbers {
    fn next(&mut self, bound: u8) -> u8 {
        self.state = self.state.wrapping_mul(6364136223846793005).wrapping_add(1442695040888963407);
        ((self.state >> 33) % (bound as u64 + 1)) as u8
    }
}

fn credit_samples(count: usize, start: u64) -> Vec<GiveMeSomeCreditSample> {
    let mut numbers = Numbers { state: start };
    let mut samples = Vec::new();
    for _ in 0..count {
        let revolving_util = numbers.next(14);
        let age = numbers.next(1);
        let past_due = numbers.next(15);
        let debt_ratio = numbers.next(15);
        let income = numbers.next(15);
        let lines = numbers.next(13);
        let real_estate = numbers.next(3);
        let dependents = numbers.next(3);
        let noise = numbers.next(9);
        let label = (revolving_util > 7 && past_due > 4) || noise == 0;
        samples.push(GiveMeSomeCreditSample {
            revolving_util,
            age,
            past_due,
            debt_ratio,
            income,
            lines,
            real_estate,
            dependents,
            label,
        });
    }
    samples
}

fn passengers(count: usize, start: u64) -> Vec<TitanicSample> {
    let mut numbers = Numbers { state: start };
    let mut samples = Vec::new();
    for _ in 0..count {
        let age = numbers.next(19);
        let fare = numbers.next(19);
        let siblings = numbers.next(8);
        let children = numbers.next(6);
        let gender = numbers.next(1);
        let pclass = numbers.next(2);
        let noise = numbers.next(7);
        let label = (gender == 1 && pclass < 2) || noise == 0;
        samples.push(TitanicSample { age, fare, siblings, children, gender, pclass, label });
    }
    samples
}

fn fit_credit_tree(samples: &Vec<GiveMeSomeCreditSample>, seed: u64, budget: usize, max_tries: usize) -> Tree {
    let dataset = GiveMeSomeCreditDataset::from_samples(samples);
    let mut working_copy = samples.clone();
    Tree::fit(&dataset, &mut working_copy, seed, 0, 2, 3, budget, max_tries)
}

/// The samples that the leaves below a position count, by way of the first
/// alternative wherever a position is open.
fn live_samples(tree: &Tree, id: u64) -> u64 {
    match tree.element_at(id) {
        Some(TreeElement::Leaf { num_samples, num_plus }) => {
            assert!(num_plus <= num_samples);
            num_samples as u64
        }
        Some(TreeElement::Node { split: _ }) => live_samples(tree, 2 * id) + live_samples(tree, 2 * id + 1),
        None => {
            let alternatives = tree.alternatives_at(id).unwrap();
            live_samples(&alternatives[0].tree, id)
        }
    }
}

/// Checks a tree below a position against the samples that reach it, and
/// returns the number of open positions that it finds.
fn check_subtree<D: Dataset, S: Sample>(tree: &Tree, id: u64, dataset: &D, samples: &[S]) -> usize {
    match tree.element_at(id) {
        Some(TreeElement::Leaf { num_samples, num_plus }) => {
            assert!(tree.alternatives_at(id).is_none());
            assert_eq!(num_samples as usize, samples.len());
            assert_eq!(num_plus as usize, samples.iter().filter(|sample| sample.true_label()).count());
            0
        }
        Some(TreeElement::Node { split }) => {
            assert!(tree.alternatives_at(id).is_none());
            check_split(&split, dataset);
            let left: Vec<S> = samples.iter().filter(|sample| sample.is_left_of(&split)).cloned().collect();
            let right: Vec<S> = samples.iter().filter(|sample| !sample.is_left_of(&split)).cloned().collect();
            assert!(!left.is_empty());
            assert!(!right.is_empty());
            check_subtree(tree, 2 * id, dataset, &left) + check_subtree(tree, 2 * id + 1, dataset, &right)
        }
        None => {
            let alternatives = tree.alternatives_at(id).unwrap();
            assert!(alternatives.len() >= 2);
            let mut open = 1;
            for (position, alternative) in alternatives.iter().enumerate() {
                for other in alternatives.iter().skip(position + 1) {
                    assert_ne!(alternative.split.attribute_index(), other.split.attribute_index());
                }
                assert_eq!(alternative.tree.alternative_subtrees.len(), alternative.tree.num_non_robust_nodes);
                assert_eq!(tests_below(&alternative.tree, id), alternative.tree.num_robust_nodes + 1);
                check_split(&alternative.split, dataset);
                assert!(alternative.split_stats.has_positive_score());
                let stats = &alternative.split_stats;
                assert_eq!(
                    (stats.num_plus_left + stats.num_minus_left + stats.num_plus_right + stats.num_minus_right)
                        as usize,
                    samples.len()
                );
                assert_eq!(
                    (stats.num_plus_left + stats.num_minus_left) as usize,
                    samples.iter().filter(|sample| sample.is_left_of(&alternative.split)).count()
                );
                if position > 0 {
                    assert!(alternatives[position - 1].split_stats.score >= stats.score);
                }
                assert_eq!(alternative.tree.element_at(id), Some(TreeElement::Node { split: alternative.split }));
                open += check_subtree(&alternative.tree, id, dataset, samples);
            }
            open
        }
    }
}

/// The number of tests of a tree from a position on, those of its
/// alternatives left aside.
fn tests_below(tree: &Tree, id: u64) -> usize {
    match tree.element_at(id) {
        Some(TreeElement::Node { split: _ }) => 1 + tests_below(tree, 2 * id) + tests_below(tree, 2 * id + 1),
        _ => 0,
    }
}

fn check_split<D: Dataset>(split: &Split, dataset: &D) {
    match split {
        Split::Numerical { attribute_index, cut_off } => {
            assert!(*attribute_index < dataset.num_attributes());
            let (min_value, max_value) = dataset.attribute_range(*attribute_index);
            assert!(min_value <= *cut_off && *cut_off <= max_value);
        }
        Split::Categorical { attribute_index, subset } => {
            assert!(*attribute_index < dataset.num_attributes());
            let (_, cardinality) = dataset.attribute_range(*attribute_index);
            assert_eq!(subset >> (cardinality as u64 + 1), 0);
        }
    }
}

#[test]
fn a_fitted_tree_counts_every_sample_in_its_leaf() {
    let samples = credit_samples(400, 11);
    let dataset = GiveMeSomeCreditDataset::from_samples(&samples);
    for seed in 0..4 {
        let tree = fit_credit_tree(&samples, seed, 0, 3);
        assert_eq!(tree.index, 0);
        assert_eq!(tree.min_leaf_size, 2);
        assert_eq!(tree.num_attributes, 8);
        assert_eq!(tree.num_attributes_to_try_per_split, 3);
        assert_eq!(tree.max_tries_per_split, 3);
        let open = check_subtree(&tree, 1, &dataset, &samples);
        assert_eq!(live_samples(&tree, 1), 400);
        assert!(tree.num_robust_nodes > 0);
        assert_eq!(tests_below(&tree, 1), tree.num_robust_nodes);
        assert_eq!(tree.alternative_subtrees.len(), tree.num_non_robust_nodes);
        assert!(open >= tree.num_non_robust_nodes);
        assert_eq!(node_count(fit_credit_tree(&samples, seed, 0, 3)).1, open);
    }
}

#[test]
fn a_tree_keeps_alternatives_where_the_champion_is_not_robust() {
    let samples = credit_samples(120, 5);
    let dataset = GiveMeSomeCreditDataset::from_samples(&samples);
    let mut found_open = false;
    for seed in 0..10 {
        let tree = fit_credit_tree(&samples, seed, 5, 1);
        let open = check_subtree(&tree, 1, &dataset, &samples);
        assert_eq!(live_samples(&tree, 1), 120);
        assert_eq!(tests_below(&tree, 1), tree.num_robust_nodes);
        assert_eq!(tree.alternative_subtrees.len(), tree.num_non_robust_nodes);
        let (_, counted_open) = node_count(fit_credit_tree(&samples, seed, 5, 1));
        assert_eq!(counted_open, open);
        found_open = found_open || open > 0;
    }
    assert!(found_open);
}

#[test]
fn a_tree_on_categorical_attributes() {
    let samples = passengers(350, 3);
    let dataset = TitanicDataset::from_samples(&samples);
    for seed in 0..5 {
        let mut working_copy = samples.clone();
        let tree = Tree::fit(&dataset, &mut working_copy, seed, 2, 1, 3, 1, 4);
        assert_eq!(tree.index, 2);
        check_subtree(&tree, 1, &dataset, &samples);
        assert_eq!(live_samples(&tree, 1), 350);
        let mut before: Vec<TitanicSample> = samples.clone();
        let mut after = working_copy.clone();
        let key = |sample: &TitanicSample| {
            (sample.age, sample.fare, sample.siblings, sample.children, sample.gender, sample.pclass, sample.label)
        };
        before.sort_by_key(key);
        after.sort_by_key(key);
        assert_eq!(before, after);
    }
}

#[test]
fn the_same_seed_gives_the_same_tree() {
    let samples = credit_samples(200, 9);
    let first = fit_credit_tree(&samples, 77, 2, 2);
    let second = fit_credit_tree(&samples, 77, 2, 2);
    let others = credit_samples(100, 1234);
    for sample in samples.iter().chain(others.iter()) {
        assert_eq!(first.predict(sample), second.predict(sample));
    }
    for id in 1..64 {
        assert_eq!(first.element_at(id), second.element_at(id));
    }
    assert_eq!(first.num_robust_nodes, second.num_robust_nodes);
    assert_eq!(first.num_non_robust_nodes, second.num_non_robust_nodes);
}

#[test]
fn a_tree_without_samples_is_a_leaf() {
    let samples: Vec<GiveMeSomeCreditSample> = Vec::new();
    let tree = fit_credit_tree(&samples, 1, 0, 2);
    assert_eq!(tree.element_at(1), Some(TreeElement::Leaf { num_samples: 0, num_plus: 0 }));
    let sample = credit_samples(1, 3)[0];
    assert!(!tree.predict(&sample));
    let mut tree = tree;
    assert_eq!(tree.forget(&sample), Err(ForgetError::NotRepresented));
    assert_eq!(tree.element_at(1), Some(TreeElement::Leaf { num_samples: 0, num_plus: 0 }));
}

#[test]
fn samples_of_one_label_give_a_leaf() {
    let mut samples = credit_samples(50, 21);
    for sample in samples.iter_mut() {
        sample.label = true;
    }
    let tree = fit_credit_tree(&samples, 4, 0, 2);
    assert_eq!(tree.element_at(1), Some(TreeElement::Leaf { num_samples: 50, num_plus: 50 }));
    assert!(tree.predict(&samples[0]));
    assert_eq!(node_count(tree), (0, 0));
}

#[test]
fn a_leaf_predicts_its_majority() {
    let mut samples = credit_samples(4, 8);
    for (position, sample) in samples.iter_mut().enumerate() {
        *sample = GiveMeSomeCreditSample { label: position < 2, ..samples_template() };
    }
    let mut tree = fit_credit_tree(&samples, 4, 0, 1);
    assert_eq!(tree.element_at(1), Some(TreeElement::Leaf { num_samples: 4, num_plus: 2 }));
    assert!(!tree.predict(&samples[0]));
    assert_eq!(tree.forget(&samples[3]), Ok(()));
    assert_eq!(tree.element_at(1), Some(TreeElement::Leaf { num_samples: 3, num_plus: 2 }));
    assert!(tree.predict(&samples[0]));
    assert_eq!(tree.forget(&samples[0]), Ok(()));
    assert_eq!(tree.element_at(1), Some(TreeElement::Leaf { num_samples: 2, num_plus: 1 }));
    assert!(!tree.predict(&samples[0]));
}

fn samples_template() -> GiveMeSomeCreditSample {
    GiveMeSomeCreditSample {
        revolving_util: 1,
        age: 1,
        past_due: 1,
        debt_ratio: 1,
        income: 1,
        lines: 1,
        real_estate: 1,
        dependents: 1,
        label: false,
    }
}

#[test]
fn forgetting_lowers_the_live_count_by_one() {
    let samples = credit_samples(160, 31);
    for (seed, budget, max_tries) in [(1u64, 0usize, 3usize), (2, 6, 1), (3, 6, 0), (4, 3, 2)] {
        let mut tree = fit_credit_tree(&samples, seed, budget, max_tries);
        let mut expected = 160;
        assert_eq!(live_samples(&tree, 1), expected);
        for sample in samples.iter() {
            assert!(tree.represents(sample, 1));
            assert_eq!(tree.forget(sample), Ok(()));
            expected -= 1;
            assert_eq!(live_samples(&tree, 1), expected);
        }
        for sample in samples.iter().take(20) {
            assert!(!tree.represents(sample, 1));
            assert_eq!(tree.forget(sample), Err(ForgetError::NotRepresented));
            assert_eq!(live_samples(&tree, 1), 0);
        }
    }
}

#[test]
fn forgetting_keeps_the_tree_of_the_remaining_samples() {
    let samples = credit_samples(260, 17);
    let dataset = GiveMeSomeCreditDataset::from_samples(&samples);
    for (seed, budget, max_tries) in [(5u64, 0usize, 2usize), (6, 5, 1), (7, 4, 0)] {
        let mut tree = fit_credit_tree(&samples, seed, budget, max_tries);
        let mut remaining = samples.clone();
        let mut forgotten = 0;
        let mut position = 0;
        while position < remaining.len() && forgotten < 40 {
            let sample = remaining[position];
            assert_eq!(tree.forget(&sample), Ok(()));
            remaining.remove(position);
            forgotten += 1;
            position += 5;
        }
        assert_eq!(forgotten, 40);
        check_counts(&tree, 1, &dataset, &remaining);
    }
}

/// Checks the counts of the leaves and of the alternatives against the
/// samples that reach them.
fn check_counts<D: Dataset, S: Sample>(tree: &Tree, id: u64, dataset: &D, samples: &[S]) {
    match tree.element_at(id) {
        Some(TreeElement::Leaf { num_samples, num_plus }) => {
            assert_eq!(num_samples as usize, samples.len());
            assert_eq!(num_plus as usize, samples.iter().filter(|sample| sample.true_label()).count());
        }
        Some(TreeElement::Node { split }) => {
            let left: Vec<S> = samples.iter().filter(|sample| sample.is_left_of(&split)).cloned().collect();
            let right: Vec<S> = samples.iter().filter(|sample| !sample.is_left_of(&split)).cloned().collect();
            check_counts(tree, 2 * id, dataset, &left);
            check_counts(tree, 2 * id + 1, dataset, &right);
        }
        None => {
            let alternatives = tree.alternatives_at(id).unwrap();
            for (position, alternative) in alternatives.iter().enumerate() {
                let stats = &alternative.split_stats;
                let mut expected = SplitStats::new(0, 0, 0, 0);
                for sample in samples {
                    match (sample.true_label(), sample.is_left_of(&alternative.split)) {
                        (true, true) => expected.num_plus_left += 1,
                        (false, true) => expected.num_minus_left += 1,
                        (true, false) => expected.num_plus_right += 1,
                        (false, false) => expected.num_minus_right += 1,
                    }
                }
                expected.update_score_and_impurity_before();
                assert_eq!(stats.num_plus_left, expected.num_plus_left);
                assert_eq!(stats.num_minus_left, expected.num_minus_left);
                assert_eq!(stats.num_plus_right, expected.num_plus_right);
                assert_eq!(stats.num_minus_right, expected.num_minus_right);
                if position > 0 {
                    assert!(alternatives[position - 1].split_stats.score >= stats.score);
                }
                check_counts(&alternative.tree, id, dataset, samples);
            }
        }
    }
}

#[test]
fn forgetting_ranks_the_alternatives_anew() {
    let samples = credit_samples(60, 55);
    let mut open_roots = 0;
    for seed in 0..30 {
        let mut tree = fit_credit_tree(&samples, seed, 5, 0);
        if tree.element_at(1).is_some() {
            continue;
        }
        open_roots += 1;
        let splits_of = |list: &Vec<AlternativeTree>| -> Vec<Split> {
            list.iter().map(|alternative| alternative.split).collect()
        };
        let at_first = splits_of(tree.alternatives_at(1).unwrap());
        assert!(at_first.len() >= 2);
        let mut reordered = false;
        for sample in samples.iter().take(50) {
            let before: Vec<(Split, SplitStats)> = tree.alternatives_at(1).unwrap().iter().map(|alternative| {
                (alternative.split, alternative.split_stats)
            }).collect();
            assert_eq!(tree.forget(sample), Ok(()));
            let after = tree.alternatives_at(1).unwrap();
            assert_eq!(after.len(), before.len());
            for (position, alternative) in after.iter().enumerate() {
                let (_, old_stats) = before.iter().find(|(split, _)| *split == alternative.split).unwrap();
                let left = sample.is_left_of(&alternative.split);
                let expected = old_stats.remove_and_rescore(sample.true_label(), left, 1).unwrap();
                assert_eq!(alternative.split_stats.score, expected.score);
                assert_eq!(alternative.split_stats.count_in(sample.true_label(), left) + 1, old_stats.count_in(
                    sample.true_label(),
                    left,
                ));
                if position > 0 {
                    assert!(after[position - 1].split_stats.score >= alternative.split_stats.score);
                }
            }
            if splits_of(after) != at_first {
                reordered = true;
            }
        }
        let mut at_last = splits_of(tree.alternatives_at(1).unwrap());
        let mut sorted_at_first = at_first.clone();
        let key = |split: &Split| match split {
            Split::Numerical { attribute_index, cut_off } => (0u8, *attribute_index, *cut_off as u64),
            Split::Categorical { attribute_index, subset } => (1u8, *attribute_index, *subset),
        };
        at_last.sort_by_key(key);
        sorted_at_first.sort_by_key(key);
        assert_eq!(at_last, sorted_at_first);
        let _ = reordered;
    }
    assert!(open_roots > 0);
}

#[test]
fn seeds_are_laid_out_most_significant_byte_first() {
    assert_eq!(as_bytes(0, 0), [0u8; 16]);
    assert_eq!(
        as_bytes(0x0102_0304_0506_0708, 0x1112_1314_1516_1718),
        [0x01, 0x02, 0x03, 0x04, 0x05, 0x06, 0x07, 0x08, 0x11, 0x12, 0x13, 0x14, 0x15, 0x16, 0x17, 0x18]
    );
    assert_eq!(as_bytes(u64::MAX, 1), [255, 255, 255, 255, 255, 255, 255, 255, 0, 0, 0, 0, 0, 0, 0, 1]);
}

fn scored_against_half(counts: (u32, u32, u32, u32)) -> SplitStats {
    let mut stats = SplitStats::new(counts.0, counts.1, counts.2, counts.3);
    stats.update_score(500_000_000_000);
    stats
}

#[test]
fn the_champion_is_the_last_of_the_best() {
    let none: Vec<SplitStats> = Vec::new();
    assert_eq!(best_candidate(&none), None);
    let flat = vec![SplitStats::new(1, 1, 1, 1), scored_against_half((0, 0, 5, 5))];
    assert_eq!(best_candidate(&flat), None);
    let stats = vec![
        scored_against_half((30, 20, 20, 30)),
        scored_against_half((40, 10, 10, 40)),
        scored_against_half((0, 0, 50, 50)),
        scored_against_half((10, 40, 40, 10)),
        scored_against_half((35, 15, 15, 35)),
    ];
    assert_eq!(stats[1].score, stats[3].score);
    assert_eq!(best_candidate(&stats), Some(3));
}

#[test]
fn rivals_that_can_overturn_the_champion() {
    let stats = vec![
        scored_against_half((31, 19, 19, 31)),
        scored_against_half((32, 18, 18, 32)),
        scored_against_half((0, 0, 50, 50)),
        scored_against_half((28, 22, 22, 28)),
        scored_against_half((25, 25, 25, 25)),
    ];
    assert_eq!(best_candidate(&stats), Some(1));
    assert!(!has_overturning_rival(&stats, 1, 0));
    assert_eq!(non_robust_rivals(&stats, 1, 0), Vec::new());
    let budget = 4;
    let mut expected = Vec::new();
    for rival in [0usize, 3] {
        let (robust, rounds) = is_robust(&stats[1], &stats[rival], budget);
        if !robust {
            expected.push((rival, rounds));
        }
    }
    assert_eq!(non_robust_rivals(&stats, 1, budget), expected);
    assert_eq!(has_overturning_rival(&stats, 1, budget), !expected.is_empty());
    assert!(expected.iter().any(|(rival, _)| *rival == 0));
}

#[test]
fn a_rival_uses_up_the_rounds_of_the_search() {
    let scored = |counts: (u32, u32, u32, u32)| {
        let mut stats = SplitStats::new(counts.0, counts.1, counts.2, counts.3);
        stats.update_score_and_impurity_before();
        stats
    };
    // A count does not exceed the budget, and the search overturns the
    // champion in its second round: two rounds are used up, not four.
    let stats = vec![scored((8, 11, 1, 4)), scored((3, 6, 6, 9))];
    assert_eq!(stats[0].score, Some(16_118_421_052));
    assert_eq!(stats[1].score, Some(2_083_333_333));
    assert_eq!(best_candidate(&stats), Some(0));
    assert!(!h2(&stats[0], &stats[1], 4));
    assert_eq!(is_robust2(&stats[0], &stats[1], 4, false), (false, 2, -20_473_644_003));
    assert_eq!(is_robust(&stats[0], &stats[1], 4), (false, 2));
    assert!(has_overturning_rival(&stats, 0, 4));
    assert_eq!(non_robust_rivals(&stats, 0, 4), vec![(1, 2)]);
    assert_eq!(next_step(&stats, 0, 0, 4), Step::Open { best: 0 });
}

#[test]
fn a_champion_holds_where_both_quick_tests_and_the_search_pass() {
    let scored = |counts: (u32, u32, u32, u32)| {
        let mut stats = SplitStats::new(counts.0, counts.1, counts.2, counts.3);
        stats.update_score_and_impurity_before();
        stats
    };
    // A count does not exceed the budget.
    let s = scored((8, 6, 12, 2));
    let t = scored((10, 3, 10, 3));
    assert!(!h2(&s, &t, 2));
    assert_eq!(is_robust2(&s, &t, 2, false).0, true);
    assert_eq!(is_robust(&s, &t, 2), (false, 2));
    assert!(!holds_against(&s, &t, 2));
    assert!(!holds_against(&s, &t, 3));
    assert!(holds_against(&s, &t, 1));
    // Taking the budget out of one bucket overturns the champion.
    let s = scored((17, 15, 23, 13));
    let t = scored((20, 13, 20, 15));
    assert!(s.score > t.score);
    let mut stopped_by_the_bulk_test = 0;
    for budget in 0..8usize {
        let (found_none, rounds, _) = is_robust2(&s, &t, budget, false);
        let passes = h2(&s, &t, budget as u32) && heuristic(&s, &t, budget as u32).0;
        assert_eq!(is_robust(&s, &t, budget), (passes && found_none, rounds));
        assert_eq!(holds_against(&s, &t, budget), passes && found_none);
        if h2(&s, &t, budget as u32) && !heuristic(&s, &t, budget as u32).0 {
            stopped_by_the_bulk_test += 1;
        }
    }
    assert!(stopped_by_the_bulk_test > 0);
    // The search decides.
    let s = scored((70, 50, 130, 30));
    let t = scored((100, 30, 100, 30));
    assert_eq!(is_robust(&s, &t, 4), (true, 4));
    assert_eq!(is_robust(&s, &t, 0), (true, 0));
    assert!(holds_against(&s, &t, 4));
    assert!(!holds_against(&s, &t, 30));
}

/// The open positions on the way of a sample, in a tree and in the
/// subtrees of the alternatives.
fn open_positions_on_the_way(tree: &Tree, sample: &GiveMeSomeCreditSample, id: u64) -> usize {
    match tree.element_at(id) {
        Some(TreeElement::Leaf { .. }) => 0,
        Some(TreeElement::Node { split }) => {
            open_positions_on_the_way(tree, sample, if sample.is_left_of(&split) { 2 * id } else { 2 * id + 1 })
        }
        None => {
            let alternatives = tree.alternatives_at(id).unwrap();
            1 + alternatives
                .iter()
                .map(|alternative| open_positions_on_the_way(&alternative.tree, sample, id))
                .sum::<usize>()
        }
    }
}

#[test]
fn forgetting_tells_the_open_positions_that_it_came_by() {
    let samples = credit_samples(100, 91);
    let mut hit_some = false;
    for seed in 0..8 {
        let mut tree = fit_credit_tree(&samples, seed, 4, 0);
        let mut twin = fit_credit_tree(&samples, seed, 4, 0);
        for sample in samples.iter().take(60) {
            let expected_hits = open_positions_on_the_way(&tree, sample, 1);
            assert!(tree.represents(sample, 1));
            let (hit, changed) = Tree::forget_from2(&mut tree, sample, 1);
            assert_eq!(hit, expected_hits);
            assert!(changed <= hit);
            hit_some = hit_some || hit > 0;
            assert_eq!(twin.forget(sample), Ok(()));
            assert_eq!(live_samples(&tree, 1), live_samples(&twin, 1));
            for id in 1..16 {
                assert_eq!(tree.element_at(id), twin.element_at(id));
            }
        }
    }
    assert!(hit_some);
}

/// The samples that take the way of a walker down to a leaf of the tree;
/// none where the way leads into an open position.
fn fellows(tree: &Tree, walker: &GiveMeSomeCreditSample, samples: &[GiveMeSomeCreditSample]) -> Option<Vec<GiveMeSomeCreditSample>> {
    let mut id = 1;
    let mut reaching: Vec<GiveMeSomeCreditSample> = samples.to_vec();
    loop {
        match tree.element_at(id) {
            Some(TreeElement::Leaf { .. }) => return Some(reaching),
            Some(TreeElement::Node { split }) => {
                let left = walker.is_left_of(&split);
                reaching.retain(|sample| sample.is_left_of(&split) == left);
                id = if left { 2 * id } else { 2 * id + 1 };
            }
            None => return None,
        }
    }
}

#[test]
fn a_label_is_the_majority_of_the_samples_that_are_left() {
    let samples = credit_samples(300, 71);
    let held_out = credit_samples(200, 72);
    let mut compared = 0;
    for (seed, budget) in [(1u64, 0usize), (2, 3), (3, 5), (4, 0), (5, 1), (6, 0)] {
        let mut tree = fit_credit_tree(&samples, seed, budget, 12);
        let mut remaining = samples.clone();
        for round in 0..40 {
            for walker in held_out.iter() {
                if let Some(reaching) = fellows(&tree, walker, &remaining) {
                    let positives = reaching.iter().filter(|sample| sample.label).count();
                    assert_eq!(tree.predict(walker), 2 * positives > reaching.len());
                    compared += 1;
                }
            }
            let position = (round * 7) % remaining.len();
            assert_eq!(tree.forget(&remaining[position]), Ok(()));
            remaining.remove(position);
        }
    }
    assert!(compared > 1000);
}

#[test]
fn what_happens_at_a_position() {
    let flat = vec![SplitStats::new(1, 1, 1, 1), scored_against_half((0, 0, 5, 5))];
    assert_eq!(next_step(&flat, 0, 2, 3), Step::Retry);
    assert_eq!(next_step(&flat, 1, 2, 3), Step::Retry);
    assert_eq!(next_step(&flat, 2, 2, 3), Step::Leaf);
    assert_eq!(next_step(&flat, 0, 0, 3), Step::Leaf);
    assert_eq!(next_step(&Vec::new(), 5, 5, 0), Step::Leaf);
    assert_eq!(next_step(&Vec::new(), 4, 5, 0), Step::Retry);

    let contested = vec![
        scored_against_half((31, 19, 19, 31)),
        scored_against_half((32, 18, 18, 32)),
        scored_against_half((25, 25, 25, 25)),
    ];
    assert!(has_overturning_rival(&contested, 1, 4));
    assert_eq!(next_step(&contested, 0, 1, 4), Step::Retry);
    assert_eq!(next_step(&contested, 1, 1, 4), Step::Open { best: 1 });
    assert_eq!(next_step(&contested, 0, 1, 0), Step::Split { best: 1 });
    assert_eq!(next_step(&contested, 1, 1, 0), Step::Split { best: 1 });

    // A candidate that gains nothing is no champion.
    let mut without_gain = SplitStats::new(1, 1, 2, 2);
    without_gain.update_score_and_impurity_before();
    assert_eq!(without_gain.score, Some(0));
    let idle = vec![without_gain];
    assert_eq!(best_candidate(&idle), None);
    assert_eq!(next_step(&idle, 0, 1, 0), Step::Retry);
    assert_eq!(next_step(&idle, 1, 1, 0), Step::Leaf);

    let alone = vec![scored_against_half((25, 25, 25, 25)), scored_against_half((40, 10, 10, 40))];
    assert_eq!(next_step(&alone, 0, 3, 9), Step::Split { best: 1 });
    assert_eq!(next_step(&alone, 3, 3, 9), Step::Split { best: 1 });
}

#[test]
fn the_certificate_agrees_with_the_enumeration() {
    let mut state: u64 = 2024;
    let mut next = |low: u32, high: u32| -> u32 {
        state = state.wrapping_mul(6364136223846793005).wrapping_add(1442695040888963407);
        low + ((state >> 33) % ((high - low) as u64)) as u32
    };
    let mut certified = 0;
    let mut refused = 0;
    for round in 0..1500 {
        let budget = 1 + (round % 3) as u32;
        let num_samples = next(4 * budget + 4, 60);
        let num_plus = next(2 * (budget + 1), num_samples - 2 * (budget + 1) + 1);
        let num_minus = num_samples - num_plus;
        let s_plus_left = next(budget + 1, num_plus - budget);
        let s_minus_left = next(budget + 1, num_minus - budget);
        let t_plus_left = next(budget + 1, num_plus - budget);
        let t_minus_left = next(budget + 1, num_minus - budget);
        let mut s = SplitStats::new(s_plus_left, s_minus_left, num_plus - s_plus_left, num_minus - s_minus_left);
        let mut t = SplitStats::new(t_plus_left, t_minus_left, num_plus - t_plus_left, num_minus - t_minus_left);
        s.update_score_and_impurity_before();
        t.update_score_and_impurity_before();
        if !s.has_positive_score() || !t.has_positive_score() {
            continue;
        }
        let (s, t) = if s.score >= t.score { (s, t) } else { (t, s) };
        assert!(h2(&s, &t, budget));
        let (verdict, used) = is_robust(&s, &t, budget as usize);
        assert_eq!(holds_against(&s, &t, budget as usize), verdict);
        let overturn = exhaustive(&s, &t, budget as usize);
        assert!(used <= budget as usize);
        if verdict {
            assert_eq!(exhaustive(&s, &t, 1), None);
            assert_eq!(overturn, None);
            certified += 1;
        } else {
            assert!(overturn.is_some());
            assert!(overturn.unwrap() <= budget as usize);
            refused += 1;
        }
    }
    assert!(certified > 100);
    assert!(refused > 100);
}
