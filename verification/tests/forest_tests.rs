use hedgecut::dataset::{GiveMeSomeCreditDataset, GiveMeSomeCreditSample};
use hedgecut::evaluation::{confusion, Confusion};
use hedgecut::forest::{ceil_sqrt, deletion_budget};
use hedgecut::tree::{ExtremelyRandomizedTrees, ForgetError, Tree, TreeElement};

struct Numbers {
    state: u64,
}

impl Numbers {
    fn next(&mut self, bound: u8) -> u8 {
        self.state = self.state.wrapping_mul(6364136223846793005).wrapping_add(1442695040888963407);
        ((self.state >> 33) % (bound as u64 + 1)) as u8
    }
}

fn credit_samples(count: usize, start: u64) -> Vec<GiveMeSomeCreditSample> {
    let mut numbers = Numbers { state: start };
    let mut samples = Vec::new();
    for _ in 0..count {
        let revolving_util = numbers.next(14);
        let age = numbers.next(1);
        let past_due = numbers.next(15);
        let debt_ratio = numbers.next(15);
        let income = numbers.next(15);
        let lines = numbers.next(13);
        let real_estate = numbers.next(3);
        let dependents = numbers.next(3);
        let noise = numbers.next(19);
        let label = (revolving_util > 7 && past_due > 4) || noise == 0;
        samples.push(GiveMeSomeCreditSample {
            revolving_util,
            age,
            past_due,
            debt_ratio,
            income,
            lines,
            real_estate,
            dependents,
            label,
        });
    }
    samples
}

fn live_samples(tree: &Tree, id: u64) -> u64 {
    match tree.element_at(id) {
        Some(TreeElement::Leaf { num_samples, .. }) => num_samples as u64,
        Some(TreeElement::Node { split: _ }) => live_samples(tree, 2 * id) + live_samples(tree, 2 * id + 1),
        None => live_samples(&tree.alternatives_at(id).unwrap()[0].tree, id),
    }
}

/// What a tree holds, position by position, with the alternatives of
/// every open position in their order.
fn shape(tree: &Tree, id: u64, found: &mut Vec<(u64, Option<TreeElement>, usize)>) {
    let element = tree.element_at(id);
    match element {
        Some(TreeElement::Node { split: _ }) => {
            found.push((id, element, 0));
            shape(tree, 2 * id, found);
            shape(tree, 2 * id + 1, found);
        }
        Some(_) => found.push((id, element, 0)),
        None => {
            let alternatives = tree.alternatives_at(id).unwrap();
            found.push((id, None, alternatives.len()));
            for alternative in alternatives.iter() {
                shape(&alternative.tree, id, found);
            }
        }
    }
}

fn shape_of(tree: &Tree) -> Vec<(u64, Option<TreeElement>, usize)> {
    let mut found = Vec::new();
    shape(tree, 1, &mut found);
    found
}

#[test]
fn a_forest_fits_its_trees_under_the_share_of_the_records() {
    let samples = credit_samples(150, 9);
    let dataset = GiveMeSomeCreditDataset::from_samples(&samples);
    let forest = ExtremelyRandomizedTrees::fit_with_epsilon(&dataset, samples.clone(), 8, 3, 2, 1, 1, 50);
    let budget = deletion_budget(150, 1, 50);
    assert_eq!(budget, 3);
    let mut budget_matters = false;
    for (index, tree) in forest.trees.iter().enumerate() {
        let mut copy = samples.clone();
        let alone = Tree::fit(&dataset, &mut copy, 8, index, 2, ceil_sqrt(8), budget, 1);
        assert_eq!(shape_of(tree), shape_of(&alone));
        let mut copy = samples.clone();
        let without_budget = Tree::fit(&dataset, &mut copy, 8, index, 2, ceil_sqrt(8), 0, 1);
        budget_matters = budget_matters || shape_of(tree) != shape_of(&without_budget);
    }
    assert!(budget_matters);
}

#[test]
fn a_forest_has_as_many_trees_as_asked_for() {
    let samples = credit_samples(300, 1);
    let dataset = GiveMeSomeCreditDataset::from_samples(&samples);
    let forest = ExtremelyRandomizedTrees::fit(&dataset, samples.clone(), 5, 7, 2, 3);
    assert_eq!(forest.trees.len(), 7);
    for (position, tree) in forest.trees.iter().enumerate() {
        assert_eq!(tree.index, position);
        assert_eq!(tree.num_attributes, 8);
        assert_eq!(tree.num_attributes_to_try_per_split, 3);
        assert_eq!(tree.min_leaf_size, 2);
        assert_eq!(tree.max_tries_per_split, 3);
        assert_eq!(live_samples(tree, 1), 300);
    }
    let empty = ExtremelyRandomizedTrees::fit(&dataset, samples, 5, 0, 2, 3);
    assert!(empty.trees.is_empty());
    assert!(!empty.predict(&credit_samples(1, 2)[0]));
}

#[test]
fn the_trees_of_a_forest_differ() {
    let samples = credit_samples(300, 1);
    let dataset = GiveMeSomeCreditDataset::from_samples(&samples);
    let forest = ExtremelyRandomizedTrees::fit(&dataset, samples, 5, 6, 2, 3);
    let roots: Vec<Option<TreeElement>> = forest.trees.iter().map(|tree| tree.element_at(1)).collect();
    assert!(roots.iter().any(|root| *root != roots[0]));
}

#[test]
fn a_forest_is_the_same_for_the_same_seed() {
    let samples = credit_samples(250, 3);
    let dataset = GiveMeSomeCreditDataset::from_samples(&samples);
    let first = ExtremelyRandomizedTrees::fit(&dataset, samples.clone(), 99, 5, 2, 2);
    let second = ExtremelyRandomizedTrees::fit(&dataset, samples.clone(), 99, 5, 2, 2);
    for (one, other) in first.trees.iter().zip(second.trees.iter()) {
        for id in 1..32 {
            assert_eq!(one.element_at(id), other.element_at(id));
        }
    }
    for sample in credit_samples(200, 77).iter() {
        assert_eq!(first.predict(sample), second.predict(sample));
    }
}

#[test]
fn a_forest_votes_by_majority() {
    let samples = credit_samples(400, 8);
    let dataset = GiveMeSomeCreditDataset::from_samples(&samples);
    for num_trees in [1usize, 2, 5, 8] {
        let forest = ExtremelyRandomizedTrees::fit(&dataset, samples.clone(), 13, num_trees, 2, 3);
        let mut positives = 0;
        for sample in credit_samples(150, 1000).iter() {
            let votes = forest.trees.iter().filter(|tree| tree.predict(sample)).count();
            assert_eq!(forest.predict(sample), votes * 2 > num_trees);
            if forest.predict(sample) {
                positives += 1;
            }
        }
        assert!(positives > 0 && positives < 150);
    }
}

#[test]
fn a_forest_learns_the_rule_behind_the_labels() {
    let samples = credit_samples(2000, 4);
    let dataset = GiveMeSomeCreditDataset::from_samples(&samples);
    let forest = ExtremelyRandomizedTrees::fit(&dataset, samples, 3, 15, 2, 5);
    let held_out = credit_samples(500, 4321);
    let right = held_out.iter().filter(|sample| forest.predict(*sample) == sample.label).count();
    assert!(right * 10 > held_out.len() * 8);
}

#[test]
fn a_forest_forgets_in_every_tree() {
    let samples = credit_samples(200, 6);
    let dataset = GiveMeSomeCreditDataset::from_samples(&samples);
    let mut forest = ExtremelyRandomizedTrees::fit_with_epsilon(&dataset, samples.clone(), 21, 4, 2, 1, 1, 10);
    let mut expected = 200;
    for sample in samples.iter() {
        assert_eq!(forest.forget(sample), Ok(()));
        expected -= 1;
        for tree in forest.trees.iter() {
            assert_eq!(live_samples(tree, 1), expected);
        }
    }
    assert_eq!(forest.forget(&samples[0]), Err(ForgetError::NotRepresented));
    for tree in forest.trees.iter() {
        assert_eq!(live_samples(tree, 1), 0);
    }
}

#[test]
fn a_forest_that_cannot_forget_stays_as_it_is() {
    let samples = credit_samples(100, 6);
    let dataset = GiveMeSomeCreditDataset::from_samples(&samples);
    let mut forest = ExtremelyRandomizedTrees::fit(&dataset, samples.clone(), 21, 3, 2, 1);
    let stranger = GiveMeSomeCreditSample {
        revolving_util: 14,
        age: 1,
        past_due: 15,
        debt_ratio: 15,
        income: 15,
        lines: 13,
        real_estate: 3,
        dependents: 3,
        label: false,
    };
    let mut outcome = Ok(());
    let mut rounds = 0;
    while outcome.is_ok() && rounds < 200 {
        let before: Vec<u64> = forest.trees.iter().map(|tree| live_samples(tree, 1)).collect();
        outcome = forest.forget(&stranger);
        let after: Vec<u64> = forest.trees.iter().map(|tree| live_samples(tree, 1)).collect();
        if outcome.is_ok() {
            for (was, is) in before.iter().zip(after.iter()) {
                assert_eq!(*is + 1, *was);
            }
        } else {
            assert_eq!(before, after);
        }
        rounds += 1;
    }
    assert_eq!(outcome, Err(ForgetError::NotRepresented));
}

#[test]
fn the_budget_is_a_rounded_share_of_the_records() {
    assert_eq!(deletion_budget(1000, 1, 1000), 1);
    assert_eq!(deletion_budget(1499, 1, 1000), 1);
    assert_eq!(deletion_budget(1500, 1, 1000), 2);
    assert_eq!(deletion_budget(499, 1, 1000), 0);
    assert_eq!(deletion_budget(500, 1, 1000), 1);
    assert_eq!(deletion_budget(0, 1, 1000), 0);
    assert_eq!(deletion_budget(150_000, 1, 1000), 150);
    assert_eq!(deletion_budget(u32::MAX, 1, 1), u32::MAX as usize);
    assert_eq!(deletion_budget(u32::MAX, u32::MAX, u32::MAX), u32::MAX as usize);
    assert_eq!(deletion_budget(77, 0, 5), 0);
    assert_eq!(deletion_budget(10, 1, 4), 3);
    assert_eq!(deletion_budget(10, 3, 2), 15);
    assert_eq!(deletion_budget(7, 5, 1), 35);
    assert_eq!(deletion_budget(3, u32::MAX, 1), 3 * u32::MAX as usize);
}

#[test]
fn as_many_attributes_are_tried_as_the_root_of_their_number_rounded_up() {
    assert_eq!(ceil_sqrt(0), 0);
    assert_eq!(ceil_sqrt(1), 1);
    assert_eq!(ceil_sqrt(2), 2);
    assert_eq!(ceil_sqrt(4), 2);
    assert_eq!(ceil_sqrt(5), 3);
    assert_eq!(ceil_sqrt(6), 3);
    assert_eq!(ceil_sqrt(8), 3);
    assert_eq!(ceil_sqrt(9), 3);
    assert_eq!(ceil_sqrt(10), 4);
    assert_eq!(ceil_sqrt(23), 5);
    assert_eq!(ceil_sqrt(225), 15);
    assert_eq!(ceil_sqrt(226), 16);
    assert_eq!(ceil_sqrt(255), 16);
}

#[test]
fn the_four_outcomes_are_counted() {
    let samples = credit_samples(500, 15);
    let dataset = GiveMeSomeCreditDataset::from_samples(&samples);
    let forest = ExtremelyRandomizedTrees::fit(&dataset, samples, 8, 9, 2, 3);
    let test_data = credit_samples(300, 16);
    let counts = confusion(&forest, &test_data);
    let mut expected =
        Confusion { true_positives: 0, false_negatives: 0, false_positives: 0, true_negatives: 0 };
    for sample in test_data.iter() {
        match (sample.label, forest.predict(sample)) {
            (true, true) => expected.true_positives += 1,
            (true, false) => expected.false_negatives += 1,
            (false, true) => expected.false_positives += 1,
            (false, false) => expected.true_negatives += 1,
        }
    }
    assert_eq!(counts, expected);
    assert_eq!(
        counts.true_positives + counts.false_negatives + counts.false_positives + counts.true_negatives,
        300
    );
    assert!(counts.true_positives > 0 && counts.true_negatives > 0);
    let none = confusion(&forest, &Vec::<GiveMeSomeCreditSample>::new());
    assert_eq!(none, Confusion { true_positives: 0, false_negatives: 0, false_positives: 0, true_negatives: 0 });
}
