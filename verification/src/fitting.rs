//! Fitting a tree: candidate splits are drawn at random, the best one is
//! tested for robustness, and the samples are divided between its children.

use vstd::prelude::*;
use vstd::slice::{slice_subrange, slice_to_vec};
use crate::candidates::{
    clone_rng, compute_split_stats, is_candidate, is_test_of, on_distinct_attributes, seeded_rng,
};
use crate::champion::{is_champion, next_step, non_robust_rivals, scores_in_range, Step};
use crate::decisions::{
    constant_within, contenders, drawn_count, impurity_of, is_draw, leaf_of, lemma_constant_is_uniform, lemma_no_retry,
};
use crate::dataset::{count_plus, describes, goes_left, Dataset, Sample};
use crate::partition::{
    lemma_count_divided, lemma_rearranged_again, lemma_rearranged_described, rearranged_within, split, stood_within,
};
use crate::positions::{is_below, lemma_below_child, lemma_children_apart};
use crate::ranking::{lemma_sorted_is_ordered, lemma_sorted_is_rearranged, sort_alternatives, sorted_by_score};
use crate::scan::counted;
use crate::split_stats::{gini_impurity, gini_of, lemma_rescoring_is_idempotent, SplitStats, SCORE_SCALE};
use crate::tally::{counts_match, lemma_counted_is_tallied, lemma_divided_sides, lemma_two_parts, on_side};
use crate::tree::{
    elements_of, new_element_map, new_slot_map, put_element, put_slot, AlternativeTree, Split, Tree, TreeElement,
    MAX_INNER_ID,
};
use crate::utils::as_bytes;

verus! {

/// The counts of a split over at most `u32::MAX` samples fit together
/// into 32 bits, scored or not.
pub(crate) proof fn lemma_counts_fit<S: Sample>(samples: Seq<S>, split: &Split)
    requires
        samples.len() <= u32::MAX,
    ensures
        forall|impurity_before: int| #[trigger]
            counted(samples, split).scored_against(impurity_before).num_samples() == samples.len(),
{
    crate::scan::lemma_buckets_partition(samples, split);
}

/// Candidates that were drawn at a position, with their statistics over
/// the samples that reach it, are a draw at that position.
proof fn lemma_scored_draw<D: Dataset, S: Sample>(
    dataset: &D,
    samples: Seq<S>,
    candidates: Seq<Split>,
    all_stats: Seq<SplitStats>,
    impurity_before: int,
    constant: Seq<u8>,
    tries: usize,
)
    requires
        samples.len() <= u32::MAX,
        all_stats.len() == candidates.len(),
        candidates.len() == drawn_count(dataset, constant, tries),
        on_distinct_attributes(candidates),
        forall|i: int| 0 <= i < candidates.len() ==> is_candidate(#[trigger] candidates[i], dataset, constant),
        forall|i: int|
            0 <= i < all_stats.len() ==> #[trigger] all_stats[i] == counted(samples, &candidates[i]).scored_against(
                impurity_before,
            ),
    ensures
        is_draw(candidates, all_stats, dataset, samples.to_multiset(), impurity_before, constant, tries),
{
    assert forall|i: int| 0 <= i < candidates.len() implies {
        &&& counts_match(all_stats[i], samples.to_multiset(), &#[trigger] candidates[i])
        &&& all_stats[i] == all_stats[i].scored_against(impurity_before)
    } by {
        let unscored = counted(samples, &candidates[i]);
        assert(all_stats[i] == unscored.scored_against(impurity_before));
        crate::scan::lemma_buckets_partition(samples, &candidates[i]);
        lemma_counted_is_tallied(samples, &candidates[i]);
        lemma_rescoring_is_idempotent(unscored, unscored);
    }
}

/// The number of samples from `from` up to `to`, and the number of
/// positive ones among them.
fn count_samples<S: Sample>(samples: &Vec<S>, from: usize, to: usize) -> (counts: (u32, u32))
    requires
        from <= to <= samples@.len() <= u32::MAX,
    ensures
        counts.0 == to - from,
        counts.1 == count_plus(samples@.subrange(from as int, to as int)),
        counts.1 <= counts.0,
{
    let mut num_plus: u32 = 0;
    let mut index = from;
    while index < to
        invariant
            from <= index <= to <= samples@.len() <= u32::MAX,
            num_plus <= index - from,
            num_plus == count_plus(samples@.subrange(from as int, index as int)),
        decreases to - index,
    {
        assert(samples@.subrange(from as int, index + 1).drop_last() == samples@.subrange(from as int, index as int));
        if samples[index].true_label() {
            num_plus += 1;
        }
        index += 1;
    }
    ((to - from) as u32, num_plus)
}

/// The list, with one more attribute at its end where `add` is set.
fn with_attribute(list: &Vec<u8>, attribute_index: u8, add: bool) -> (longer: Vec<u8>)
    ensures
        longer@ == if add {
            list@.push(attribute_index)
        } else {
            list@
        },
{
    let mut longer: Vec<u8> = Vec::new();
    let mut index: usize = 0;
    while index < list.len()
        invariant
            index <= list@.len(),
            longer@ == list@.take(index as int),
        decreases list@.len() - index,
    {
        longer.push(list[index]);
        assert(list@.take(index + 1) == list@.take(index as int).push(list@[index as int]));
        index += 1;
    }
    assert(list@.take(list@.len() as int) == list@);
    if add {
        longer.push(attribute_index);
    }
    longer
}

impl Tree {
    /// A tree without elements, with the settings of this one and a copy
    /// of its random number generator.
    fn replacement(&self) -> (tree: Tree)
        ensures
            tree.vacant_below(1),
            forall|id: u64| #[trigger] tree.vacant_at(id),
            tree.distinct_slots(),
            tree.accounted(0),
            tree.tests().len() == 0,
            tree.num_robust_nodes == 0,
            tree.alternative_subtrees@.len() == 0,
            tree.index == self.index,
            tree.num_attributes == self.num_attributes,
            tree.min_leaf_size == self.min_leaf_size,
            tree.num_attributes_to_try_per_split == self.num_attributes_to_try_per_split,
            tree.max_tries_per_split == self.max_tries_per_split,
    {
        let tree = Tree {
            index: self.index,
            rng: clone_rng(&self.rng),
            tree_elements: new_element_map(),
            open_nodes: new_slot_map(),
            alternative_subtrees: Vec::new(),
            num_attributes: self.num_attributes,
            min_leaf_size: self.min_leaf_size,
            num_attributes_to_try_per_split: self.num_attributes_to_try_per_split,
            max_tries_per_split: self.max_tries_per_split,
            num_robust_nodes: 0,
            num_non_robust_nodes: 0,
        };
        assert(tree.tests() =~= Set::<u64>::empty());
        tree
    }

    /// Trees with the same elements hold the same tests.
    pub(crate) proof fn lemma_same_tests(&self, other: &Tree)
        requires
            self.tree_elements == other.tree_elements,
        ensures
            self.tests() == other.tests(),
    {
        assert(self.tests() =~= other.tests());
    }

    /// Trees with the same elements and alternatives, which have counted
    /// as many open positions, have their open positions in order
    /// together.
    pub(crate) proof fn lemma_same_open_positions(&self, other: &Tree)
        requires
            self.tree_elements == other.tree_elements,
            self.open_nodes == other.open_nodes,
            self.alternative_subtrees == other.alternative_subtrees,
            self.num_non_robust_nodes == other.num_non_robust_nodes,
        ensures
            other.opened_in_order() ==> self.opened_in_order(),
    {
        if other.opened_in_order() {
            assert forall|id: u64| (#[trigger] self.slot(id)).is_some() implies self.element(id).is_none() by {
                assert(other.slot(id).is_some());
            }
            assert forall|k: int| 0 <= k < self.alternative_subtrees.len() implies #[trigger] self.is_in_use(k) by {
                assert(other.is_in_use(k));
                let position = choose|position: u64| #[trigger] other.slot(position) == Some(k as usize);
                assert(self.slot(position) == Some(k as usize));
            }
        }
    }

    /// A tree with an element more at a position that held none, and the
    /// open positions of this tree, has its open positions in order, and
    /// holds one test more where the element is a test.
    pub(crate) proof fn lemma_one_element_more(&self, later: &Tree, id: u64, element: TreeElement)
        requires
            self.vacant_at(id),
            elements_of(later.tree_elements) == elements_of(self.tree_elements).insert(
                id,
                element,
            ),
            later.open_nodes == self.open_nodes,
            later.alternative_subtrees == self.alternative_subtrees,
            later.num_non_robust_nodes == self.num_non_robust_nodes,
        ensures
            self.opened_in_order() ==> later.opened_in_order(),
            later.tests() == if element is Node {
                self.tests().insert(id)
            } else {
                self.tests()
            },
            !self.tests().contains(id),
    {
        if element is Node {
            assert(later.tests() =~= self.tests().insert(id));
        } else {
            assert(later.tests() =~= self.tests());
        }
        if self.opened_in_order() {
            assert forall|other: u64| (#[trigger] later.slot(other)).is_some() implies later.element(other).is_none() by {
                assert(self.slot(other).is_some());
            }
            assert forall|k: int| 0 <= k < later.alternative_subtrees.len() implies #[trigger] later.is_in_use(k) by {
                assert(self.is_in_use(k));
                let position = choose|position: u64| #[trigger] self.slot(position) == Some(k as usize);
                assert(later.slot(position) == Some(k as usize));
            }
        }
    }

    /// Trees with the same open positions and as many lists of
    /// alternatives have distinct slots together.
    pub(crate) proof fn lemma_same_slots(&self, other: &Tree)
        requires
            self.open_nodes == other.open_nodes,
            self.alternative_subtrees@.len() == other.alternative_subtrees@.len(),
        ensures
            other.distinct_slots() ==> self.distinct_slots(),
    {
        if other.distinct_slots() {
            assert forall|id: u64, next: u64|
                #![trigger self.slot(id), self.slot(next)]
                self.slot(id).is_some() && self.slot(id) == self.slot(next) implies id == next && self.slot(
                id,
            ).unwrap() < self.alternative_subtrees.len() by {
                assert(other.slot(id) == other.slot(next));
            }
        }
    }

    /// Ends the tree at a position with a leaf that counts the samples.
    fn end_with_leaf<S: Sample>(&mut self, samples: &Vec<S>, from: usize, to: usize, current_id: u64)
        requires
            1 <= current_id,
            from <= to <= samples@.len() <= u32::MAX,
            old(self).vacant_at(current_id),
            old(self).opened_in_order(),
            old(self).tests().finite(),
        ensures
            final(self).complete(current_id),
            old(self).grown_below(final(self), current_id),
            final(self).opened_in_order(),
            old(self).counted_on(final(self), 0),
            final(self).rng == old(self).rng,
            final(self).alternative_subtrees == old(self).alternative_subtrees,
            final(self).open_nodes == old(self).open_nodes,
            elements_of(final(self).tree_elements) == elements_of(old(self).tree_elements).insert(
                current_id,
                TreeElement::Leaf {
                    num_samples: (to - from) as u32,
                    num_plus: count_plus(samples@.subrange(from as int, to as int)) as u32,
                },
            ),
            final(self).element(current_id) == Some(
                TreeElement::Leaf {
                    num_samples: (to - from) as u32,
                    num_plus: count_plus(samples@.subrange(from as int, to as int)) as u32,
                },
            ),
            final(self).live_count(current_id) == to - from,
            final(self).balanced(current_id),
            old(self).distinct_slots() ==> final(self).distinct_slots(),
            final(self).tallies(current_id, samples@.subrange(from as int, to as int).to_multiset()),
    {
        let (num_samples, num_plus) = count_samples(samples, from, to);
        let leaf = Tree::leaf(num_samples, num_plus);
        put_element(&mut self.tree_elements, current_id, leaf);
        proof {
            lemma_counted_is_tallied(
                samples@.subrange(from as int, to as int),
                &Split::Numerical { attribute_index: 0, cut_off: 0 },
            );
            assert(is_below(current_id, current_id));
            assert forall|id: u64| !is_below(id, current_id) implies #[trigger] old(self).agrees_at(self, id) by {}
            self.lemma_same_slots(old(self));
            old(self).lemma_one_element_more(self, current_id, leaf);
        }
    }

    /// Decides what the tree holds at a position for the samples from
    /// `from` up to `to`, and grows the subtree below it.
    ///
    /// A leaf, where no attribute is left to test or the position can have
    /// no children. Else candidates are drawn: where the champion is
    /// robust against every rival, the tree tests it and goes on with
    /// either part of the samples. Where no candidate has a positive score,
    /// or a rival can overturn the champion, new candidates are drawn, up
    /// to the number of tries. After the last try the position becomes a
    /// leaf, where there is no champion, and an open position else: the
    /// champion and the rivals that can overturn it become alternatives.
    pub(crate) fn determine_split<D: Dataset, S: Sample>(
        &mut self,
        impurity_before: u64,
        target_robustness: usize,
        samples: &mut Vec<S>,
        from: usize,
        to: usize,
        dataset: &D,
        current_id: u64,
        num_tries: usize,
        constant_attribute_indexes: &Vec<u8>,
    )
        requires
            1 <= current_id,
            from <= to <= old(samples)@.len() <= u32::MAX,
            impurity_before <= SCORE_SCALE,
            old(self).num_attributes == dataset.spec_num_attributes(),
            describes(dataset, old(samples)@),
            old(self).vacant_below(current_id),
            old(self).distinct_slots(),
            old(self).opened_in_order(),
            old(self).tests().finite(),
        ensures
            final(self).complete(current_id),
            old(self).grown_below(final(self), current_id),
            rearranged_within(old(samples)@, final(samples)@, from as int, to as int),
            final(self).live_count(current_id) == to - from,
            final(self).balanced(current_id),
            final(self).distinct_slots(),
            final(self).opened_in_order(),
            old(self).counted_on(final(self), 0),
            final(self).tallies(current_id, old(samples)@.subrange(from as int, to as int).to_multiset()),
            final(self).tests_within(dataset, current_id),
            final(self).decided(
                dataset,
                current_id,
                old(samples)@.subrange(from as int, to as int).to_multiset(),
                target_robustness as nat,
                impurity_before as int,
                constant_attribute_indexes@,
                num_tries as nat,
                None,
            ),
            constant_attribute_indexes@.len() == dataset.spec_num_attributes() || current_id > MAX_INNER_ID ==> {
                &&& final(self).element(current_id) == Some(
                    leaf_of(old(samples)@.subrange(from as int, to as int).to_multiset()),
                )
                &&& final(self).rng == old(self).rng
            },
            final(self).element(current_id) matches Some(TreeElement::Leaf { .. }) ==> {
                &&& elements_of(final(self).tree_elements) == elements_of(old(self).tree_elements).insert(
                    current_id,
                    leaf_of(old(samples)@.subrange(from as int, to as int).to_multiset()),
                )
                &&& final(self).open_nodes == old(self).open_nodes
                &&& final(self).alternative_subtrees == old(self).alternative_subtrees
                &&& final(samples)@ == old(samples)@
            },
        decreases
                u64::MAX - current_id,
                2 + (if num_tries < old(self).max_tries_per_split {
                    old(self).max_tries_per_split - num_tries
                } else {
                    0
                }),
    {
        proof {
            assert forall|i: int| from <= i < to implies stood_within(
                samples@,
                #[trigger] samples@[i],
                from as int,
                to as int,
            ) by {}
        }
        // All attributes are constant, or the position is too deep to have
        // children: the tree ends here.
        assert(is_below(current_id, current_id));
        if constant_attribute_indexes.len() == dataset.num_attributes() as usize || current_id > MAX_INNER_ID {
            self.end_with_leaf(samples, from, to, current_id);
            return;
        }
        let candidate_splits = self.generate_candidate_splits(dataset, constant_attribute_indexes);
        proof {
            self.lemma_same_tests(old(self));
            self.lemma_same_open_positions(old(self));
        }
        assert(old(self).grown_below(self, current_id)) by {
            assert forall|id: u64| !is_below(id, current_id) implies #[trigger] old(self).agrees_at(self, id) by {}
        }
        assert(self.vacant_below(current_id)) by {
            assert forall|id: u64| is_below(id, current_id) implies #[trigger] self.vacant_at(id) by {
                assert(old(self).vacant_at(id));
            }
        }
        proof {
            self.lemma_same_slots(old(self));
        }

        let split_stats = {
            let part = slice_subrange(samples.as_slice(), from, to);
            assert(describes(dataset, part@)) by {
                assert forall|i: int, attribute_index: u8|
                    0 <= i < part@.len() && attribute_index < dataset.spec_num_attributes() implies #[trigger] part@[i].has_attribute(
                    attribute_index,
                ) by {
                    assert(part@[i] == samples@[from + i]);
                    assert(samples@[from + i].has_attribute(attribute_index));
                }
            }
            compute_split_stats(impurity_before, part, dataset, &candidate_splits)
        };

        let ghost drawn = *self;
        let ghost all = samples@.subrange(from as int, to as int).to_multiset();
        proof {
            lemma_scored_draw(
                dataset,
                samples@.subrange(from as int, to as int),
                candidate_splits@,
                split_stats@,
                impurity_before as int,
                constant_attribute_indexes@,
                self.num_attributes_to_try_per_split,
            );
        }
        let index_of_best_stats = match next_step(
            &split_stats,
            num_tries,
            self.max_tries_per_split,
            target_robustness,
        ) {
            Step::Retry => {
                self.determine_split(
                    impurity_before,
                    target_robustness,
                    samples,
                    from,
                    to,
                    dataset,
                    current_id,
                    num_tries + 1,
                    constant_attribute_indexes,
                );
                proof {
                    old(self).lemma_grown_again(&drawn, self, current_id);
                    assert(self.max_tries_per_split == old(self).max_tries_per_split);
                    assert(self.num_attributes_to_try_per_split == old(self).num_attributes_to_try_per_split);
                    self.lemma_decided_after_retry(
                        dataset,
                        current_id,
                        all,
                        target_robustness as nat,
                        impurity_before as int,
                        constant_attribute_indexes@,
                        num_tries as nat,
                        candidate_splits@,
                        split_stats@,
                    );
                }
                return;
            },
            Step::Leaf => {
                self.end_with_leaf(samples, from, to, current_id);
                proof {
                    old(self).lemma_grown_again(&drawn, self, current_id);
                    assert(is_draw(
                        candidate_splits@,
                        split_stats@,
                        dataset,
                        all,
                        impurity_before as int,
                        constant_attribute_indexes@,
                        self.num_attributes_to_try_per_split,
                    ));
                    lemma_no_retry(
                        dataset,
                        all,
                        target_robustness as nat,
                        impurity_before as int,
                        constant_attribute_indexes@,
                        self.num_attributes_to_try_per_split,
                    );
                    assert(self.max_tries_per_split == old(self).max_tries_per_split);
                }
                return;
            },
            Step::Open { best } => best,
            Step::Split { best } => {
                let best_split_candidate = candidate_splits[best];
                let best_split_stats = split_stats[best];
                assert(is_candidate(candidate_splits@[best as int], dataset, constant_attribute_indexes@));
                if self.num_robust_nodes < usize::MAX {
                    self.num_robust_nodes += 1;
                }
                proof {
                    assert forall|id: u64| is_below(id, current_id) implies #[trigger] self.vacant_at(id) by {
                        assert(old(self).vacant_at(id));
                    }
                    lemma_counts_fit(samples@.subrange(from as int, to as int), &best_split_candidate);
                    assert(split_stats@[best as int] == counted(
                        samples@.subrange(from as int, to as int),
                        &candidate_splits@[best as int],
                    ).scored_against(impurity_before as int));
                    self.lemma_same_slots(&drawn);
                    self.lemma_same_tests(&drawn);
                    self.lemma_same_open_positions(&drawn);
                }
                let ghost before = *self;
                self.split_and_continue(
                    target_robustness,
                    samples,
                    from,
                    to,
                    dataset,
                    current_id,
                    constant_attribute_indexes,
                    &best_split_candidate,
                    &best_split_stats,
                );
                proof {
                    assert forall|id: u64| !is_below(id, current_id) implies #[trigger] old(self).agrees_at(self, id) by {
                        assert(before.agrees_at(self, id));
                    }
                    assert(is_draw(
                        candidate_splits@,
                        split_stats@,
                        dataset,
                        all,
                        impurity_before as int,
                        constant_attribute_indexes@,
                        self.num_attributes_to_try_per_split,
                    ));
                    assert(is_champion(split_stats@, best as int));
                    assert(candidate_splits@[best as int] == best_split_candidate);
                }
                return;
            },
        };
        proof {
            assert forall|id: u64| is_below(id, current_id) implies #[trigger] self.vacant_at(id) by {
                assert(old(self).vacant_at(id));
            }
            self.lemma_same_slots(&drawn);
            assert forall|i: int| 0 <= i < split_stats@.len() implies (#[trigger] split_stats@[i]).same_counts(
                counted(samples@.subrange(from as int, to as int), &candidate_splits@[i]),
            ) by {
                crate::scan::lemma_buckets_partition(
                    samples@.subrange(from as int, to as int),
                    &candidate_splits@[i],
                );
            }
        }
        let ghost before = *self;
        self.open_position(
            target_robustness,
            samples,
            from,
            to,
            dataset,
            current_id,
            constant_attribute_indexes,
            &candidate_splits,
            &split_stats,
            index_of_best_stats,
        );
        proof {
            old(self).lemma_grown_again(&before, self, current_id);
            lemma_no_retry(
                dataset,
                all,
                target_robustness as nat,
                impurity_before as int,
                constant_attribute_indexes@,
                self.num_attributes_to_try_per_split,
            );
            assert(self.max_tries_per_split == old(self).max_tries_per_split);
            self.lemma_opened_is_decided(
                dataset,
                current_id,
                all,
                target_robustness as nat,
                impurity_before as int,
                constant_attribute_indexes@,
                num_tries as nat,
                candidate_splits@,
                split_stats@,
                index_of_best_stats as int,
            );
        }
    }

    /// Opens a position: the champion and the rivals that can overturn it
    /// become alternatives, the one with the highest score first. Each
    /// gets a subtree of its own, grown on a copy of the samples: that of
    /// the champion with the whole budget, that of a rival with what is
    /// left of the budget once the rival has overturned the champion.
    fn open_position<D: Dataset, S: Sample>(
        &mut self,
        target_robustness: usize,
        samples: &Vec<S>,
        from: usize,
        to: usize,
        dataset: &D,
        current_id: u64,
        constant_attribute_indexes: &Vec<u8>,
        candidate_splits: &Vec<Split>,
        split_stats: &Vec<SplitStats>,
        index_of_best_stats: usize,
    )
        requires
            1 <= current_id <= MAX_INNER_ID,
            from <= to <= samples@.len() <= u32::MAX,
            old(self).num_attributes == dataset.spec_num_attributes(),
            describes(dataset, samples@),
            old(self).vacant_below(current_id),
            old(self).distinct_slots(),
            old(self).opened_in_order(),
            old(self).tests().finite(),
            split_stats@.len() == candidate_splits@.len(),
            is_champion(split_stats@, index_of_best_stats as int),
            scores_in_range(split_stats@),
            forall|i: int|
                0 <= i < candidate_splits@.len() ==> is_candidate(
                    #[trigger] candidate_splits@[i],
                    dataset,
                    constant_attribute_indexes@,
                ),
            forall|i: int|
                0 <= i < split_stats@.len() ==> (#[trigger] split_stats@[i]).impurity_left <= SCORE_SCALE
                    && split_stats@[i].impurity_right <= SCORE_SCALE,
            forall|i: int|
                0 <= i < split_stats@.len() ==> (#[trigger] split_stats@[i]).same_counts(
                    counted(samples@.subrange(from as int, to as int), &candidate_splits@[i]),
                ),
            forall|i: int|
                0 <= i < split_stats@.len() ==> ((#[trigger] split_stats@[i]).spec_has_positive_score()
                    ==> split_stats@[i].has_impurities()),
        ensures
            final(self).opened_with(
                dataset,
                current_id,
                samples@.subrange(from as int, to as int).to_multiset(),
                target_robustness as nat,
                constant_attribute_indexes@,
                candidate_splits@,
                split_stats@,
                index_of_best_stats as int,
            ),
            final(self).complete(current_id),
            old(self).grown_below(final(self), current_id),
            final(self).live_count(current_id) == to - from,
            final(self).balanced(current_id),
            final(self).distinct_slots(),
            final(self).opened_in_order(),
            old(self).counted_on(final(self), 0),
            final(self).tallies(current_id, samples@.subrange(from as int, to as int).to_multiset()),
            final(self).tests_within(dataset, current_id),
        decreases u64::MAX - current_id, 1int,
    {
        let mut alternative_splits = non_robust_rivals(split_stats, index_of_best_stats, target_robustness);

        alternative_splits.push((index_of_best_stats, 0));
        assert(alternative_splits@ == contenders(split_stats@, index_of_best_stats as int, target_robustness as nat));
        let ghost all = samples@.subrange(from as int, to as int).to_multiset();

        let mut alternative_trees: Vec<AlternativeTree> = Vec::with_capacity(alternative_splits.len());

        let mut position: usize = 0;
        while position < alternative_splits.len()
            invariant
                1 <= current_id <= MAX_INNER_ID,
                from <= to <= samples@.len() <= u32::MAX,
                describes(dataset, samples@),
                self.num_attributes == dataset.spec_num_attributes(),
                *self == *old(self),
                position <= alternative_splits@.len(),
                alternative_trees@.len() == position,
                split_stats@.len() == candidate_splits@.len(),
                forall|i: int|
                    0 <= i < candidate_splits@.len() ==> is_candidate(
                        #[trigger] candidate_splits@[i],
                        dataset,
                        constant_attribute_indexes@,
                    ),
                forall|i: int|
                    0 <= i < split_stats@.len() ==> (#[trigger] split_stats@[i]).impurity_left <= SCORE_SCALE
                        && split_stats@[i].impurity_right <= SCORE_SCALE,
                forall|i: int|
                    0 <= i < split_stats@.len() ==> (#[trigger] split_stats@[i]).same_counts(
                        counted(samples@.subrange(from as int, to as int), &candidate_splits@[i]),
                    ),
                forall|i: int|
                    0 <= i < split_stats@.len() ==> ((#[trigger] split_stats@[i]).spec_has_positive_score()
                        ==> split_stats@[i].has_impurities()),
                all == samples@.subrange(from as int, to as int).to_multiset(),
                forall|i: int|
                    0 <= i < alternative_splits@.len() ==> (#[trigger] alternative_splits@[i]).0 < split_stats@.len()
                        && alternative_splits@[i].1 <= target_robustness && split_stats@[alternative_splits@[i].0 as int].spec_has_positive_score(),
                forall|i: int|
                    0 <= i < alternative_trees@.len() ==> {
                        &&& (#[trigger] alternative_trees@[i]).split == candidate_splits@[alternative_splits@[i].0 as int]
                        &&& alternative_trees@[i].split_stats == split_stats@[alternative_splits@[i].0 as int]
                        &&& alternative_trees@[i].tree.decided(
                            dataset,
                            current_id,
                            all,
                            (target_robustness - alternative_splits@[i].1) as nat,
                            0,
                            constant_attribute_indexes@,
                            0,
                            Some(alternative_trees@[i].split),
                        )
                    },
                forall|i: int|
                    0 <= i < alternative_trees@.len() ==> {
                        &&& (#[trigger] alternative_trees@[i]).tree.num_attributes == self.num_attributes
                        &&& alternative_trees@[i].split.spec_attribute_index() < self.num_attributes
                        &&& alternative_trees@[i].tree.complete(current_id)
                        &&& alternative_trees@[i].tree.balanced(current_id)
                        &&& alternative_trees@[i].tree.distinct_slots()
                        &&& alternative_trees@[i].tree.accounted(1)
                        &&& alternative_trees@[i].tree.live_count(current_id) == to - from
                        &&& alternative_trees@[i].split_stats.num_samples() == to - from
                        &&& alternative_trees@[i].tree.tallies(
                            current_id,
                            samples@.subrange(from as int, to as int).to_multiset(),
                        )
                        &&& counts_match(
                            alternative_trees@[i].split_stats,
                            samples@.subrange(from as int, to as int).to_multiset(),
                            &alternative_trees@[i].split,
                        )
                        &&& is_test_of(alternative_trees@[i].split, dataset)
                        &&& alternative_trees@[i].tree.tests_within(dataset, current_id)
                    },
            decreases alternative_splits@.len() - position,
        {
            let (index, num_removals_required_to_break_split) = alternative_splits[position];
            let alternative_target_robustness = target_robustness - num_removals_required_to_break_split;

            let mut copy_of_samples = slice_to_vec(slice_subrange(samples.as_slice(), from, to));
            let replacement_tree = self.replacement();

            let alternative_candidate_split = candidate_splits[index];
            let alternative_split_stats = split_stats[index];
            assert(is_candidate(candidate_splits@[index as int], dataset, constant_attribute_indexes@));

            let mut alternative_tree = AlternativeTree {
                split: alternative_candidate_split,
                split_stats: alternative_split_stats,
                tree: replacement_tree,
            };
            proof {
                assert(copy_of_samples@ == samples@.subrange(from as int, to as int));
                assert(copy_of_samples@.subrange(0, copy_of_samples@.len() as int) == copy_of_samples@);
                assert forall|i: int, attribute_index: u8|
                    0 <= i < copy_of_samples@.len() && attribute_index < dataset.spec_num_attributes() implies #[trigger] copy_of_samples@[i].has_attribute(
                    attribute_index,
                ) by {
                    assert(copy_of_samples@[i] == samples@[from + i]);
                    assert(samples@[from + i].has_attribute(attribute_index));
                }
                assert forall|id: u64| is_below(id, current_id) implies #[trigger] alternative_tree.tree.vacant_at(
                    id,
                ) by {}
                lemma_counts_fit(samples@.subrange(from as int, to as int), &alternative_candidate_split);
                lemma_counted_is_tallied(
                    samples@.subrange(from as int, to as int),
                    &alternative_candidate_split,
                );
                crate::scan::lemma_buckets_partition(
                    samples@.subrange(from as int, to as int),
                    &alternative_candidate_split,
                );
                assert(split_stats@[index as int].same_counts(
                    counted(samples@.subrange(from as int, to as int), &candidate_splits@[index as int]),
                ));
            }
            let count = copy_of_samples.len();
            alternative_tree.tree.split_and_continue(
                alternative_target_robustness,
                &mut copy_of_samples,
                0,
                count,
                dataset,
                current_id,
                constant_attribute_indexes,
                &alternative_candidate_split,
                &alternative_split_stats,
            );

            alternative_trees.push(alternative_tree);
            position += 1;
        }
        // The alternative with the highest score comes first.
        let ghost unsorted = alternative_trees@;
        sort_alternatives(&mut alternative_trees);

        let slot = self.alternative_subtrees.len();
        let ghost before = *self;
        self.alternative_subtrees.push(alternative_trees);
        put_slot(&mut self.open_nodes, current_id, slot);
        let num_lists = self.alternative_subtrees.len();
        if self.num_non_robust_nodes < num_lists {
            self.num_non_robust_nodes += 1;
        }
        proof {
            lemma_sorted_is_rearranged(unsorted);
            lemma_sorted_is_ordered(unsorted);
            self.lemma_same_tests(old(self));
            assert(is_below(current_id, current_id));
            assert(before.vacant_at(current_id));
            assert(self.opened_in_order()) by {
                assert forall|id: u64| (#[trigger] self.slot(id)).is_some() implies self.element(id).is_none() by {
                    if id != current_id {
                        assert(before.slot(id).is_some());
                    }
                }
                assert forall|k: int| 0 <= k < self.alternative_subtrees.len() implies #[trigger] self.is_in_use(k) by {
                    if k < slot {
                        assert(before.is_in_use(k));
                        let position = choose|position: u64| #[trigger] before.slot(position) == Some(k as usize);
                        assert(self.slot(position) == Some(k as usize));
                    } else {
                        assert(self.slot(current_id) == Some(k as usize));
                    }
                }
            }
            assert(is_below(current_id, current_id));
            assert(old(self).vacant_at(current_id));
            assert(self.element(current_id).is_none());
            assert(self.alternatives(current_id) == Some(sorted_by_score(unsorted)));
            assert(unsorted.len() == contenders(
                split_stats@,
                index_of_best_stats as int,
                target_robustness as nat,
            ).len());
            assert forall|j: int| 0 <= j < sorted_by_score(unsorted).len() implies {
                &&& (#[trigger] sorted_by_score(unsorted)[j]).tree.num_attributes == self.num_attributes
                &&& sorted_by_score(unsorted)[j].split.spec_attribute_index() < self.num_attributes
                &&& sorted_by_score(unsorted)[j].tree.complete(current_id)
                &&& sorted_by_score(unsorted)[j].tree.balanced(current_id)
                &&& sorted_by_score(unsorted)[j].tree.distinct_slots()
                &&& sorted_by_score(unsorted)[j].tree.accounted(1)
                &&& sorted_by_score(unsorted)[j].tree.live_count(current_id) == to - from
                &&& sorted_by_score(unsorted)[j].split_stats.num_samples() == to - from
                &&& sorted_by_score(unsorted)[j].tree.tallies(
                    current_id,
                    samples@.subrange(from as int, to as int).to_multiset(),
                )
                &&& counts_match(
                    sorted_by_score(unsorted)[j].split_stats,
                    samples@.subrange(from as int, to as int).to_multiset(),
                    &sorted_by_score(unsorted)[j].split,
                )
                &&& is_test_of(sorted_by_score(unsorted)[j].split, dataset)
                &&& sorted_by_score(unsorted)[j].tree.tests_within(dataset, current_id)
            } by {
                let i = choose|i: int| 0 <= i < unsorted.len() && unsorted[i] == sorted_by_score(unsorted)[j];
                assert(unsorted[i].tree.complete(current_id));
            }
            assert forall|id: u64| !is_below(id, current_id) implies #[trigger] old(self).agrees_at(self, id) by {}
            assert forall|id: u64, next: u64|
                #![trigger self.slot(id), self.slot(next)]
                self.slot(id).is_some() && self.slot(id) == self.slot(next) implies id == next && self.slot(
                id,
            ).unwrap() < self.alternative_subtrees.len() by {
                if id != current_id && next != current_id {
                    assert(before.slot(id) == before.slot(next));
                } else if id != current_id {
                    assert(before.slot(id) == before.slot(id));
                } else if next != current_id {
                    assert(before.slot(next) == before.slot(next));
                }
            }
            assert(sorted_by_score(unsorted)[0].tree.live_count(current_id) == to - from);
        }
    }

    /// Puts a test at a position, divides the samples by it, and grows the
    /// subtree on either side: a leaf where few samples are left or all of
    /// them have one label, a subtree of its own else.
    #[verifier::rlimit(60)]
    pub(crate) fn split_and_continue<D: Dataset, S: Sample>(
        &mut self,
        target_robustness: usize,
        samples: &mut Vec<S>,
        from: usize,
        to: usize,
        dataset: &D,
        current_id: u64,
        constant_attribute_indexes: &Vec<u8>,
        best_split: &Split,
        best_split_stats: &SplitStats,
    )
        requires
            1 <= current_id <= MAX_INNER_ID,
            from <= to <= old(samples)@.len() <= u32::MAX,
            old(self).num_attributes == dataset.spec_num_attributes(),
            describes(dataset, old(samples)@),
            old(self).vacant_below(current_id),
            is_test_of(*best_split, dataset),
            best_split_stats.impurity_left <= SCORE_SCALE,
            best_split_stats.impurity_right <= SCORE_SCALE,
            best_split_stats.same_counts(counted(old(samples)@.subrange(from as int, to as int), best_split)),
            best_split_stats.has_impurities(),
            old(self).distinct_slots(),
            old(self).opened_in_order(),
            old(self).tests().finite(),
        ensures
            final(self).decided(
                dataset,
                current_id,
                old(samples)@.subrange(from as int, to as int).to_multiset(),
                target_robustness as nat,
                0,
                constant_attribute_indexes@,
                0,
                Some(*best_split),
            ),
            final(self).complete(current_id),
            old(self).grown_below(final(self), current_id),
            rearranged_within(old(samples)@, final(samples)@, from as int, to as int),
            final(self).live_count(current_id) == to - from,
            final(self).balanced(current_id),
            final(self).distinct_slots(),
            final(self).opened_in_order(),
            old(self).counted_on(final(self), 1),
            final(self).element(current_id) == Some(TreeElement::Node { split: *best_split }),
            final(self).tallies(current_id, old(samples)@.subrange(from as int, to as int).to_multiset()),
            final(self).tests_within(dataset, current_id),
        decreases u64::MAX - current_id, 0int,
    {
        proof {
            assert forall|i: int| 0 <= i < to - from implies (#[trigger] samples@.subrange(
                from as int,
                to as int,
            )[i]).has_attribute(best_split.spec_attribute_index()) by {
                assert(samples@.subrange(from as int, to as int)[i] == samples@[from + i]);
                assert(samples@[from + i].has_attribute(best_split.spec_attribute_index()));
            }
        }
        let ghost all = samples@.subrange(from as int, to as int).to_multiset();
        let (mid, constant_on_the_left, constant_on_the_right) = split(samples, from, to, best_split);
        let ghost divided = samples@;
        proof {
            lemma_rearranged_described(dataset, old(samples)@, divided, from as int, to as int);
            let range = divided.subrange(from as int, to as int);
            assert forall|i: int| 0 <= i < mid - from implies goes_left(&#[trigger] range[i], best_split) by {
                assert(range[i] == divided[from + i]);
            }
            assert forall|i: int| mid - from <= i < range.len() implies !goes_left(&#[trigger] range[i], best_split) by {
                assert(range[i] == divided[from + i]);
            }
            lemma_count_divided(range, best_split, mid - from);
            crate::scan::lemma_buckets_partition(old(samples)@.subrange(from as int, to as int), best_split);
            assert(best_split_stats.num_left() == mid - from);
            assert(best_split_stats.num_right() == to - mid);
            lemma_divided_sides(range, best_split, mid - from);
            assert(range.subrange(0, mid - from) == divided.subrange(from as int, mid as int));
            assert(range.subrange(mid - from, range.len() as int) == divided.subrange(mid as int, to as int));
            lemma_counted_is_tallied(old(samples)@.subrange(from as int, to as int), best_split);
            lemma_two_parts(on_side(all, best_split, true), best_split);
            lemma_two_parts(on_side(all, best_split, false), best_split);
            lemma_constant_is_uniform(divided.subrange(from as int, mid as int), best_split.spec_attribute_index());
            lemma_constant_is_uniform(divided.subrange(mid as int, to as int), best_split.spec_attribute_index());
        }
        let ghost on_left = on_side(all, best_split, true);
        let ghost on_right = on_side(all, best_split, false);
        let ghost constant_left = constant_within(
            constant_attribute_indexes@,
            on_left,
            best_split.spec_attribute_index(),
        );
        let ghost constant_right = constant_within(
            constant_attribute_indexes@,
            on_right,
            best_split.spec_attribute_index(),
        );

        let node = Tree::node(*best_split);

        put_element(&mut self.tree_elements, current_id, node);

        let left_child_id = current_id * 2;
        let right_child_id = (current_id * 2) + 1;
        let ghost with_node = *self;
        proof {
            self.lemma_same_slots(old(self));
            assert(is_below(current_id, current_id));
            old(self).lemma_one_element_more(self, current_id, node);
            assert forall|id: u64| is_below(id, left_child_id) || is_below(id, right_child_id) implies #[trigger] self.vacant_at(
                id,
            ) by {
                lemma_below_child(id, current_id);
                assert(old(self).vacant_at(id));
            }
        }

        let label_constant_on_the_left = best_split_stats.num_minus_left == 0 || best_split_stats.num_plus_left
            == 0;

        if mid - from <= self.min_leaf_size || label_constant_on_the_left {
            let leaf = Tree::leaf(
                best_split_stats.num_plus_left + best_split_stats.num_minus_left,
                best_split_stats.num_plus_left,
            );

            put_element(&mut self.tree_elements, left_child_id, leaf);
            proof {
                assert(is_below(left_child_id, left_child_id));
                assert forall|id: u64| !is_below(id, left_child_id) implies #[trigger] with_node.agrees_at(self, id) by {}
                self.lemma_same_slots(&with_node);
                with_node.lemma_one_element_more(self, left_child_id, leaf);
            }
        } else {
            let attribute_index = best_split.attribute_index();
            let constant_attribute_indexes_left = with_attribute(
                constant_attribute_indexes,
                attribute_index,
                constant_on_the_left,
            );

            self.determine_split(
                best_split_stats.impurity_left,
                target_robustness,
                samples,
                from,
                mid,
                dataset,
                left_child_id,
                0,
                &constant_attribute_indexes_left,
            );
        }
        let ghost with_left = *self;
        let ghost left_done = samples@;
        assert(if mid - from <= self.min_leaf_size || label_constant_on_the_left {
            self.element(left_child_id) == Some(leaf_of(on_left))
        } else {
            self.decided(
                dataset,
                left_child_id,
                on_left,
                target_robustness as nat,
                impurity_of(on_left),
                constant_left,
                0,
                None,
            )
        });
        assert(self.complete(left_child_id));
        assert(with_node.grown_below(self, left_child_id));
        assert(self.live_count(left_child_id) == mid - from);
        assert(self.balanced(left_child_id));
        assert(self.distinct_slots());
        assert(self.opened_in_order());
        assert(old(self).counted_on(self, 1));
        assert(self.tallies(left_child_id, on_side(all, best_split, true)));
        assert(self.tests_within(dataset, left_child_id));
        assert(samples@.subrange(mid as int, to as int) == divided.subrange(mid as int, to as int));
        proof {
            lemma_rearranged_again(old(samples)@, divided, left_done, from as int, to as int, from as int, mid as int);
            lemma_rearranged_described(dataset, divided, left_done, from as int, mid as int);
            assert forall|id: u64| is_below(id, right_child_id) implies #[trigger] self.vacant_at(id) by {
                lemma_children_apart(id, current_id);
                assert(with_node.agrees_at(self, id));
                assert(with_node.vacant_at(id));
            }
        }

        let label_constant_on_the_right = best_split_stats.num_minus_right == 0 || best_split_stats.num_plus_right
            == 0;

        if to - mid <= self.min_leaf_size || label_constant_on_the_right {
            let leaf = Tree::leaf(
                best_split_stats.num_plus_right + best_split_stats.num_minus_right,
                best_split_stats.num_plus_right,
            );

            put_element(&mut self.tree_elements, right_child_id, leaf);
            proof {
                assert(is_below(right_child_id, right_child_id));
                assert forall|id: u64| !is_below(id, right_child_id) implies #[trigger] with_left.agrees_at(self, id) by {}
                self.lemma_same_slots(&with_left);
                with_left.lemma_one_element_more(self, right_child_id, leaf);
            }
        } else {
            let attribute_index = best_split.attribute_index();
            let constant_attribute_indexes_right = with_attribute(
                constant_attribute_indexes,
                attribute_index,
                constant_on_the_right,
            );

            self.determine_split(
                best_split_stats.impurity_right,
                target_robustness,
                samples,
                mid,
                to,
                dataset,
                right_child_id,
                0,
                &constant_attribute_indexes_right,
            );
        }
        assert(if to - mid <= self.min_leaf_size || label_constant_on_the_right {
            self.element(right_child_id) == Some(leaf_of(on_right))
        } else {
            self.decided(
                dataset,
                right_child_id,
                on_right,
                target_robustness as nat,
                impurity_of(on_right),
                constant_right,
                0,
                None,
            )
        });
        assert(self.complete(right_child_id));
        assert(with_left.grown_below(self, right_child_id));
        assert(self.live_count(right_child_id) == to - mid);
        assert(self.balanced(right_child_id));
        assert(self.distinct_slots());
        assert(self.tallies(right_child_id, on_side(all, best_split, false)));
        assert(self.tests_within(dataset, right_child_id));
        proof {
            lemma_rearranged_again(old(samples)@, left_done, samples@, from as int, to as int, mid as int, to as int);
            // The left subtree is as it was when it was finished.
            assert forall|id: u64| is_below(id, left_child_id) implies #[trigger] with_left.agrees_at(self, id) by {
                lemma_children_apart(id, current_id);
            }
            with_left.lemma_complete_elsewhere(self, left_child_id);
            assert forall|id: u64| is_below(id, left_child_id) implies #[trigger] self.element(id)
                == with_left.element(id) by {
                assert(with_left.agrees_at(self, id));
            }
            assert forall|id: u64| is_below(id, left_child_id) implies #[trigger] self.alternatives(id)
                == with_left.alternatives(id) by {
                assert(with_left.agrees_at(self, id));
                assert(with_left.slot(id) == with_left.slot(id));
            }
            with_left.lemma_counts_elsewhere(self, left_child_id);
            with_left.lemma_tallies_elsewhere(self, left_child_id, on_side(all, best_split, true));
            with_left.lemma_tests_elsewhere(self, dataset, left_child_id);
            with_left.lemma_decided_elsewhere(
                self,
                left_child_id,
                dataset,
                on_left,
                target_robustness as nat,
                impurity_of(on_left),
                constant_left,
                0,
                None,
            );
            assert(is_below(left_child_id, left_child_id));
            assert(with_left.agrees_at(self, left_child_id));
            // The test is where it was put.
            assert(!is_below(current_id, left_child_id)) by {
                if is_below(current_id, left_child_id) {
                    lemma_below_child(current_id, current_id);
                }
            }
            assert(!is_below(current_id, right_child_id)) by {
                if is_below(current_id, right_child_id) {
                    lemma_below_child(current_id, current_id);
                }
            }
            assert(with_node.agrees_at(&with_left, current_id));
            assert(with_left.agrees_at(self, current_id));
            assert(self.element(current_id) == Some(TreeElement::Node { split: *best_split }));
            // Nothing outside the subtree has changed.
            assert forall|id: u64| !is_below(id, current_id) implies #[trigger] old(self).agrees_at(self, id) by {
                if is_below(id, left_child_id) || is_below(id, right_child_id) {
                    lemma_below_child(id, current_id);
                }
                assert(with_node.agrees_at(&with_left, id));
                assert(with_left.agrees_at(self, id));
            }
        }
    }

    /// Fits a tree on the samples. The samples are rearranged.
    ///
    /// The generator of the tree is seeded from the seed and the index of
    /// the tree, so that the same arguments give the same tree.
    pub fn fit<D: Dataset, S: Sample>(
        dataset: &D,
        samples: &mut Vec<S>,
        seed: u64,
        tree_index: usize,
        min_leaf_size: usize,
        num_attributes_to_try_per_split: usize,
        target_robustness: usize,
        max_tries_per_split: usize,
    ) -> (tree: Tree)
        requires
            old(samples)@.len() <= u32::MAX,
            describes(dataset, old(samples)@),
            dataset.spec_num_plus() <= dataset.spec_num_records(),
        ensures
            tree.complete(1),
            tree.num_attributes == dataset.spec_num_attributes(),
            tree.index == tree_index,
            tree.min_leaf_size == min_leaf_size,
            tree.num_attributes_to_try_per_split == num_attributes_to_try_per_split,
            tree.max_tries_per_split == max_tries_per_split,
            rearranged_within(old(samples)@, final(samples)@, 0, old(samples)@.len() as int),
            tree.live_count(1) == old(samples)@.len(),
            tree.balanced(1),
            tree.distinct_slots(),
            tree.accounted(0),
            tree.wf(),
            tree.open_positions().finite(),
            tree.open_positions().len() == tree.num_non_robust_nodes,
            tree.tallies(1, old(samples)@.to_multiset()),
            tree.tests_within(dataset, 1),
            tree.decided(
                dataset,
                1,
                old(samples)@.to_multiset(),
                target_robustness as nat,
                gini_of(dataset.spec_num_plus() as int, dataset.spec_num_records() as int),
                Seq::empty(),
                0,
                None,
            ),
            forall|i: int| 0 <= i < old(samples)@.len() ==> tree.can_forget(&#[trigger] old(samples)@[i], 1),
    {
        let rng = seeded_rng(as_bytes(seed, tree_index as u64));

        let mut tree = Tree {
            index: tree_index,
            rng,
            tree_elements: new_element_map(),
            open_nodes: new_slot_map(),
            alternative_subtrees: Vec::new(),
            num_attributes: dataset.num_attributes(),
            min_leaf_size,
            num_attributes_to_try_per_split,
            max_tries_per_split,
            num_robust_nodes: 0,
            num_non_robust_nodes: 0,
        };

        let gini_initial = gini_impurity(dataset.num_plus(), dataset.num_records());

        let constant_attribute_indexes: Vec<u8> = Vec::new();
        let count = samples.len();
        proof {
            assert forall|id: u64| is_below(id, 1) implies #[trigger] tree.vacant_at(id) by {}
            assert(samples@.subrange(0, count as int) == samples@);
            assert(tree.tests() =~= Set::<u64>::empty());
        }
        tree.determine_split(
            gini_initial,
            target_robustness,
            samples,
            0,
            count,
            dataset,
            1,
            0,
            &constant_attribute_indexes,
        );
        proof {
            assert forall|i: int| 0 <= i < old(samples)@.len() implies tree.can_forget(
                &#[trigger] old(samples)@[i],
                1,
            ) by {
                let sample = old(samples)@[i];
                assert(old(samples)@.contains(sample));
                vstd::seq_lib::to_multiset_contains(old(samples)@, sample);
                tree.lemma_tallied_can_be_forgotten(1, old(samples)@.to_multiset(), &sample);
            }
            tree.lemma_open_positions_are_counted();
        }

        tree
    }
}

} // verus!
