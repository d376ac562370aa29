//! What fitting decides at every position of a tree.
//!
//! The candidates that are drawn at a position depend on the random
//! number generator, of which nothing is known. What the tree holds at the
//! position follows from them: for some draw of candidates, scored over
//! the samples that reach the position, the tree holds what the champion
//! of the draw and its rivals call for.

use vstd::prelude::*;
use vstd::multiset::Multiset;
use crate::candidates::{is_candidate, on_distinct_attributes, varying_attributes};
use crate::champion::{
    can_overturn, is_next_step, Step, is_champion, is_contested, lemma_rivals_are_listed, none_positive, overturning_rivals,
};
use crate::dataset::{Dataset, Sample};
use crate::partition::constant_on;
use crate::positions::{is_below, lemma_below_child};
use crate::robustness::robustness;
use crate::ranking::{lemma_sorted_is_ordered, lemma_sorted_is_rearranged, sorted_by_score};
use crate::split_stats::{gini_of, SplitStats};
use crate::tally::{counts_match, on_side, with_label};
use crate::tree::{AlternativeTree, Split, Tree, TreeElement, MAX_INNER_ID};

verus! {

/// All samples have the same value of the attribute.
pub open spec fn uniform<S: Sample>(samples: Multiset<S>, attribute_index: u8) -> bool {
    forall|one: S, other: S|
        #![trigger samples.count(one), samples.count(other)]
        samples.count(one) > 0 && samples.count(other) > 0 ==> one.spec_attribute_value(attribute_index)
            == other.spec_attribute_value(attribute_index)
}

/// The attributes that are known to be constant on a part of the samples:
/// those that were known to be constant on all of them, and the tested
/// one where it has one value on the part.
pub open spec fn constant_within<S: Sample>(constant: Seq<u8>, part: Multiset<S>, attribute_index: u8) -> Seq<u8> {
    if uniform(part, attribute_index) {
        constant.push(attribute_index)
    } else {
        constant
    }
}

/// The number of candidates of a draw: one for each attribute that the
/// tree tries, or for each that is not known to be constant where those
/// are fewer.
pub open spec fn drawn_count<D: Dataset>(dataset: &D, constant: Seq<u8>, tries: usize) -> int {
    let varying = varying_attributes(constant, dataset.spec_num_attributes() as int).len();
    if tries <= varying {
        tries as int
    } else {
        varying as int
    }
}

/// A draw at a position: candidates on distinct attributes, none of them
/// known to be constant, each with its statistics over the samples, scored
/// against the impurity of the samples.
pub open spec fn is_draw<D: Dataset, S: Sample>(
    candidates: Seq<Split>,
    all_stats: Seq<SplitStats>,
    dataset: &D,
    samples: Multiset<S>,
    impurity_before: int,
    constant: Seq<u8>,
    tries: usize,
) -> bool {
    &&& all_stats.len() == candidates.len()
    &&& candidates.len() == drawn_count(dataset, constant, tries)
    &&& on_distinct_attributes(candidates)
    &&& forall|i: int|
        0 <= i < candidates.len() ==> {
            &&& is_candidate(#[trigger] candidates[i], dataset, constant)
            &&& counts_match(all_stats[i], samples, &candidates[i])
            &&& all_stats[i] == all_stats[i].scored_against(impurity_before)
        }
}

/// A part of the samples ends in a leaf where it holds no more samples
/// than a leaf may, or samples of one label only.
pub open spec fn ends_in_leaf<S: Sample>(part: Multiset<S>, min_leaf_size: usize) -> bool {
    part.len() <= min_leaf_size || with_label(part, true).len() == 0 || with_label(part, false).len() == 0
}

/// The leaf that counts the samples.
pub open spec fn leaf_of<S: Sample>(samples: Multiset<S>) -> TreeElement {
    TreeElement::Leaf { num_samples: samples.len() as u32, num_plus: with_label(samples, true).len() as u32 }
}

/// The impurity of the samples.
pub open spec fn impurity_of<S: Sample>(samples: Multiset<S>) -> int {
    gini_of(with_label(samples, true).len() as int, samples.len() as int)
}

/// The budget under which the subtree of an alternative is grown: the
/// whole budget for the champion, and for a rival the budget less the
/// rounds that the search has used on the champion and the rival.
pub open spec fn budget_left(all_stats: Seq<SplitStats>, best: int, index: int, budget: nat) -> nat {
    if index == best {
        budget
    } else {
        (budget - robustness(all_stats[best], all_stats[index], budget).1) as nat
    }
}

/// The candidates that become alternatives at an open position, each with
/// the part of the budget that is used up: the rivals that can overturn
/// the champion, in the order of the draw, and then the champion.
pub open spec fn contenders(all_stats: Seq<SplitStats>, best: int, budget: nat) -> Seq<(usize, usize)> {
    overturning_rivals(all_stats, best, budget, all_stats.len() as int).push((best as usize, 0usize))
}

/// The number of draws that call for new candidates before the last draw
/// at a position that is opened, or ends in a leaf for want of a positive
/// score: one for each try that is left.
pub open spec fn tries_left(num_tries: nat, max_tries: usize) -> nat {
    if num_tries < max_tries {
        (max_tries - num_tries) as nat
    } else {
        0
    }
}

/// Each of the draws was made at the position, and called for new
/// candidates.
pub open spec fn were_retried<D: Dataset, S: Sample>(
    draws: Seq<(Seq<Split>, Seq<SplitStats>)>,
    dataset: &D,
    samples: Multiset<S>,
    budget: nat,
    impurity_before: int,
    constant: Seq<u8>,
    tries: usize,
) -> bool {
    forall|j: int|
        0 <= j < draws.len() ==> {
            &&& is_draw((#[trigger] draws[j]).0, draws[j].1, dataset, samples, impurity_before, constant, tries)
            &&& is_next_step(draws[j].1, true, budget, Step::Retry)
        }
}

/// Before the last draw at the position, `count` draws were made there
/// that called for new candidates.
pub open spec fn drew_before<D: Dataset, S: Sample>(
    dataset: &D,
    samples: Multiset<S>,
    budget: nat,
    impurity_before: int,
    constant: Seq<u8>,
    tries: usize,
    count: nat,
) -> bool {
    exists|earlier: Seq<(Seq<Split>, Seq<SplitStats>)>|
        #[trigger] were_retried(earlier, dataset, samples, budget, impurity_before, constant, tries) && earlier.len()
            == count
}

/// One more draw that called for new candidates, before those that were
/// made.
pub proof fn lemma_one_more_retry<D: Dataset, S: Sample>(
    dataset: &D,
    samples: Multiset<S>,
    budget: nat,
    impurity_before: int,
    constant: Seq<u8>,
    tries: usize,
    count: nat,
    candidates: Seq<Split>,
    all_stats: Seq<SplitStats>,
)
    requires
        is_draw(candidates, all_stats, dataset, samples, impurity_before, constant, tries),
        is_next_step(all_stats, true, budget, Step::Retry),
        drew_before(dataset, samples, budget, impurity_before, constant, tries, count),
    ensures
        drew_before(dataset, samples, budget, impurity_before, constant, tries, count + 1),
{
    let later = choose|later: Seq<(Seq<Split>, Seq<SplitStats>)>|
        #[trigger] were_retried(later, dataset, samples, budget, impurity_before, constant, tries) && later.len()
            == count;
    let earlier = seq![(candidates, all_stats)].add(later);
    assert forall|j: int| 0 <= j < earlier.len() implies {
        &&& is_draw((#[trigger] earlier[j]).0, earlier[j].1, dataset, samples, impurity_before, constant, tries)
        &&& is_next_step(earlier[j].1, true, budget, Step::Retry)
    } by {
        if j > 0 {
            assert(earlier[j] == later[j - 1]);
        }
    }
    assert(were_retried(earlier, dataset, samples, budget, impurity_before, constant, tries));
}

/// No draw is a run of none.
pub proof fn lemma_no_retry<D: Dataset, S: Sample>(
    dataset: &D,
    samples: Multiset<S>,
    budget: nat,
    impurity_before: int,
    constant: Seq<u8>,
    tries: usize,
)
    ensures
        drew_before(dataset, samples, budget, impurity_before, constant, tries, 0),
{
    let earlier = Seq::<(Seq<Split>, Seq<SplitStats>)>::empty();
    assert(were_retried(earlier, dataset, samples, budget, impurity_before, constant, tries));
}

/// Some alternative of the list tests the split.
pub open spec fn offers(list: Seq<AlternativeTree>, split: Split) -> bool {
    exists|j: int| 0 <= j < list.len() && (#[trigger] list[j]).split == split
}

/// The split is one of the candidates.
pub open spec fn is_among(candidates: Seq<Split>, split: Split) -> bool {
    exists|i: int| 0 <= i < candidates.len() && #[trigger] candidates[i] == split
}

/// A list of samples has one value of an attribute where the samples do.
pub proof fn lemma_constant_is_uniform<S: Sample>(samples: Seq<S>, attribute_index: u8)
    ensures
        constant_on(samples, attribute_index) == uniform(samples.to_multiset(), attribute_index),
{
    let all = samples.to_multiset();
    if constant_on(samples, attribute_index) {
        assert forall|one: S, other: S|
            #![trigger all.count(one), all.count(other)]
            all.count(one) > 0 && all.count(other) > 0 implies one.spec_attribute_value(attribute_index)
            == other.spec_attribute_value(attribute_index) by {
            vstd::seq_lib::to_multiset_contains(samples, one);
            vstd::seq_lib::to_multiset_contains(samples, other);
            let i = choose|i: int| 0 <= i < samples.len() && samples[i] == one;
            let j = choose|j: int| 0 <= j < samples.len() && samples[j] == other;
            assert(samples[i].spec_attribute_value(attribute_index) == samples[j].spec_attribute_value(
                attribute_index,
            ));
        }
    }
    if uniform(all, attribute_index) {
        assert forall|i: int, j: int|
            #![trigger samples[i], samples[j]]
            0 <= i < samples.len() && 0 <= j < samples.len() implies samples[i].spec_attribute_value(attribute_index)
            == samples[j].spec_attribute_value(attribute_index) by {
            assert(samples.contains(samples[i]) && samples.contains(samples[j]));
            vstd::seq_lib::to_multiset_contains(samples, samples[i]);
            vstd::seq_lib::to_multiset_contains(samples, samples[j]);
            assert(all.count(samples[i]) > 0 && all.count(samples[j]) > 0);
        }
    }
}

impl Tree {
    /// What the tree holds from a position on is what fitting decides for
    /// the samples that reach the position, under a budget of removals,
    /// with the attributes in `constant` known to have one value on the
    /// samples. The test at the position is `given`, or else decided by a
    /// draw of candidates that are scored against `impurity_before`.
    ///
    /// A leaf counts the samples. It stands where every attribute is
    /// constant, where the position can have no children, or where no
    /// candidate of the last draw has a positive score. Before the last
    /// draw at a position that ends in such a leaf, or is opened, as many
    /// draws as tries were left after `num_tries` called for new
    /// candidates. A test is the champion
    /// of some draw that no rival can overturn under the budget. On either
    /// side of a test stands a leaf where the part of the samples ends in
    /// one, and else what fitting decides for that part. An open position
    /// holds, by falling score, the champion of some draw and the rivals
    /// that can overturn it, each with its statistics and with a subtree
    /// that begins with its test and is decided under what is left of the
    /// budget.
    pub open spec fn decided<D: Dataset, S: Sample>(
        &self,
        dataset: &D,
        id: u64,
        samples: Multiset<S>,
        budget: nat,
        impurity_before: int,
        constant: Seq<u8>,
        num_tries: nat,
        given: Option<Split>,
    ) -> bool
        decreases self, u64::MAX - id,
    {
        match self.element(id) {
            Some(TreeElement::Leaf { .. }) => {
                &&& given.is_none()
                &&& self.element(id) == Some(leaf_of(samples))
                &&& {
                    ||| constant.len() == dataset.spec_num_attributes()
                    ||| id > MAX_INNER_ID
                    ||| {
                        &&& exists|candidates: Seq<Split>, all_stats: Seq<SplitStats>|
                            {
                                &&& #[trigger] is_draw(
                                    candidates,
                                    all_stats,
                                    dataset,
                                    samples,
                                    impurity_before,
                                    constant,
                                    self.num_attributes_to_try_per_split,
                                )
                                &&& none_positive(all_stats)
                            }
                        &&& drew_before(
                            dataset,
                            samples,
                            budget,
                            impurity_before,
                            constant,
                            self.num_attributes_to_try_per_split,
                            tries_left(num_tries, self.max_tries_per_split),
                        )
                    }
                }
            },
            Some(TreeElement::Node { split }) => {
                &&& 1 <= id <= MAX_INNER_ID
                &&& match given {
                    Some(test) => split == test,
                    None => constant.len() != dataset.spec_num_attributes() && exists|
                        candidates: Seq<Split>,
                        all_stats: Seq<SplitStats>,
                        best: int,
                    |
                        #![trigger
                            is_draw(
                                candidates,
                                all_stats,
                                dataset,
                                samples,
                                impurity_before,
                                constant,
                                self.num_attributes_to_try_per_split,
                            ),
                            is_champion(all_stats, best)
                        ]
                        {
                            &&& is_draw(
                                candidates,
                                all_stats,
                                dataset,
                                samples,
                                impurity_before,
                                constant,
                                self.num_attributes_to_try_per_split,
                            )
                            &&& is_champion(all_stats, best)
                            &&& !is_contested(all_stats, best, budget)
                            &&& candidates[best] == split
                        },
                }
                &&& if ends_in_leaf(on_side(samples, &split, true), self.min_leaf_size) {
                    self.element((2 * id) as u64) == Some(leaf_of(on_side(samples, &split, true)))
                } else {
                    self.decided(
                        dataset,
                        (2 * id) as u64,
                        on_side(samples, &split, true),
                        budget,
                        impurity_of(on_side(samples, &split, true)),
                        constant_within(constant, on_side(samples, &split, true), split.spec_attribute_index()),
                        0,
                        None,
                    )
                }
                &&& if ends_in_leaf(on_side(samples, &split, false), self.min_leaf_size) {
                    self.element((2 * id + 1) as u64) == Some(leaf_of(on_side(samples, &split, false)))
                } else {
                    self.decided(
                        dataset,
                        (2 * id + 1) as u64,
                        on_side(samples, &split, false),
                        budget,
                        impurity_of(on_side(samples, &split, false)),
                        constant_within(constant, on_side(samples, &split, false), split.spec_attribute_index()),
                        0,
                        None,
                    )
                }
            },
            None => {
                &&& given.is_none()
                &&& 1 <= id <= MAX_INNER_ID
                &&& constant.len() != dataset.spec_num_attributes()
                &&& drew_before(
                    dataset,
                    samples,
                    budget,
                    impurity_before,
                    constant,
                    self.num_attributes_to_try_per_split,
                    tries_left(num_tries, self.max_tries_per_split),
                )
                &&& match self.alternatives(id) {
                    Some(list) => exists|candidates: Seq<Split>, all_stats: Seq<SplitStats>, best: int|
                        #![trigger
                            is_draw(
                                candidates,
                                all_stats,
                                dataset,
                                samples,
                                impurity_before,
                                constant,
                                self.num_attributes_to_try_per_split,
                            ),
                            is_champion(all_stats, best)
                        ]
                        {
                            &&& is_draw(
                                candidates,
                                all_stats,
                                dataset,
                                samples,
                                impurity_before,
                                constant,
                                self.num_attributes_to_try_per_split,
                            )
                            &&& is_champion(all_stats, best)
                            &&& is_contested(all_stats, best, budget)
                            &&& list.len() == contenders(all_stats, best, budget).len()
                            &&& forall|i: int|
                                0 <= i < candidates.len() && (i == best || can_overturn(all_stats, best, i, budget))
                                    ==> #[trigger] offers(list, candidates[i])
                            &&& forall|j: int| 0 <= j < list.len() ==> #[trigger] is_among(candidates, list[j].split)
                            &&& forall|j: int, i: int|
                                0 <= j < list.len() && 0 <= i < candidates.len() && (#[trigger] list[j]).split
                                    == (#[trigger] candidates[i]) ==> {
                                    &&& i == best || can_overturn(all_stats, best, i, budget)
                                    &&& list[j].split_stats == all_stats[i]
                                    &&& list[j].tree.decided(
                                        dataset,
                                        id,
                                        samples,
                                        budget_left(all_stats, best, i, budget),
                                        0,
                                        constant,
                                        0,
                                        Some(candidates[i]),
                                    )
                                }
                        },
                    None => false,
                }
            },
        }
    }

    /// An open position holds, by falling score, one alternative for each
    /// rival that can overturn the champion and then one for the champion,
    /// each with the statistics of its candidate and with a subtree that
    /// begins with its test and is decided under what is left of the
    /// budget.
    pub open spec fn opened_with<D: Dataset, S: Sample>(
        &self,
        dataset: &D,
        id: u64,
        samples: Multiset<S>,
        budget: nat,
        constant: Seq<u8>,
        candidates: Seq<Split>,
        all_stats: Seq<SplitStats>,
        best: int,
    ) -> bool {
        &&& self.element(id).is_none()
        &&& exists|unsorted: Seq<AlternativeTree>|
            {
                &&& self.alternatives(id) == Some(#[trigger] sorted_by_score(unsorted))
                &&& unsorted.len() == contenders(all_stats, best, budget).len()
                &&& forall|k: int|
                    0 <= k < unsorted.len() ==> {
                        &&& (#[trigger] unsorted[k]).split == candidates[contenders(all_stats, best, budget)[k].0 as int]
                        &&& unsorted[k].split_stats == all_stats[contenders(all_stats, best, budget)[k].0 as int]
                        &&& unsorted[k].tree.decided(
                            dataset,
                            id,
                            samples,
                            (budget - contenders(all_stats, best, budget)[k].1) as nat,
                            0,
                            constant,
                            0,
                            Some(unsorted[k].split),
                        )
                    }
            }
    }

    /// What fitting has decided below a position does not change where
    /// the tree changes elsewhere.
    pub proof fn lemma_decided_elsewhere<D: Dataset, S: Sample>(
        &self,
        later: &Tree,
        root: u64,
        dataset: &D,
        samples: Multiset<S>,
        budget: nat,
        impurity_before: int,
        constant: Seq<u8>,
        num_tries: nat,
        given: Option<Split>,
    )
        requires
            1 <= root,
            later.min_leaf_size == self.min_leaf_size,
            later.num_attributes_to_try_per_split == self.num_attributes_to_try_per_split,
            later.max_tries_per_split == self.max_tries_per_split,
            forall|id: u64| is_below(id, root) ==> #[trigger] later.element(id) == self.element(id),
            forall|id: u64| is_below(id, root) ==> #[trigger] later.alternatives(id) == self.alternatives(id),
        ensures
            later.decided(dataset, root, samples, budget, impurity_before, constant, num_tries, given)
                == self.decided(dataset, root, samples, budget, impurity_before, constant, num_tries, given),
        decreases u64::MAX - root,
    {
        assert(is_below(root, root));
        assert(later.element(root) == self.element(root));
        assert(later.alternatives(root) == self.alternatives(root));
        match self.element(root) {
            Some(TreeElement::Node { split }) => {
                if root <= MAX_INNER_ID {
                    let left = (2 * root) as u64;
                    let right = (2 * root + 1) as u64;
                    assert(is_below(left, left) && is_below(right, right));
                    assert forall|id: u64| is_below(id, left) || is_below(id, right) implies #[trigger] later.element(id)
                        == self.element(id) by {
                        lemma_below_child(id, root);
                    }
                    assert forall|id: u64|
                        is_below(id, left) || is_below(id, right) implies #[trigger] later.alternatives(id)
                        == self.alternatives(id) by {
                        lemma_below_child(id, root);
                    }
                    let on_left = on_side(samples, &split, true);
                    let on_right = on_side(samples, &split, false);
                    self.lemma_decided_elsewhere(
                        later,
                        left,
                        dataset,
                        on_left,
                        budget,
                        impurity_of(on_left),
                        constant_within(constant, on_left, split.spec_attribute_index()),
                        0,
                        None,
                    );
                    self.lemma_decided_elsewhere(
                        later,
                        right,
                        dataset,
                        on_right,
                        budget,
                        impurity_of(on_right),
                        constant_within(constant, on_right, split.spec_attribute_index()),
                        0,
                        None,
                    );
                }
            },
            _ => {},
        }
    }

    /// What was decided at a position after one more try is decided
    /// there, once a draw has called for new candidates.
    pub proof fn lemma_decided_after_retry<D: Dataset, S: Sample>(
        &self,
        dataset: &D,
        id: u64,
        samples: Multiset<S>,
        budget: nat,
        impurity_before: int,
        constant: Seq<u8>,
        num_tries: nat,
        candidates: Seq<Split>,
        all_stats: Seq<SplitStats>,
    )
        requires
            num_tries < self.max_tries_per_split,
            is_draw(
                candidates,
                all_stats,
                dataset,
                samples,
                impurity_before,
                constant,
                self.num_attributes_to_try_per_split,
            ),
            is_next_step(all_stats, true, budget, Step::Retry),
            self.decided(dataset, id, samples, budget, impurity_before, constant, num_tries + 1, None),
        ensures
            self.decided(dataset, id, samples, budget, impurity_before, constant, num_tries, None),
    {
        let tries = self.num_attributes_to_try_per_split;
        let left = tries_left(num_tries + 1, self.max_tries_per_split);
        assert(tries_left(num_tries, self.max_tries_per_split) == left + 1);
        if drew_before(dataset, samples, budget, impurity_before, constant, tries, left) {
            lemma_one_more_retry(
                dataset,
                samples,
                budget,
                impurity_before,
                constant,
                tries,
                left,
                candidates,
                all_stats,
            );
        }
    }

    /// A position that was opened for a draw with a contested champion
    /// holds what fitting decides.
    pub proof fn lemma_opened_is_decided<D: Dataset, S: Sample>(
        &self,
        dataset: &D,
        id: u64,
        samples: Multiset<S>,
        budget: nat,
        impurity_before: int,
        constant: Seq<u8>,
        num_tries: nat,
        candidates: Seq<Split>,
        all_stats: Seq<SplitStats>,
        best: int,
    )
        requires
            1 <= id <= MAX_INNER_ID,
            budget <= usize::MAX,
            drew_before(
                dataset,
                samples,
                budget,
                impurity_before,
                constant,
                self.num_attributes_to_try_per_split,
                tries_left(num_tries, self.max_tries_per_split),
            ),
            constant.len() != dataset.spec_num_attributes(),
            is_draw(
                candidates,
                all_stats,
                dataset,
                samples,
                impurity_before,
                constant,
                self.num_attributes_to_try_per_split,
            ),
            is_champion(all_stats, best),
            is_contested(all_stats, best, budget),
            self.opened_with(dataset, id, samples, budget, constant, candidates, all_stats, best),
        ensures
            self.decided(dataset, id, samples, budget, impurity_before, constant, num_tries, None),
    {
        let entries = contenders(all_stats, best, budget);
        let rivals = overturning_rivals(all_stats, best, budget, all_stats.len() as int);
        let unsorted = choose|unsorted: Seq<AlternativeTree>|
            {
                &&& self.alternatives(id) == Some(#[trigger] sorted_by_score(unsorted))
                &&& unsorted.len() == entries.len()
                &&& forall|k: int|
                    0 <= k < unsorted.len() ==> {
                        &&& (#[trigger] unsorted[k]).split == candidates[entries[k].0 as int]
                        &&& unsorted[k].split_stats == all_stats[entries[k].0 as int]
                        &&& unsorted[k].tree.decided(
                            dataset,
                            id,
                            samples,
                            (budget - entries[k].1) as nat,
                            0,
                            constant,
                            0,
                            Some(unsorted[k].split),
                        )
                    }
            };
        let list = sorted_by_score(unsorted);
        lemma_sorted_is_rearranged(unsorted);
        lemma_sorted_is_ordered(unsorted);
        lemma_rivals_are_listed(all_stats, best, budget, all_stats.len() as int);
        assert forall|k: int| 0 <= k < entries.len() implies {
            &&& 0 <= (#[trigger] entries[k]).0 < all_stats.len()
            &&& entries[k].0 == best || can_overturn(all_stats, best, entries[k].0 as int, budget)
            &&& (budget - entries[k].1) as nat == budget_left(all_stats, best, entries[k].0 as int, budget)
        } by {
            if k < rivals.len() {
                assert(entries[k] == rivals[k]);
            }
        }
        assert forall|i: int|
            0 <= i < candidates.len() && (i == best || can_overturn(all_stats, best, i, budget)) implies #[trigger] offers(
            list,
            candidates[i],
        ) by {
            let k = if i == best {
                rivals.len() as int
            } else {
                choose|k: int| 0 <= k < rivals.len() && (#[trigger] rivals[k]).0 == i
            };
            assert(entries[k].0 == i);
            assert(unsorted[k].split == candidates[i]);
            assert(unsorted.contains(unsorted[k]));
            vstd::seq_lib::to_multiset_contains(unsorted, unsorted[k]);
            vstd::seq_lib::to_multiset_contains(list, unsorted[k]);
            let j = choose|j: int| 0 <= j < list.len() && list[j] == unsorted[k];
            assert(list[j].split == candidates[i]);
        }
        assert forall|j: int| 0 <= j < list.len() implies #[trigger] is_among(candidates, list[j].split) by {
            let k = choose|k: int| 0 <= k < unsorted.len() && unsorted[k] == list[j];
            assert(0 <= entries[k].0 < all_stats.len());
            assert(candidates[entries[k].0 as int] == list[j].split);
        }
        assert forall|j: int, i: int|
            0 <= j < list.len() && 0 <= i < candidates.len() && (#[trigger] list[j]).split
                == (#[trigger] candidates[i]) implies {
            &&& i == best || can_overturn(all_stats, best, i, budget)
            &&& list[j].split_stats == all_stats[i]
            &&& list[j].tree.decided(
                dataset,
                id,
                samples,
                budget_left(all_stats, best, i, budget),
                0,
                constant,
                0,
                Some(candidates[i]),
            )
        } by {
            let k = choose|k: int| 0 <= k < unsorted.len() && unsorted[k] == list[j];
            let index = entries[k].0 as int;
            assert(0 <= entries[k].0 < all_stats.len());
            assert(unsorted[k].split == candidates[index]);
            if index != i {
                if index < i {
                    assert(candidates[index].spec_attribute_index() != candidates[i].spec_attribute_index());
                } else {
                    assert(candidates[i].spec_attribute_index() != candidates[index].spec_attribute_index());
                }
            }
        }
    }
}

} // verus!
