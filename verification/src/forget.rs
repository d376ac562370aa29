//! Forgetting a sample: every count that includes the sample is lowered,
//! and the alternatives of the open position where the sample ends are
//! ranked anew.

use vstd::prelude::*;
use crate::dataset::{goes_left, Sample};
use crate::positions::{is_below, lemma_below_child, lemma_children_apart};
use crate::ranking::{
    lemma_sorted_by_statistics, lemma_sorted_is_ordered, lemma_sorted_is_rearranged, sort_alternatives, sorted_by_score,
};
use crate::split_stats::SplitStats;
use crate::utils::{add_capped, capped};
use crate::tree::{element_at, put_element, slot_at, slots_of, elements_of, AlternativeTree, Tree, TreeElement};

verus! {

/// Why a sample could not be forgotten.
#[derive(Eq, PartialEq, Clone, Copy, Debug)]
pub enum ForgetError {
    /// A leaf or an alternative on the way of the sample counts no sample
    /// of its kind any more: the sample was not among those that the tree
    /// was fit on, or it was forgotten before.
    NotRepresented,
}

impl AlternativeTree {
    /// The alternative still counts a sample with the label and on the
    /// side of the given one.
    pub open spec fn counts<S: Sample>(&self, sample: &S) -> bool {
        self.split_stats.bucket(sample.spec_true_label(), goes_left(sample, &self.split)) >= 1
    }

    /// The statistics of the alternative once the sample is gone.
    pub open spec fn stats_without<S: Sample>(&self, sample: &S) -> SplitStats {
        self.split_stats.without(sample.spec_true_label(), goes_left(sample, &self.split), 1).rescored()
    }
}

/// `after` holds the alternatives of `before` with the sample taken out of
/// the statistics of every one.
pub open spec fn each_discounts<S: Sample>(
    before: Seq<AlternativeTree>,
    after: Seq<AlternativeTree>,
    sample: &S,
) -> bool {
    &&& after.len() == before.len()
    &&& forall|i: int|
        0 <= i < before.len() ==> {
            &&& (#[trigger] after[i]).split == before[i].split
            &&& after[i].split_stats == before[i].stats_without(sample)
        }
}

/// The alternatives with the sample taken out of their statistics.
pub open spec fn discounted<S: Sample>(list: Seq<AlternativeTree>, sample: &S) -> Seq<AlternativeTree> {
    Seq::new(
        list.len(),
        |i: int| AlternativeTree { split: list[i].split, split_stats: list[i].stats_without(sample), tree: list[i].tree },
    )
}

/// Sorting brings an alternative to the front whose statistics count
/// otherwise than those of the first.
pub open spec fn head_changes(list: Seq<AlternativeTree>) -> bool {
    list.len() > 0 && !sorted_by_score(list)[0].split_stats.same_counts(list[0].split_stats)
}

/// The open positions that forgetting comes by in the subtrees of the
/// first `upto` alternatives.
pub open spec fn hits_in<S: Sample>(list: Seq<AlternativeTree>, sample: &S, id: u64, upto: int) -> nat
    decreases list, upto,
{
    if upto <= 0 || upto > list.len() {
        0
    } else {
        hits_in(list, sample, id, upto - 1) + list[upto - 1].tree.variants_hit(sample, id)
    }
}

/// The open positions at which another alternative comes first, in the
/// subtrees of the first `upto` alternatives.
pub open spec fn changes_in<S: Sample>(list: Seq<AlternativeTree>, sample: &S, id: u64, upto: int) -> nat
    decreases list, upto,
{
    if upto <= 0 || upto > list.len() {
        0
    } else {
        changes_in(list, sample, id, upto - 1) + list[upto - 1].tree.variants_changed(sample, id)
    }
}

impl Tree {
    /// Whether the tree still counts the sample wherever the sample is
    /// counted: in the leaf where it ends, or, where it ends at an open
    /// position, in every alternative and in the subtree of every one.
    pub open spec fn can_forget<S: Sample>(&self, sample: &S, id: u64) -> bool
        decreases self,
    {
        let end = self.walk_end(sample, id);
        match self.element(end) {
            Some(TreeElement::Leaf { num_samples, num_plus }) => num_samples >= 1 && (sample.spec_true_label()
                ==> num_plus >= 1),
            Some(TreeElement::Node { .. }) => false,
            None => match self.alternatives(end) {
                Some(list) => forall|i: int|
                    0 <= i < list.len() ==> (#[trigger] list[i]).counts(sample) && list[i].tree.can_forget(
                        sample,
                        end,
                    ),
                None => false,
            },
        }
    }

    /// Nothing but the elements and the alternatives differs.
    pub open spec fn same_settings(&self, other: &Tree) -> bool {
        &&& self.index == other.index
        &&& self.rng == other.rng
        &&& self.open_nodes == other.open_nodes
        &&& self.num_attributes == other.num_attributes
        &&& self.min_leaf_size == other.min_leaf_size
        &&& self.num_attributes_to_try_per_split == other.num_attributes_to_try_per_split
        &&& self.max_tries_per_split == other.max_tries_per_split
        &&& self.num_robust_nodes == other.num_robust_nodes
        &&& self.num_non_robust_nodes == other.num_non_robust_nodes
    }

    /// `after` is this tree once a sample that has reached `id` is
    /// forgotten.
    ///
    /// Where the sample ends in a leaf, the leaf counts one sample fewer,
    /// and one positive fewer where the sample is positive. Where it ends
    /// at an open position, every alternative there has forgotten it, and
    /// the alternatives are sorted anew. Nothing else differs.
    pub open spec fn forgets<S: Sample>(&self, after: &Tree, sample: &S, id: u64) -> bool
        decreases self,
    {
        let end = self.walk_end(sample, id);
        &&& after.same_settings(self)
        &&& match self.element(end) {
            Some(TreeElement::Leaf { num_samples, num_plus }) => {
                &&& elements_of(after.tree_elements) == elements_of(self.tree_elements).insert(
                    end,
                    TreeElement::Leaf {
                        num_samples: (num_samples - 1) as u32,
                        num_plus: if sample.spec_true_label() {
                            (num_plus - 1) as u32
                        } else {
                            num_plus
                        },
                    },
                )
                &&& after.alternative_subtrees == self.alternative_subtrees
            },
            Some(TreeElement::Node { .. }) => false,
            None => match slots_of(self.open_nodes).get(end) {
                Some(slot) => {
                    &&& slot < self.alternative_subtrees.len()
                    &&& after.tree_elements == self.tree_elements
                    &&& after.alternative_subtrees.len() == self.alternative_subtrees.len()
                    &&& forall|k: int|
                        0 <= k < self.alternative_subtrees.len() && k != slot ==> #[trigger] after.alternative_subtrees[k]
                            == self.alternative_subtrees[k]
                    &&& exists|updated: Seq<AlternativeTree>|
                        {
                            &&& #[trigger] each_discounts(self.alternative_subtrees[slot as int]@, updated, sample)
                            &&& forall|i: int|
                                0 <= i < updated.len() ==> (#[trigger] self.alternative_subtrees[slot as int]@[i]).tree.forgets(
                                    &updated[i].tree,
                                    sample,
                                    end,
                                )
                            &&& after.alternative_subtrees[slot as int]@ == sorted_by_score(updated)
                        }
                },
                None => false,
            },
        }
    }

    /// The number of open positions that forgetting a sample comes by: the
    /// open position where the walk of the sample ends in this tree, if it
    /// ends at one, and those in the subtrees of its alternatives.
    pub open spec fn variants_hit<S: Sample>(&self, sample: &S, id: u64) -> nat
        decreases self,
    {
        let end = self.walk_end(sample, id);
        if self.element(end).is_none() {
            match self.alternatives(end) {
                Some(list) => 1 + hits_in(list, sample, end, list.len() as int),
                None => 0,
            }
        } else {
            0
        }
    }

    /// The number of open positions at which forgetting a sample brings
    /// another alternative to the front: one whose statistics count
    /// otherwise than those of the first alternative.
    pub open spec fn variants_changed<S: Sample>(&self, sample: &S, id: u64) -> nat
        decreases self,
    {
        let end = self.walk_end(sample, id);
        if self.element(end).is_none() {
            match self.alternatives(end) {
                Some(list) => changes_in(list, sample, end, list.len() as int) + if head_changes(
                    discounted(list, sample),
                ) {
                    1nat
                } else {
                    0nat
                },
                None => 0,
            }
        } else {
            0
        }
    }

    /// Whether the sample can be forgotten from the position on.
    pub fn represents<S: Sample>(&self, sample: &S, start: u64) -> (counted: bool)
        requires
            self.complete(start),
            self.fits(sample),
        ensures
            counted == self.can_forget(sample, start),
        decreases self,
    {
        let end = self.descend(sample, start);
        match element_at(&self.tree_elements, end) {
            Some(TreeElement::Leaf { num_samples, num_plus }) => num_samples >= 1 && (!sample.true_label()
                || num_plus >= 1),
            Some(TreeElement::Node { split: _ }) => false,
            None => {
                let slot = slot_at(&self.open_nodes, end).unwrap();
                let list = &self.alternative_subtrees[slot];
                let mut i: usize = 0;
                while i < list.len()
                    invariant
                        i <= list.len(),
                        self.fits(sample),
                        end == self.walk_end(sample, start),
                        self.alternatives(end) == Some(list@),
                        self.complete(end),
                        self.element(end).is_none(),
                        forall|j: int|
                            0 <= j < i ==> (#[trigger] list@[j]).counts(sample) && list@[j].tree.can_forget(
                                sample,
                                end,
                            ),
                    decreases list.len() - i,
                {
                    let alternative = &list[i];
                    assert(alternative.tree.complete(end));
                    let left = sample.is_left_of(&alternative.split);
                    if alternative.split_stats.count_in(sample.true_label(), left) < 1 {
                        return false;
                    }
                    if !alternative.tree.represents(sample, end) {
                        return false;
                    }
                    i += 1;
                }
                true
            },
        }
    }

    /// Forgets a sample that has reached a position.
    pub(crate) fn forget_from<S: Sample>(tree: &mut Tree, sample: &S, element_id_to_start: u64)
        requires
            old(tree).complete(element_id_to_start),
            old(tree).fits(sample),
            old(tree).can_forget(sample, element_id_to_start),
        ensures
            old(tree).forgets(final(tree), sample, element_id_to_start),
    {
        let _ = Tree::forget_from2(tree, sample, element_id_to_start);
    }

    /// Forgets a sample that has reached a position, and tells how many
    /// open positions it came by and at how many of them another
    /// alternative came first. Both numbers stop at the largest that fits.
    pub fn forget_from2<S: Sample>(tree: &mut Tree, sample: &S, element_id_to_start: u64) -> (variants: (
        usize,
        usize,
    ))
        requires
            old(tree).complete(element_id_to_start),
            old(tree).fits(sample),
            old(tree).can_forget(sample, element_id_to_start),
        ensures
            old(tree).forgets(final(tree), sample, element_id_to_start),
            variants.0 == capped(old(tree).variants_hit(sample, element_id_to_start)),
            variants.1 == capped(old(tree).variants_changed(sample, element_id_to_start)),
        decreases *old(tree),
    {
        let mut num_variants_hit: usize = 0;
        let mut num_variants_changed: usize = 0;

        let element_id = tree.descend(sample, element_id_to_start);

        match element_at(&tree.tree_elements, element_id) {
            Some(TreeElement::Leaf { num_samples, num_plus }) => {
                let new_num_samples = num_samples - 1;
                let new_num_plus = if sample.true_label() {
                    num_plus - 1
                } else {
                    num_plus
                };

                let updated_leaf = Tree::leaf(new_num_samples, new_num_plus);
                put_element(&mut tree.tree_elements, element_id, updated_leaf);
                assert(old(tree).forgets(tree, sample, element_id_to_start));
            },
            Some(TreeElement::Node { split: _ }) => {},
            None => {
                // The position is open: every alternative forgets the sample.
                num_variants_hit = 1;
                let slot = slot_at(&tree.open_nodes, element_id).unwrap();
                let count = tree.alternative_subtrees[slot].len();
                let ghost before = old(tree).alternative_subtrees[slot as int]@;
                let mut i: usize = 0;
                while i < count
                    invariant
                        i <= count,
                        old(tree).fits(sample),
                        old(tree).complete(element_id),
                        old(tree).can_forget(sample, element_id_to_start),
                        element_id == old(tree).walk_end(sample, element_id_to_start),
                        old(tree).element(element_id).is_none(),
                        slots_of(old(tree).open_nodes).get(element_id) == Some(slot),
                        slot < old(tree).alternative_subtrees.len(),
                        before == old(tree).alternative_subtrees[slot as int]@,
                        tree.same_settings(old(tree)),
                        tree.tree_elements == old(tree).tree_elements,
                        tree.alternative_subtrees.len() == old(tree).alternative_subtrees.len(),
                        forall|k: int|
                            0 <= k < tree.alternative_subtrees.len() && k != slot ==> #[trigger] tree.alternative_subtrees[k]
                                == old(tree).alternative_subtrees[k],
                        tree.alternative_subtrees[slot as int]@.len() == count == before.len(),
                        forall|j: int|
                            i <= j < count ==> #[trigger] tree.alternative_subtrees[slot as int]@[j] == before[j],
                        forall|j: int|
                            0 <= j < i ==> {
                                &&& (#[trigger] tree.alternative_subtrees[slot as int]@[j]).split == before[j].split
                                &&& tree.alternative_subtrees[slot as int]@[j].split_stats == before[j].stats_without(
                                    sample,
                                )
                                &&& before[j].tree.forgets(
                                    &tree.alternative_subtrees[slot as int]@[j].tree,
                                    sample,
                                    element_id,
                                )
                            },
                        num_variants_hit == capped(1 + hits_in(before, sample, element_id, i as int)),
                        num_variants_changed == capped(changes_in(before, sample, element_id, i as int)),
                    decreases count - i,
                {
                    assert(before[i as int].counts(sample) && before[i as int].tree.can_forget(sample, element_id));
                    assert(before[i as int].tree.complete(element_id));
                    let left = sample.is_left_of(&tree.alternative_subtrees[slot][i].split);
                    let rest = tree.alternative_subtrees[slot][i].split_stats.remove_and_rescore(
                        sample.true_label(),
                        left,
                        1,
                    );
                    tree.alternative_subtrees[slot][i].split_stats = rest.unwrap();
                    let (alt_hit, alt_changed) = Tree::forget_from2(
                        &mut tree.alternative_subtrees[slot][i].tree,
                        sample,
                        element_id,
                    );
                    num_variants_hit = add_capped(num_variants_hit, alt_hit);
                    num_variants_changed = add_capped(num_variants_changed, alt_changed);
                    i += 1;
                }
                let ghost updated = tree.alternative_subtrees[slot as int]@;
                assert(each_discounts(before, updated, sample));
                // The alternative with the highest score comes first.
                let current_best = tree.alternative_subtrees[slot][0].split_stats;
                sort_alternatives(&mut tree.alternative_subtrees[slot]);
                assert(tree.alternative_subtrees[slot as int]@ == sorted_by_score(updated));
                proof {
                    lemma_sorted_is_rearranged(updated);
                    lemma_sorted_by_statistics(updated, discounted(before, sample));
                }
                let other_best = tree.alternative_subtrees[slot][0].split_stats;

                if !same_counts(&other_best, &current_best) {
                    num_variants_changed = add_capped(num_variants_changed, 1);
                }
                assert(old(tree).forgets(tree, sample, element_id_to_start)) by {
                    let end = old(tree).walk_end(sample, element_id_to_start);
                    assert(end == element_id);
                    assert(old(tree).element(end).is_none());
                    assert(slots_of(old(tree).open_nodes).get(end) == Some(slot));
                    assert(each_discounts(old(tree).alternative_subtrees[slot as int]@, updated, sample));
                    assert(tree.same_settings(old(tree)));
                }
                assert(old(tree).alternatives(element_id) == Some(before));
            },
        }
        (num_variants_hit, num_variants_changed)
    }

    /// Forgets the sample: every count that includes it is lowered by
    /// one, and the alternatives of the open position where it ends, if it
    /// ends at one, are ranked anew.
    ///
    /// Fails, and leaves the tree as it is, where the tree does not count
    /// the sample any more.
    pub fn forget<S: Sample>(&mut self, sample: &S) -> (done: Result<(), ForgetError>)
        requires
            old(self).wf(),
            old(self).fits(sample),
        ensures
            done.is_ok() == old(self).can_forget(sample, 1),
            done.is_ok() ==> old(self).forgets(final(self), sample, 1),
            done.is_ok() ==> final(self).live_count(1) + 1 == old(self).live_count(1),
            done.is_err() ==> *final(self) == *old(self),
            final(self).wf(),
            final(self).num_attributes == old(self).num_attributes,
    {
        if !self.represents(sample, 1) {
            return Err(ForgetError::NotRepresented);
        }
        Tree::forget_from(self, sample, 1);
        proof {
            old(self).lemma_still_complete(self, sample, 1, 1);
            old(self).lemma_forgetting_counts_down(self, sample, 1);
            old(self).lemma_forgetting_keeps_account(self, sample, 1, 0);
        }
        Ok(())
    }

    /// Forgetting keeps a tree complete: elements and alternatives stay
    /// where they are, only counts and the order of alternatives change.
    pub proof fn lemma_still_complete<S: Sample>(&self, after: &Tree, sample: &S, id: u64, below: u64)
        requires
            self.forgets(after, sample, id),
            self.complete(below),
        ensures
            after.complete(below),
        decreases self, u64::MAX - below,
    {
        let end = self.walk_end(sample, id);
        match self.element(below) {
            Some(TreeElement::Leaf { .. }) => {},
            Some(TreeElement::Node { split }) => {
                self.lemma_still_complete(after, sample, id, (2 * below) as u64);
                self.lemma_still_complete(after, sample, id, (2 * below + 1) as u64);
            },
            None => {
                let list = self.alternatives(below).unwrap();
                match self.element(end) {
                    Some(TreeElement::Leaf { .. }) => {
                        assert(after.alternatives(below) == Some(list));
                    },
                    Some(TreeElement::Node { .. }) => {},
                    None => {
                        let slot = slots_of(self.open_nodes).get(end).unwrap();
                        if slots_of(self.open_nodes).get(below).unwrap() != slot {
                            assert(after.alternatives(below) == Some(list));
                        } else {
                            let updated = choose|updated: Seq<AlternativeTree>|
                                {
                                    &&& #[trigger] each_discounts(self.alternative_subtrees[slot as int]@, updated, sample)
                                    &&& forall|i: int|
                                        0 <= i < updated.len() ==> (#[trigger] self.alternative_subtrees[slot as int]@[i]).tree.forgets(
                                            &updated[i].tree,
                                            sample,
                                            end,
                                        )
                                    &&& after.alternative_subtrees[slot as int]@ == sorted_by_score(updated)
                                };
                            let sorted = sorted_by_score(updated);
                            lemma_sorted_is_rearranged(updated);
                            assert(after.alternatives(below) == Some(sorted));
                            assert forall|j: int| 0 <= j < sorted.len() implies {
                                &&& (#[trigger] sorted[j]).tree.num_attributes == after.num_attributes
                                &&& sorted[j].split.spec_attribute_index() < after.num_attributes
                                &&& sorted[j].tree.complete(below)
                            } by {
                                let i = choose|i: int| 0 <= i < updated.len() && updated[i] == sorted[j];
                                assert(list[i].tree.forgets(&updated[i].tree, sample, end));
                                assert(list[i].tree.complete(below));
                                list[i].tree.lemma_still_complete(&updated[i].tree, sample, end, below);
                            }
                        }
                    },
                }
            },
        }
    }

    /// Forgetting changes the tree at one position only: where the walk of
    /// the sample ends.
    pub proof fn lemma_forgetting_changes_one<S: Sample>(&self, after: &Tree, sample: &S, id: u64)
        requires
            self.distinct_slots(),
            self.forgets(after, sample, id),
        ensures
            forall|other: u64|
                other != self.walk_end(sample, id) ==> #[trigger] after.element(other) == self.element(other),
            forall|other: u64|
                other != self.walk_end(sample, id) ==> #[trigger] after.alternatives(other) == self.alternatives(
                    other,
                ),
    {
        let end = self.walk_end(sample, id);
        assert forall|other: u64| other != end implies #[trigger] after.alternatives(other) == self.alternatives(
            other,
        ) by {
            assert(after.slot(other) == self.slot(other));
            if self.element(end).is_none() && self.slot(other).is_some() {
                assert(self.slot(other) != self.slot(end));
            }
        }
    }

    /// Forgetting keeps the account of the positions: no position is
    /// opened or closed, and no test comes or goes.
    pub proof fn lemma_forgetting_keeps_account<S: Sample>(&self, after: &Tree, sample: &S, id: u64, uncounted: nat)
        requires
            self.forgets(after, sample, id),
            self.accounted(uncounted),
        ensures
            after.accounted(uncounted),
    {
        let end = self.walk_end(sample, id);
        assert forall|other: u64| after.element(other).is_none() == self.element(other).is_none() && (after.element(
            other,
        ) matches Some(TreeElement::Node { .. })) == (self.element(other) matches Some(TreeElement::Node { .. })) by {}
        assert(after.tests() =~= self.tests());
        assert forall|other: u64| (#[trigger] after.slot(other)).is_some() implies after.element(other).is_none() by {
            assert(self.slot(other).is_some());
            assert(after.element(other).is_none() == self.element(other).is_none());
        }
        assert(after.alternative_subtrees.len() == self.alternative_subtrees.len());
        assert forall|k: int| 0 <= k < after.alternative_subtrees.len() implies #[trigger] after.is_in_use(k) by {
            assert(self.is_in_use(k));
            let position = choose|position: u64| #[trigger] self.slot(position) == Some(k as usize);
            assert(after.slot(position) == Some(k as usize));
        }
    }

    /// Forgetting a sample lowers what is counted below the position where
    /// its walk begins by exactly one, whichever alternative comes first
    /// afterwards, and keeps the books balanced.
    pub proof fn lemma_forgetting_counts_down<S: Sample>(&self, after: &Tree, sample: &S, id: u64)
        requires
            self.complete(id),
            self.balanced(id),
            self.distinct_slots(),
            self.can_forget(sample, id),
            self.forgets(after, sample, id),
        ensures
            after.live_count(id) + 1 == self.live_count(id),
            after.balanced(id),
            after.distinct_slots(),
        decreases self, u64::MAX - id,
    {
        let end = self.walk_end(sample, id);
        assert(after.distinct_slots()) by {
            assert forall|one: u64, other: u64|
                #![trigger after.slot(one), after.slot(other)]
                after.slot(one).is_some() && after.slot(one) == after.slot(other) implies one == other
                && after.slot(one).unwrap() < after.alternative_subtrees.len() by {
                assert(self.slot(one) == self.slot(other));
            }
        }
        match self.element(id) {
            Some(TreeElement::Leaf { .. }) => {},
            Some(TreeElement::Node { split }) => {
                let left = (2 * id) as u64;
                let right = (2 * id + 1) as u64;
                let (on_way, aside) = if goes_left(sample, &split) {
                    (left, right)
                } else {
                    (right, left)
                };
                assert(self.walk_end(sample, on_way) == end);
                self.lemma_forgetting_counts_down(after, sample, on_way);
                self.lemma_walk_ends_below(sample, on_way);
                self.lemma_walk_ends(sample, id);
                self.lemma_forgetting_changes_one(after, sample, id);
                assert forall|other: u64| is_below(other, aside) implies #[trigger] after.element(other)
                    == self.element(other) by {
                    lemma_children_apart(end, id);
                }
                assert forall|other: u64| is_below(other, aside) implies #[trigger] after.alternatives(other)
                    == self.alternatives(other) by {
                    lemma_children_apart(end, id);
                }
                self.lemma_counts_elsewhere(after, aside);
                assert(id != end) by {
                    lemma_below_child(end, id);
                }
                assert(after.element(id) == self.element(id));
            },
            None => {
                let list = self.alternatives(id).unwrap();
                let slot = self.slot(id).unwrap();
                let updated = choose|updated: Seq<AlternativeTree>|
                    {
                        &&& #[trigger] each_discounts(self.alternative_subtrees[slot as int]@, updated, sample)
                        &&& forall|i: int|
                            0 <= i < updated.len() ==> (#[trigger] self.alternative_subtrees[slot as int]@[i]).tree.forgets(
                                &updated[i].tree,
                                sample,
                                end,
                            )
                        &&& after.alternative_subtrees[slot as int]@ == sorted_by_score(updated)
                    };
                let sorted = sorted_by_score(updated);
                lemma_sorted_is_rearranged(updated);
                lemma_sorted_is_ordered(updated);
                assert(after.alternatives(id) == Some(sorted));
                let common = list[0].split_stats.num_samples();
                assert forall|i: int| 0 <= i < updated.len() implies {
                    &&& (#[trigger] updated[i]).tree.balanced(id)
                    &&& updated[i].tree.distinct_slots()
                    &&& updated[i].tree.accounted(1)
                    &&& updated[i].tree.live_count(id) == updated[i].split_stats.num_samples()
                    &&& updated[i].split_stats.num_samples() == common - 1
                } by {
                    assert(list[i].tree.forgets(&updated[i].tree, sample, end));
                    assert(list[i].counts(sample) && list[i].tree.can_forget(sample, id));
                    assert(list[i].tree.complete(id));
                    list[i].tree.lemma_forgetting_counts_down(&updated[i].tree, sample, id);
                    list[i].tree.lemma_forgetting_keeps_account(&updated[i].tree, sample, id, 1);
                    assert(updated[i].split_stats == list[i].stats_without(sample));
                    assert(list[i].split_stats.num_samples() == common);
                }
                assert(updated[0].split_stats.num_samples() == common - 1);
                assert forall|j: int| 0 <= j < sorted.len() implies {
                    &&& (#[trigger] sorted[j]).tree.balanced(id)
                    &&& sorted[j].tree.distinct_slots()
                    &&& sorted[j].tree.accounted(1)
                    &&& sorted[j].tree.live_count(id) == sorted[j].split_stats.num_samples()
                    &&& sorted[j].split_stats.num_samples() == common - 1
                } by {
                    let i = choose|i: int| 0 <= i < updated.len() && updated[i] == sorted[j];
                    assert(updated[i].tree.balanced(id));
                }
                assert(sorted[0].split_stats.num_samples() == common - 1);
                assert(list[0].tree.live_count(id) == common);
            },
        }
    }
}

/// Whether both statistics count the same samples in every bucket.
pub(crate) fn same_counts(stats_a: &SplitStats, stats_b: &SplitStats) -> (same: bool)
    ensures
        same == stats_a.same_counts(*stats_b),
{
    stats_a.num_minus_left == stats_b.num_minus_left && stats_a.num_minus_right == stats_b.num_minus_right
        && stats_a.num_plus_left == stats_b.num_plus_left && stats_a.num_plus_right == stats_b.num_plus_right
}

} // verus!
