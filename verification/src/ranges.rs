//! The tests of a fitted tree are tests on the samples of its dataset, and
//! forgetting leaves them where they are.

use vstd::prelude::*;
use crate::candidates::is_test_of;
use crate::dataset::{Dataset, Sample};
use crate::forget::each_discounts;
use crate::positions::{is_below, lemma_below_child};
use crate::ranking::{lemma_sorted_is_rearranged, sorted_by_score};
use crate::tree::{AlternativeTree, Tree, TreeElement, MAX_INNER_ID};

verus! {

impl Tree {
    /// Every test below a position, in the tree and in the alternatives,
    /// is a test on the samples of the dataset.
    pub open spec fn tests_within<D: Dataset>(&self, dataset: &D, id: u64) -> bool
        decreases self, u64::MAX - id,
    {
        match self.element(id) {
            Some(TreeElement::Leaf { .. }) => true,
            Some(TreeElement::Node { split }) => is_test_of(split, dataset) && (1 <= id <= MAX_INNER_ID
                ==> self.tests_within(dataset, (2 * id) as u64) && self.tests_within(
                dataset,
                (2 * id + 1) as u64,
            )),
            None => match self.alternatives(id) {
                Some(list) => forall|i: int|
                    0 <= i < list.len() ==> is_test_of((#[trigger] list[i]).split, dataset) && list[i].tree.tests_within(
                        dataset,
                        id,
                    ),
                None => true,
            },
        }
    }

    /// The tests of a subtree stay what they are where the tree changes
    /// elsewhere.
    pub proof fn lemma_tests_elsewhere<D: Dataset>(&self, later: &Tree, dataset: &D, root: u64)
        requires
            1 <= root,
            forall|id: u64| is_below(id, root) ==> #[trigger] later.element(id) == self.element(id),
            forall|id: u64| is_below(id, root) ==> #[trigger] later.alternatives(id) == self.alternatives(id),
        ensures
            later.tests_within(dataset, root) == self.tests_within(dataset, root),
        decreases u64::MAX - root,
    {
        assert(is_below(root, root));
        assert(later.element(root) == self.element(root));
        assert(later.alternatives(root) == self.alternatives(root));
        match self.element(root) {
            Some(TreeElement::Node { split }) => {
                if root <= MAX_INNER_ID {
                    let left = (2 * root) as u64;
                    let right = (2 * root + 1) as u64;
                    assert forall|id: u64| is_below(id, left) implies #[trigger] later.element(id) == self.element(
                        id,
                    ) by {
                        lemma_below_child(id, root);
                    }
                    assert forall|id: u64| is_below(id, left) implies #[trigger] later.alternatives(id)
                        == self.alternatives(id) by {
                        lemma_below_child(id, root);
                    }
                    assert forall|id: u64| is_below(id, right) implies #[trigger] later.element(id) == self.element(
                        id,
                    ) by {
                        lemma_below_child(id, root);
                    }
                    assert forall|id: u64| is_below(id, right) implies #[trigger] later.alternatives(id)
                        == self.alternatives(id) by {
                        lemma_below_child(id, root);
                    }
                    self.lemma_tests_elsewhere(later, dataset, left);
                    self.lemma_tests_elsewhere(later, dataset, right);
                }
            },
            _ => {},
        }
    }

    /// Forgetting leaves every test where it is and as it is: the walk of
    /// any sample through the tree ends where it ended before, and the
    /// tests are tests on the samples of the same datasets as before.
    pub proof fn lemma_forgetting_keeps_tests<D: Dataset, S: Sample, T: Sample>(
        &self,
        after: &Tree,
        sample: &S,
        id: u64,
        dataset: &D,
        other: &T,
        from: u64,
    )
        requires
            self.forgets(after, sample, id),
        ensures
            after.walk_end(other, from) == self.walk_end(other, from),
            self.tests_within(dataset, from) ==> after.tests_within(dataset, from),
        decreases self, u64::MAX - from,
    {
        let end = self.walk_end(sample, id);
        match self.element(from) {
            Some(TreeElement::Leaf { .. }) => {},
            Some(TreeElement::Node { split }) => {
                assert(after.element(from) == self.element(from));
                if 1 <= from <= MAX_INNER_ID {
                    self.lemma_forgetting_keeps_tests(after, sample, id, dataset, other, (2 * from) as u64);
                    self.lemma_forgetting_keeps_tests(after, sample, id, dataset, other, (2 * from + 1) as u64);
                }
            },
            None => {
                assert(after.element(from).is_none());
                if self.tests_within(dataset, from) && self.alternatives(from).is_some() {
                    let list = self.alternatives(from).unwrap();
                    if self.element(end).is_none() && self.slot(end).is_some() && self.slot(from) == self.slot(end) {
                        let slot = self.slot(end).unwrap();
                        let updated = choose|updated: Seq<AlternativeTree>|
                            {
                                &&& #[trigger] each_discounts(self.alternative_subtrees[slot as int]@, updated, sample)
                                &&& forall|i: int|
                                    0 <= i < updated.len() ==> (#[trigger] self.alternative_subtrees[slot as int]@[i]).tree.forgets(
                                        &updated[i].tree,
                                        sample,
                                        end,
                                    )
                                &&& after.alternative_subtrees[slot as int]@ == sorted_by_score(updated)
                            };
                        let sorted = sorted_by_score(updated);
                        lemma_sorted_is_rearranged(updated);
                        assert(after.alternatives(from) == Some(sorted));
                        assert forall|j: int| 0 <= j < sorted.len() implies is_test_of(
                            (#[trigger] sorted[j]).split,
                            dataset,
                        ) && sorted[j].tree.tests_within(dataset, from) by {
                            let i = choose|i: int| 0 <= i < updated.len() && updated[i] == sorted[j];
                            assert(list[i].tree.forgets(&updated[i].tree, sample, end));
                            assert(is_test_of(list[i].split, dataset) && list[i].tree.tests_within(dataset, from));
                            list[i].tree.lemma_forgetting_keeps_tests(&updated[i].tree, sample, end, dataset, other, from);
                        }
                    } else {
                        assert(after.alternatives(from) == Some(list));
                    }
                }
            },
        }
    }
}

} // verus!
