//! What the counts of a tree stand for: the samples that the tree was fit
//! on, less those that it has forgotten.
//!
//! A tree tallies a collection of samples where every leaf counts the
//! samples of the collection that reach it, and every alternative at an
//! open position the samples that reach that position. Fitting returns a
//! tree that tallies its samples, and a tree that tallies some samples and
//! forgets one of them tallies the others.

use vstd::prelude::*;
use vstd::multiset::*;
use crate::dataset::{count_plus, goes_left, Sample};
use crate::scan::count_bucket;
use crate::split_stats::SplitStats;
use crate::forget::each_discounts;
use crate::positions::{is_below, lemma_below_child, lemma_children_apart};
use crate::ranking::{lemma_sorted_is_rearranged, sorted_by_score};
use crate::tree::{AlternativeTree, Split, Tree, TreeElement, MAX_INNER_ID};

verus! {

/// The samples with the given label.
pub open spec fn with_label<S: Sample>(samples: Multiset<S>, plus: bool) -> Multiset<S> {
    samples.filter(|sample: S| sample.spec_true_label() == plus)
}

/// The samples that the split sends to the given side.
pub open spec fn on_side<S: Sample>(samples: Multiset<S>, split: &Split, left: bool) -> Multiset<S> {
    samples.filter(|sample: S| goes_left(&sample, split) == left)
}

/// The number of samples with the given label on the given side of the split.
pub open spec fn tally<S: Sample>(samples: Multiset<S>, split: &Split, plus: bool, left: bool) -> nat {
    with_label(on_side(samples, split, left), plus).len()
}

/// The statistics count the samples on either side of the split.
pub open spec fn counts_match<S: Sample>(stats: SplitStats, samples: Multiset<S>, split: &Split) -> bool {
    &&& stats.num_plus_left == tally(samples, split, true, true)
    &&& stats.num_minus_left == tally(samples, split, false, true)
    &&& stats.num_plus_right == tally(samples, split, true, false)
    &&& stats.num_minus_right == tally(samples, split, false, false)
}

/// One more sample grows the part that it belongs to and no other.
pub proof fn lemma_one_more<S: Sample>(samples: Multiset<S>, sample: S, split: &Split)
    ensures
        forall|left: bool| #[trigger]
            on_side(samples.insert(sample), split, left) == if goes_left(&sample, split) == left {
                on_side(samples, split, left).insert(sample)
            } else {
                on_side(samples, split, left)
            },
        forall|plus: bool| #[trigger]
            with_label(samples.insert(sample), plus) == if sample.spec_true_label() == plus {
                with_label(samples, plus).insert(sample)
            } else {
                with_label(samples, plus)
            },
        samples.insert(sample).len() == samples.len() + 1,
{
    broadcast use group_multiset_axioms;

    assert forall|left: bool| #[trigger]
        on_side(samples.insert(sample), split, left) == if goes_left(&sample, split) == left {
            on_side(samples, split, left).insert(sample)
        } else {
            on_side(samples, split, left)
        } by {
        if goes_left(&sample, split) == left {
            assert(on_side(samples.insert(sample), split, left) =~= on_side(samples, split, left).insert(sample));
        } else {
            assert(on_side(samples.insert(sample), split, left) =~= on_side(samples, split, left));
        }
    }
    assert forall|plus: bool| #[trigger]
        with_label(samples.insert(sample), plus) == if sample.spec_true_label() == plus {
            with_label(samples, plus).insert(sample)
        } else {
            with_label(samples, plus)
        } by {
        if sample.spec_true_label() == plus {
            assert(with_label(samples.insert(sample), plus) =~= with_label(samples, plus).insert(sample));
        } else {
            assert(with_label(samples.insert(sample), plus) =~= with_label(samples, plus));
        }
    }
}

/// One sample fewer shrinks the part that it belongs to and no other.
pub proof fn lemma_one_fewer<S: Sample>(samples: Multiset<S>, sample: S, split: &Split)
    requires
        samples.count(sample) > 0,
    ensures
        forall|left: bool| #[trigger]
            on_side(samples.remove(sample), split, left) == if goes_left(&sample, split) == left {
                on_side(samples, split, left).remove(sample)
            } else {
                on_side(samples, split, left)
            },
        forall|plus: bool| #[trigger]
            with_label(samples.remove(sample), plus) == if sample.spec_true_label() == plus {
                with_label(samples, plus).remove(sample)
            } else {
                with_label(samples, plus)
            },
        forall|left: bool| goes_left(&sample, split) == left ==> #[trigger] on_side(samples, split, left).count(sample) > 0,
        forall|plus: bool| sample.spec_true_label() == plus ==> #[trigger] with_label(samples, plus).count(sample) > 0,
        samples.remove(sample).len() + 1 == samples.len(),
{
    broadcast use group_multiset_axioms;

    assert forall|left: bool| #[trigger]
        on_side(samples.remove(sample), split, left) == if goes_left(&sample, split) == left {
            on_side(samples, split, left).remove(sample)
        } else {
            on_side(samples, split, left)
        } by {
        if goes_left(&sample, split) == left {
            assert(on_side(samples.remove(sample), split, left) =~= on_side(samples, split, left).remove(sample));
        } else {
            assert(on_side(samples.remove(sample), split, left) =~= on_side(samples, split, left));
        }
    }
    assert forall|plus: bool| #[trigger]
        with_label(samples.remove(sample), plus) == if sample.spec_true_label() == plus {
            with_label(samples, plus).remove(sample)
        } else {
            with_label(samples, plus)
        } by {
        if sample.spec_true_label() == plus {
            assert(with_label(samples.remove(sample), plus) =~= with_label(samples, plus).remove(sample));
        } else {
            assert(with_label(samples.remove(sample), plus) =~= with_label(samples, plus));
        }
    }
    assert(samples.remove(sample).insert(sample) =~= samples);
}

/// Every sample has one of the two labels, and goes to one of the two sides.
pub proof fn lemma_two_parts<S: Sample>(samples: Multiset<S>, split: &Split)
    ensures
        with_label(samples, true).len() + with_label(samples, false).len() == samples.len(),
        on_side(samples, split, true).len() + on_side(samples, split, false).len() == samples.len(),
{
    broadcast use group_multiset_axioms;

    assert(with_label(samples, true).add(with_label(samples, false)) =~= samples);
    assert(on_side(samples, split, true).add(on_side(samples, split, false)) =~= samples);
}

/// Counting along a list of samples gives the tallies of the samples.
pub proof fn lemma_counted_is_tallied<S: Sample>(samples: Seq<S>, split: &Split)
    ensures
        forall|plus: bool, left: bool| #[trigger]
            count_bucket(samples, split, plus, left) == tally(samples.to_multiset(), split, plus, left),
        count_plus(samples) == with_label(samples.to_multiset(), true).len(),
        samples.len() == samples.to_multiset().len(),
    decreases samples.len(),
{
    broadcast use group_multiset_axioms;

    vstd::seq_lib::to_multiset_len(samples);
    if samples.len() == 0 {
        assert(samples.to_multiset() =~= Multiset::<S>::empty());
        assert(with_label(samples.to_multiset(), true) =~= Multiset::<S>::empty());
        assert forall|plus: bool, left: bool| #[trigger]
            count_bucket(samples, split, plus, left) == tally(samples.to_multiset(), split, plus, left) by {
            assert(on_side(samples.to_multiset(), split, left) =~= Multiset::<S>::empty());
            assert(with_label(on_side(samples.to_multiset(), split, left), plus) =~= Multiset::<S>::empty());
        }
    } else {
        let rest = samples.drop_last();
        let last = samples.last();
        lemma_counted_is_tallied(rest, split);
        assert(samples == rest.push(last));
        vstd::seq_lib::to_multiset_build(rest, last);
        assert(samples.to_multiset() == rest.to_multiset().insert(last));
        lemma_one_more(rest.to_multiset(), last, split);
        assert forall|plus: bool, left: bool| #[trigger]
            count_bucket(samples, split, plus, left) == tally(samples.to_multiset(), split, plus, left) by {
            lemma_one_more(on_side(rest.to_multiset(), split, left), last, split);
            assert(count_bucket(rest, split, plus, left) == tally(rest.to_multiset(), split, plus, left));
        }
    }
}

/// Where the first `mid` samples of a list go left and the others right,
/// the two parts of the list are the two sides of the split.
pub proof fn lemma_divided_sides<S: Sample>(samples: Seq<S>, split: &Split, mid: int)
    requires
        0 <= mid <= samples.len(),
        forall|i: int| 0 <= i < mid ==> goes_left(&#[trigger] samples[i], split),
        forall|i: int| mid <= i < samples.len() ==> !goes_left(&#[trigger] samples[i], split),
    ensures
        on_side(samples.to_multiset(), split, true) == samples.subrange(0, mid).to_multiset(),
        on_side(samples.to_multiset(), split, false) == samples.subrange(mid, samples.len() as int).to_multiset(),
    decreases samples.len(),
{
    broadcast use group_multiset_axioms;

    if samples.len() == 0 {
        assert(samples.subrange(0, mid) =~= samples);
        vstd::seq_lib::to_multiset_len(samples);
        assert(samples.to_multiset() =~= Multiset::<S>::empty());
        assert(on_side(samples.to_multiset(), split, true) =~= Multiset::<S>::empty());
        assert(on_side(samples.to_multiset(), split, false) =~= Multiset::<S>::empty());
    } else {
        let rest = samples.drop_last();
        let last = samples.last();
        assert(samples == rest.push(last));
        vstd::seq_lib::to_multiset_build(rest, last);
        lemma_one_more(rest.to_multiset(), last, split);
        if mid == samples.len() {
            lemma_divided_sides(rest, split, mid - 1);
            assert(samples.subrange(0, mid) == rest.subrange(0, mid - 1).push(last));
            vstd::seq_lib::to_multiset_build(rest.subrange(0, mid - 1), last);
            assert(samples.subrange(mid, samples.len() as int) =~= rest.subrange(mid - 1, rest.len() as int));
        } else {
            lemma_divided_sides(rest, split, mid);
            assert(samples.subrange(0, mid) =~= rest.subrange(0, mid));
            assert(samples.subrange(mid, samples.len() as int) == rest.subrange(mid, rest.len() as int).push(last));
            vstd::seq_lib::to_multiset_build(rest.subrange(mid, rest.len() as int), last);
        }
    }
}

impl Tree {
    /// The tree tallies the samples from a position on: every leaf below
    /// the position counts the samples that reach it, and the positive
    /// ones among them; at every open position, the statistics of every
    /// alternative count the samples that reach the position, and the
    /// subtree of every alternative tallies them.
    pub open spec fn tallies<S: Sample>(&self, id: u64, samples: Multiset<S>) -> bool
        decreases self, u64::MAX - id,
    {
        match self.element(id) {
            Some(TreeElement::Leaf { num_samples, num_plus }) => num_samples == samples.len() && num_plus
                == with_label(samples, true).len(),
            Some(TreeElement::Node { split }) => 1 <= id <= MAX_INNER_ID ==> self.tallies(
                (2 * id) as u64,
                on_side(samples, &split, true),
            ) && self.tallies((2 * id + 1) as u64, on_side(samples, &split, false)),
            None => match self.alternatives(id) {
                Some(list) => forall|i: int|
                    0 <= i < list.len() ==> counts_match(
                        (#[trigger] list[i]).split_stats,
                        samples,
                        &list[i].split,
                    ) && list[i].tree.tallies(id, samples),
                None => true,
            },
        }
    }
}

impl Tree {
    /// What a subtree tallies does not change where the tree changes
    /// elsewhere.
    pub proof fn lemma_tallies_elsewhere<S: Sample>(&self, later: &Tree, root: u64, samples: Multiset<S>)
        requires
            1 <= root,
            forall|id: u64| is_below(id, root) ==> #[trigger] later.element(id) == self.element(id),
            forall|id: u64| is_below(id, root) ==> #[trigger] later.alternatives(id) == self.alternatives(id),
        ensures
            later.tallies(root, samples) == self.tallies(root, samples),
        decreases u64::MAX - root,
    {
        assert(is_below(root, root));
        assert(later.element(root) == self.element(root));
        assert(later.alternatives(root) == self.alternatives(root));
        match self.element(root) {
            Some(TreeElement::Node { split }) => {
                if root <= MAX_INNER_ID {
                    let left = (2 * root) as u64;
                    let right = (2 * root + 1) as u64;
                    assert forall|id: u64| is_below(id, left) implies #[trigger] later.element(id) == self.element(
                        id,
                    ) by {
                        lemma_below_child(id, root);
                    }
                    assert forall|id: u64| is_below(id, left) implies #[trigger] later.alternatives(id)
                        == self.alternatives(id) by {
                        lemma_below_child(id, root);
                    }
                    assert forall|id: u64| is_below(id, right) implies #[trigger] later.element(id) == self.element(
                        id,
                    ) by {
                        lemma_below_child(id, root);
                    }
                    assert forall|id: u64| is_below(id, right) implies #[trigger] later.alternatives(id)
                        == self.alternatives(id) by {
                        lemma_below_child(id, root);
                    }
                    self.lemma_tallies_elsewhere(later, left, on_side(samples, &split, true));
                    self.lemma_tallies_elsewhere(later, right, on_side(samples, &split, false));
                }
            },
            _ => {},
        }
    }

    /// A tree that tallies some samples can forget each of them.
    pub proof fn lemma_tallied_can_be_forgotten<S: Sample>(&self, id: u64, samples: Multiset<S>, sample: &S)
        requires
            self.complete(id),
            self.tallies(id, samples),
            samples.count(*sample) > 0,
        ensures
            self.can_forget(sample, id),
        decreases self, u64::MAX - id,
    {
        broadcast use group_multiset_axioms;

        match self.element(id) {
            Some(TreeElement::Leaf { num_samples, num_plus }) => {
                if sample.spec_true_label() {
                    assert(with_label(samples, true).count(*sample) > 0);
                }
            },
            Some(TreeElement::Node { split }) => {
                let left = goes_left(sample, &split);
                let child = if left {
                    (2 * id) as u64
                } else {
                    (2 * id + 1) as u64
                };
                assert(on_side(samples, &split, left).count(*sample) > 0);
                self.lemma_tallied_can_be_forgotten(child, on_side(samples, &split, left), sample);
                assert(self.walk_end(sample, id) == self.walk_end(sample, child));
            },
            None => {
                let list = self.alternatives(id).unwrap();
                assert forall|i: int| 0 <= i < list.len() implies (#[trigger] list[i]).counts(sample)
                    && list[i].tree.can_forget(sample, id) by {
                    let split = list[i].split;
                    let left = goes_left(sample, &split);
                    assert(counts_match(list[i].split_stats, samples, &split));
                    assert(on_side(samples, &split, left).count(*sample) > 0);
                    assert(with_label(on_side(samples, &split, left), sample.spec_true_label()).count(*sample) > 0);
                    list[i].tree.lemma_tallied_can_be_forgotten(id, samples, sample);
                }
            },
        }
    }

    /// A tree that tallies some samples and forgets one of them tallies
    /// the others: the counts of the tree are those of a tree with the
    /// same tests that never saw the forgotten sample.
    pub proof fn lemma_forgetting_keeps_tallies<S: Sample>(
        &self,
        after: &Tree,
        sample: &S,
        id: u64,
        samples: Multiset<S>,
    )
        requires
            self.complete(id),
            self.balanced(id),
            self.distinct_slots(),
            self.tallies(id, samples),
            samples.count(*sample) > 0,
            self.forgets(after, sample, id),
        ensures
            after.tallies(id, samples.remove(*sample)),
        decreases self, u64::MAX - id,
    {
        let end = self.walk_end(sample, id);
        let rest = samples.remove(*sample);
        match self.element(id) {
            Some(TreeElement::Leaf { num_samples, num_plus }) => {
                lemma_one_fewer(samples, *sample, &Split::Numerical { attribute_index: 0, cut_off: 0 });
                if sample.spec_true_label() {
                    lemma_one_fewer(
                        with_label(samples, true),
                        *sample,
                        &Split::Numerical { attribute_index: 0, cut_off: 0 },
                    );
                }
            },
            Some(TreeElement::Node { split }) => {
                let left = goes_left(sample, &split);
                let (on_way, aside) = if left {
                    ((2 * id) as u64, (2 * id + 1) as u64)
                } else {
                    ((2 * id + 1) as u64, (2 * id) as u64)
                };
                lemma_one_fewer(samples, *sample, &split);
                assert(self.walk_end(sample, on_way) == end);
                self.lemma_forgetting_keeps_tallies(after, sample, on_way, on_side(samples, &split, left));
                assert(on_side(rest, &split, left) == on_side(samples, &split, left).remove(*sample));
                assert(on_side(rest, &split, !left) == on_side(samples, &split, !left));
                self.lemma_walk_ends_below(sample, on_way);
                self.lemma_forgetting_changes_one(after, sample, id);
                assert forall|other: u64| is_below(other, aside) implies #[trigger] after.element(other)
                    == self.element(other) by {
                    lemma_children_apart(end, id);
                }
                assert forall|other: u64| is_below(other, aside) implies #[trigger] after.alternatives(other)
                    == self.alternatives(other) by {
                    lemma_children_apart(end, id);
                }
                self.lemma_tallies_elsewhere(after, aside, on_side(samples, &split, !left));
                assert(id != end) by {
                    lemma_below_child(end, id);
                }
                assert(after.element(id) == self.element(id));
            },
            None => {
                let list = self.alternatives(id).unwrap();
                let slot = self.slot(id).unwrap();
                let updated = choose|updated: Seq<AlternativeTree>|
                    {
                        &&& #[trigger] each_discounts(self.alternative_subtrees[slot as int]@, updated, sample)
                        &&& forall|i: int|
                            0 <= i < updated.len() ==> (#[trigger] self.alternative_subtrees[slot as int]@[i]).tree.forgets(
                                &updated[i].tree,
                                sample,
                                end,
                            )
                        &&& after.alternative_subtrees[slot as int]@ == sorted_by_score(updated)
                    };
                let sorted = sorted_by_score(updated);
                lemma_sorted_is_rearranged(updated);
                assert(after.alternatives(id) == Some(sorted));
                assert forall|i: int| 0 <= i < updated.len() implies counts_match(
                    (#[trigger] updated[i]).split_stats,
                    rest,
                    &updated[i].split,
                ) && updated[i].tree.tallies(id, rest) by {
                    let split = list[i].split;
                    let left = goes_left(sample, &split);
                    let plus = sample.spec_true_label();
                    assert(list[i].tree.forgets(&updated[i].tree, sample, end));
                    assert(list[i].tree.complete(id));
                    assert(counts_match(list[i].split_stats, samples, &split));
                    list[i].tree.lemma_forgetting_keeps_tallies(&updated[i].tree, sample, id, samples);
                    lemma_one_fewer(samples, *sample, &split);
                    lemma_one_fewer(on_side(samples, &split, left), *sample, &split);
                    lemma_one_fewer(with_label(on_side(samples, &split, left), plus), *sample, &split);
                    assert(updated[i].split_stats == list[i].stats_without(sample));
                    assert(tally(rest, &split, plus, left) + 1 == tally(samples, &split, plus, left));
                    assert(tally(rest, &split, !plus, left) == tally(samples, &split, !plus, left));
                    assert(tally(rest, &split, plus, !left) == tally(samples, &split, plus, !left));
                    assert(tally(rest, &split, !plus, !left) == tally(samples, &split, !plus, !left));
                }
                assert forall|j: int| 0 <= j < sorted.len() implies counts_match(
                    (#[trigger] sorted[j]).split_stats,
                    rest,
                    &sorted[j].split,
                ) && sorted[j].tree.tallies(id, rest) by {
                    let i = choose|i: int| 0 <= i < updated.len() && updated[i] == sorted[j];
                    assert(updated[i].tree.tallies(id, rest));
                }
            },
        }
    }
}

impl Tree {
    /// The samples that take the way of a walker from a position on, down
    /// to where the walker ends in this tree.
    pub open spec fn reaching<S: Sample, W: Sample>(&self, walker: &W, id: u64, samples: Multiset<S>) -> Multiset<
        S,
    >
        decreases u64::MAX - id,
    {
        match self.element(id) {
            Some(TreeElement::Node { split }) => if 1 <= id <= MAX_INNER_ID {
                if goes_left(walker, &split) {
                    self.reaching(walker, (2 * id) as u64, on_side(samples, &split, true))
                } else {
                    self.reaching(walker, (2 * id + 1) as u64, on_side(samples, &split, false))
                }
            } else {
                samples
            },
            _ => samples,
        }
    }

    /// Where a tree tallies some samples and the walk of a sample ends in a
    /// leaf, the label that the tree gives is the label of the majority of
    /// the tallied samples that take the same way: the label that any tree
    /// with the same tests gives that was fit on the tallied samples.
    pub proof fn lemma_label_is_majority<S: Sample, W: Sample>(&self, walker: &W, id: u64, samples: Multiset<S>)
        requires
            self.tallies(id, samples),
            self.element(self.walk_end(walker, id)) matches Some(TreeElement::Leaf { .. }),
        ensures
            self.predicts(walker, id) == (2 * with_label(self.reaching(walker, id, samples), true).len()
                > self.reaching(walker, id, samples).len()),
        decreases u64::MAX - id,
    {
        match self.element(id) {
            Some(TreeElement::Node { split }) => {
                if 1 <= id <= MAX_INNER_ID {
                    if goes_left(walker, &split) {
                        self.lemma_label_is_majority(walker, (2 * id) as u64, on_side(samples, &split, true));
                    } else {
                        self.lemma_label_is_majority(walker, (2 * id + 1) as u64, on_side(samples, &split, false));
                    }
                }
            },
            _ => {},
        }
    }
}

} // verus!
