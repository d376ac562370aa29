//! The ensemble: trees that are fit independently of each other and vote
//! on the label of a sample.

use vstd::prelude::*;
use rayon::iter::{IntoParallelIterator, IntoParallelRefIterator, IntoParallelRefMutIterator, ParallelIterator};
use crate::dataset::{describes, Dataset, Sample};
use crate::forget::ForgetError;
use crate::split_stats::gini_of;
use crate::tree::Tree;
use crate::utils::capped;
use vstd::multiset::Multiset;

verus! {

/// An ensemble of extremely randomized trees.
pub struct ExtremelyRandomizedTrees {
    pub trees: Vec<Tree>,
}

/// The number of trees among the first `upto` that give the sample a
/// positive label.
pub open spec fn positive_votes<S: Sample>(trees: Seq<Tree>, sample: &S, upto: int) -> nat
    decreases upto,
{
    if upto <= 0 {
        0
    } else {
        positive_votes(trees, sample, upto - 1) + if trees[upto - 1].predicts(sample, 1) {
            1nat
        } else {
            0nat
        }
    }
}

/// The smallest number whose square is at least `n`.
pub open spec fn is_ceil_sqrt(n: int, root: int) -> bool {
    &&& 0 <= root
    &&& root * root >= n
    &&& root > 0 ==> (root - 1) * (root - 1) < n
}

/// The share `numerator / denominator` of `n`, rounded to the nearest
/// whole number, halves upwards.
pub open spec fn rounded_share(n: int, numerator: int, denominator: int) -> int {
    (2 * n * numerator + denominator) / (2 * denominator)
}

/// The smallest number whose square is at least `n`.
pub fn ceil_sqrt(n: u8) -> (root: usize)
    ensures
        is_ceil_sqrt(n as int, root as int),
        root <= 16,
{
    let mut root: usize = 0;
    let mut square: usize = 0;
    while square < n as usize
        invariant
            root <= 16,
            square == root * root,
            root > 0 ==> (root - 1) * (root - 1) < n,
        decreases 16 - root,
    {
        assert(root < 16) by (nonlinear_arith)
            requires
                root * root < 256,
        ;
        assert((root + 1) * (root + 1) == root * root + 2 * root + 1) by (nonlinear_arith);
        square = square + 2 * root + 1;
        root += 1;
    }
    root
}

/// The share `epsilon_numerator / epsilon_denominator` of the records,
/// rounded to the nearest whole number: the largest number of the machine
/// where the share does not fit.
pub fn deletion_budget(num_records: u32, epsilon_numerator: u32, epsilon_denominator: u32) -> (budget: usize)
    requires
        0 < epsilon_denominator,
    ensures
        budget == capped(
            rounded_share(num_records as int, epsilon_numerator as int, epsilon_denominator as int) as nat,
        ),
        epsilon_numerator <= epsilon_denominator ==> budget <= num_records,
{
    let n: u128 = num_records as u128;
    let numerator: u128 = epsilon_numerator as u128;
    let denominator: u128 = epsilon_denominator as u128;
    assert(2 * n * numerator <= 2 * 0xffff_ffff * 0xffff_ffff) by (nonlinear_arith)
        requires
            numerator <= 0xffff_ffff,
            n <= 0xffff_ffff,
    ;
    let doubled: u128 = 2 * n * numerator + denominator;
    let share: u128 = doubled / (2 * denominator);
    assert(numerator <= denominator ==> share <= n) by (nonlinear_arith)
        requires
            share as int == (doubled as int) / (2 * denominator),
            doubled == 2 * n * numerator + denominator,
            0 < denominator,
    ;
    if share > usize::MAX as u128 {
        usize::MAX
    } else {
        share as usize
    }
}

/// What holds of a tree of an ensemble once it is fit on the samples: it
/// is well formed, its counts are those of the samples, its tests are
/// tests on the samples of the dataset, it holds at every position what
/// fitting decides under the budget, and its settings are the given ones.
pub open spec fn is_fitted<D: Dataset, S: Sample>(
    tree: Tree,
    dataset: &D,
    samples: Seq<S>,
    tree_index: int,
    min_leaf_size: usize,
    num_attributes_to_try_per_split: usize,
    target_robustness: usize,
    max_tries_per_split: usize,
) -> bool {
    &&& tree.wf()
    &&& tree.tallies(1, samples.to_multiset())
    &&& tree.tests_within(dataset, 1)
    &&& tree.decided(
        dataset,
        1,
        samples.to_multiset(),
        target_robustness as nat,
        gini_of(dataset.spec_num_plus() as int, dataset.spec_num_records() as int),
        Seq::empty(),
        0,
        None,
    )
    &&& tree.live_count(1) == samples.len()
    &&& tree.num_attributes == dataset.spec_num_attributes()
    &&& tree.index == tree_index
    &&& tree.min_leaf_size == min_leaf_size
    &&& tree.num_attributes_to_try_per_split == num_attributes_to_try_per_split
    &&& tree.max_tries_per_split == max_tries_per_split
}

/// `rayon::iter::ParallelIterator::map` and `collect` over the indexes of
/// the trees: the trees come in the order of their indexes, and each one
/// is what [`fit_one`] returns for its index.
#[verifier::external_body]
fn fit_trees<D: Dataset + Sync, S: Sample + Sync>(
    dataset: &D,
    samples: &Vec<S>,
    seed: u64,
    num_trees: usize,
    min_leaf_size: usize,
    num_attributes_to_try_per_split: usize,
    target_robustness: usize,
    max_tries_per_split: usize,
) -> (trees: Vec<Tree>)
    requires
        samples@.len() <= u32::MAX,
        describes(dataset, samples@),
        dataset.spec_num_plus() <= dataset.spec_num_records(),
    ensures
        trees@.len() == num_trees,
        forall|i: int|
            0 <= i < trees@.len() ==> is_fitted(
                #[trigger] trees@[i],
                dataset,
                samples@,
                i,
                min_leaf_size,
                num_attributes_to_try_per_split,
                target_robustness,
                max_tries_per_split,
            ),
{
    (0..num_trees).into_par_iter().map(
        |tree_index| fit_one(
            dataset,
            samples,
            seed,
            tree_index,
            min_leaf_size,
            num_attributes_to_try_per_split,
            target_robustness,
            max_tries_per_split,
        ),
    ).collect()
}

/// `rayon::iter::ParallelIterator::filter` and `count`: the number of
/// trees that give the sample a positive label.
#[verifier::external_body]
fn count_positive_votes<S: Sample + Sync>(trees: &Vec<Tree>, sample: &S) -> (num_plus: usize)
    requires
        forall|i: int| 0 <= i < trees@.len() ==> (#[trigger] trees@[i]).wf() && trees@[i].fits(sample),
    ensures
        num_plus == positive_votes(trees@, sample, trees@.len() as int),
{
    trees.par_iter().filter(|tree| tree.predict(sample)).count()
}

/// `rayon::iter::ParallelIterator::all`: whether every tree still counts
/// the sample.
#[verifier::external_body]
fn all_represent<S: Sample + Sync>(trees: &Vec<Tree>, sample: &S) -> (all: bool)
    requires
        forall|i: int| 0 <= i < trees@.len() ==> (#[trigger] trees@[i]).wf() && trees@[i].fits(sample),
    ensures
        all == forall|i: int| 0 <= i < trees@.len() ==> (#[trigger] trees@[i]).can_forget(sample, 1),
{
    trees.par_iter().all(|tree| tree.represents(sample, 1))
}

/// `rayon::iter::ParallelIterator::for_each` over the trees: every tree
/// has forgotten the sample, and stands where it stood.
#[verifier::external_body]
fn forget_in_all<S: Sample + Sync>(trees: &mut Vec<Tree>, sample: &S)
    requires
        forall|i: int|
            0 <= i < old(trees)@.len() ==> {
                &&& (#[trigger] old(trees)@[i]).wf()
                &&& old(trees)@[i].fits(sample)
                &&& old(trees)@[i].can_forget(sample, 1)
            },
    ensures
        final(trees)@.len() == old(trees)@.len(),
        forall|i: int| 0 <= i < old(trees)@.len() ==> (#[trigger] old(trees)@[i]).forgets(&final(trees)@[i], sample, 1),
{
    trees.par_iter_mut().for_each(|tree| Tree::forget_from(tree, sample, 1))
}

/// Fits one tree of the ensemble on a copy of the samples.
fn fit_one<D: Dataset, S: Sample>(
    dataset: &D,
    samples: &Vec<S>,
    seed: u64,
    tree_index: usize,
    min_leaf_size: usize,
    num_attributes_to_try_per_split: usize,
    target_robustness: usize,
    max_tries_per_split: usize,
) -> (tree: Tree)
    requires
        samples@.len() <= u32::MAX,
        describes(dataset, samples@),
        dataset.spec_num_plus() <= dataset.spec_num_records(),
    ensures
        is_fitted(
            tree,
            dataset,
            samples@,
            tree_index as int,
            min_leaf_size,
            num_attributes_to_try_per_split,
            target_robustness,
            max_tries_per_split,
        ),
{
    let mut copy_of_samples = vstd::slice::slice_to_vec(samples.as_slice());
    Tree::fit(
        dataset,
        &mut copy_of_samples,
        seed,
        tree_index,
        min_leaf_size,
        num_attributes_to_try_per_split,
        target_robustness,
        max_tries_per_split,
    )
}

impl ExtremelyRandomizedTrees {
    /// Every tree is well formed, and all trees test samples of one kind.
    pub open spec fn wf(&self) -> bool {
        forall|i: int|
            0 <= i < self.trees@.len() ==> (#[trigger] self.trees@[i]).wf() && self.trees@[i].num_attributes
                == self.trees@[0].num_attributes
    }

    /// Every tree tallies the samples: its counts are those of the samples.
    pub open spec fn tallies<S: Sample>(&self, samples: Multiset<S>) -> bool {
        forall|i: int| 0 <= i < self.trees@.len() ==> (#[trigger] self.trees@[i]).tallies(1, samples)
    }

    /// An ensemble that tallies some samples can forget each of them, and
    /// tallies the others afterwards: its counts are those of an ensemble
    /// with the same tests that never saw the forgotten sample.
    pub proof fn lemma_forgetting_keeps_tallies<S: Sample>(
        &self,
        after: &ExtremelyRandomizedTrees,
        sample: &S,
        samples: Multiset<S>,
    )
        requires
            self.wf(),
            self.tallies(samples),
            samples.count(*sample) > 0,
        ensures
            self.can_forget(sample),
            after.trees@.len() == self.trees@.len() && (forall|i: int|
                0 <= i < self.trees@.len() ==> (#[trigger] self.trees@[i]).forgets(&after.trees@[i], sample, 1))
                ==> after.tallies(samples.remove(*sample)),
    {
        assert forall|i: int| 0 <= i < self.trees@.len() implies (#[trigger] self.trees@[i]).can_forget(sample, 1) by {
            assert(self.trees@[i].wf());
            self.trees@[i].lemma_tallied_can_be_forgotten(1, samples, sample);
        }
        if after.trees@.len() == self.trees@.len() && (forall|i: int|
            0 <= i < self.trees@.len() ==> (#[trigger] self.trees@[i]).forgets(&after.trees@[i], sample, 1)) {
            assert forall|i: int| 0 <= i < after.trees@.len() implies (#[trigger] after.trees@[i]).tallies(
                1,
                samples.remove(*sample),
            ) by {
                assert(self.trees@[i].wf());
                assert(self.trees@[i].forgets(&after.trees@[i], sample, 1));
                self.trees@[i].lemma_forgetting_keeps_tallies(&after.trees@[i], sample, 1, samples);
            }
        }
    }

    /// The sample has every attribute that the trees may test.
    pub open spec fn fits<S: Sample>(&self, sample: &S) -> bool {
        forall|i: int| 0 <= i < self.trees@.len() ==> (#[trigger] self.trees@[i]).fits(sample)
    }

    /// Every tree still counts the sample.
    pub open spec fn can_forget<S: Sample>(&self, sample: &S) -> bool {
        forall|i: int| 0 <= i < self.trees@.len() ==> (#[trigger] self.trees@[i]).can_forget(sample, 1)
    }

    /// The label of the ensemble: positive where more than half of the
    /// trees say so.
    pub open spec fn predicts<S: Sample>(&self, sample: &S) -> bool {
        positive_votes(self.trees@, sample, self.trees@.len() as int) * 2 > self.trees@.len()
    }

    /// Fits `num_trees` trees with a deletion budget of a thousandth of
    /// the records.
    pub fn fit<D: Dataset + Sync, S: Sample + Sync>(
        dataset: &D,
        samples: Vec<S>,
        seed: u64,
        num_trees: usize,
        min_leaf_size: usize,
        max_tries_per_split: usize,
    ) -> (forest: ExtremelyRandomizedTrees)
        requires
            samples@.len() <= u32::MAX,
            describes(dataset, samples@),
            dataset.spec_num_plus() <= dataset.spec_num_records(),
        ensures
            forest.wf(),
            forest.tallies(samples@.to_multiset()),
            forall|i: int| 0 <= i < samples@.len() ==> forest.can_forget(&#[trigger] samples@[i]),
            forest.trees@.len() == num_trees,
            forall|i: int|
                0 <= i < num_trees ==> {
                    &&& is_fitted(
                        #[trigger] forest.trees@[i],
                        dataset,
                        samples@,
                        i,
                        min_leaf_size,
                        forest.trees@[i].num_attributes_to_try_per_split,
                        capped(rounded_share(dataset.spec_num_records() as int, 1, 1000) as nat),
                        max_tries_per_split,
                    )
                    &&& is_ceil_sqrt(
                        dataset.spec_num_attributes() as int,
                        forest.trees@[i].num_attributes_to_try_per_split as int,
                    )
                },
    {
        ExtremelyRandomizedTrees::fit_with_epsilon(
            dataset,
            samples,
            seed,
            num_trees,
            min_leaf_size,
            max_tries_per_split,
            1,
            1000,
        )
    }

    /// Fits `num_trees` trees, each on a copy of the samples and with a
    /// generator of its own. Every split of a tree is tested for
    /// robustness against the removal of the share `epsilon_numerator /
    /// epsilon_denominator` of the records.
    pub fn fit_with_epsilon<D: Dataset + Sync, S: Sample + Sync>(
        dataset: &D,
        samples: Vec<S>,
        seed: u64,
        num_trees: usize,
        min_leaf_size: usize,
        max_tries_per_split: usize,
        epsilon_numerator: u32,
        epsilon_denominator: u32,
    ) -> (forest: ExtremelyRandomizedTrees)
        requires
            samples@.len() <= u32::MAX,
            describes(dataset, samples@),
            dataset.spec_num_plus() <= dataset.spec_num_records(),
            0 < epsilon_denominator,
        ensures
            forest.wf(),
            forest.tallies(samples@.to_multiset()),
            forall|i: int| 0 <= i < samples@.len() ==> forest.can_forget(&#[trigger] samples@[i]),
            forest.trees@.len() == num_trees,
            forall|i: int|
                0 <= i < num_trees ==> {
                    &&& is_fitted(
                        #[trigger] forest.trees@[i],
                        dataset,
                        samples@,
                        i,
                        min_leaf_size,
                        forest.trees@[i].num_attributes_to_try_per_split,
                        capped(
                            rounded_share(
                                dataset.spec_num_records() as int,
                                epsilon_numerator as int,
                                epsilon_denominator as int,
                            ) as nat,
                        ),
                        max_tries_per_split,
                    )
                    &&& is_ceil_sqrt(
                        dataset.spec_num_attributes() as int,
                        forest.trees@[i].num_attributes_to_try_per_split as int,
                    )
                },
    {
        let num_attributes_to_try_per_split = ceil_sqrt(dataset.num_attributes());

        let target_robustness = deletion_budget(dataset.num_records(), epsilon_numerator, epsilon_denominator);

        let trees = fit_trees(
            dataset,
            &samples,
            seed,
            num_trees,
            min_leaf_size,
            num_attributes_to_try_per_split,
            target_robustness,
            max_tries_per_split,
        );

        let forest = ExtremelyRandomizedTrees { trees };
        proof {
            assert forall|i: int| 0 <= i < samples@.len() implies forest.can_forget(&#[trigger] samples@[i]) by {
                let sample = samples@[i];
                assert(samples@.contains(sample));
                vstd::seq_lib::to_multiset_contains(samples@, sample);
                let after = forest;
                forest.lemma_forgetting_keeps_tallies(&after, &sample, samples@.to_multiset());
            }
        }
        forest
    }

    /// The label that the ensemble gives the sample: positive where more
    /// than half of the trees say so.
    pub fn predict<S: Sample + Sync>(&self, sample: &S) -> (label: bool)
        requires
            self.wf(),
            self.fits(sample),
        ensures
            label == self.predicts(sample),
    {
        let num_plus: usize = count_positive_votes(&self.trees, sample);
        proof {
            lemma_votes_bounded(self.trees@, sample, self.trees@.len() as int);
        }
        num_plus as u128 * 2 > self.trees.len() as u128
    }

    /// Forgets the sample in every tree.
    ///
    /// Fails, and leaves every tree as it is, where some tree does not
    /// count the sample any more.
    pub fn forget<S: Sample + Sync>(&mut self, sample: &S) -> (done: Result<(), ForgetError>)
        requires
            old(self).wf(),
            old(self).fits(sample),
        ensures
            done.is_ok() == old(self).can_forget(sample),
            done.is_err() ==> *final(self) == *old(self),
            done.is_ok() ==> final(self).trees@.len() == old(self).trees@.len() && forall|i: int|
                0 <= i < old(self).trees@.len() ==> (#[trigger] old(self).trees@[i]).forgets(
                    &final(self).trees@[i],
                    sample,
                    1,
                ),
            done.is_ok() ==> forall|i: int|
                0 <= i < old(self).trees@.len() ==> (#[trigger] final(self).trees@[i]).live_count(1) + 1 == old(
                    self,
                ).trees@[i].live_count(1),
            final(self).wf(),
            final(self).fits(sample),
    {
        if !all_represent(&self.trees, sample) {
            return Err(ForgetError::NotRepresented);
        }
        forget_in_all(&mut self.trees, sample);
        proof {
            assert forall|i: int| 0 <= i < self.trees@.len() implies (#[trigger] self.trees@[i]).wf()
                && self.trees@[i].num_attributes == self.trees@[0].num_attributes && self.trees@[i].fits(sample)
                && self.trees@[i].live_count(1) + 1 == old(self).trees@[i].live_count(1) by {
                assert(old(self).trees@[i].wf());
                old(self).trees@[i].lemma_still_complete(&self.trees@[i], sample, 1, 1);
                old(self).trees@[i].lemma_forgetting_counts_down(&self.trees@[i], sample, 1);
                old(self).trees@[i].lemma_forgetting_keeps_account(&self.trees@[i], sample, 1, 0);
                assert(old(self).trees@[0].forgets(&self.trees@[0], sample, 1));
                assert(old(self).trees@[i].fits(sample));
            }
        }
        Ok(())
    }
}

proof fn lemma_votes_bounded<S: Sample>(trees: Seq<Tree>, sample: &S, upto: int)
    requires
        0 <= upto,
    ensures
        positive_votes(trees, sample, upto) <= upto,
    decreases upto,
{
    if upto > 0 {
        lemma_votes_bounded(trees, sample, upto - 1);
    }
}

} // verus!
