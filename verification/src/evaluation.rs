//! Figures about fitted trees.

use vstd::prelude::*;
use crate::dataset::Sample;
use crate::forest::ExtremelyRandomizedTrees;
use crate::tree::{AlternativeTree, Tree};
use crate::utils::{add_capped, capped};

verus! {

/// The number of positions that are certified robust in a tree and in all
/// its alternatives.
pub open spec fn robust_nodes(tree: Tree) -> nat
    decreases tree,
{
    tree.num_robust_nodes as nat + robust_nodes_in_lists(tree.alternative_subtrees@)
}

pub open spec fn robust_nodes_in_lists(lists: Seq<Vec<AlternativeTree>>) -> nat
    decreases lists,
{
    if lists.len() == 0 {
        0
    } else {
        robust_nodes_in_lists(lists.drop_last()) + robust_nodes_in_list(lists.last()@)
    }
}

pub open spec fn robust_nodes_in_list(list: Seq<AlternativeTree>) -> nat
    decreases list,
{
    if list.len() == 0 {
        0
    } else {
        robust_nodes_in_list(list.drop_last()) + robust_nodes(list.last().tree)
    }
}

/// The number of open positions in a tree and in all its alternatives.
pub open spec fn non_robust_nodes(tree: Tree) -> nat
    decreases tree,
{
    tree.num_non_robust_nodes as nat + non_robust_nodes_in_lists(tree.alternative_subtrees@)
}

pub open spec fn non_robust_nodes_in_lists(lists: Seq<Vec<AlternativeTree>>) -> nat
    decreases lists,
{
    if lists.len() == 0 {
        0
    } else {
        non_robust_nodes_in_lists(lists.drop_last()) + non_robust_nodes_in_list(lists.last()@)
    }
}

pub open spec fn non_robust_nodes_in_list(list: Seq<AlternativeTree>) -> nat
    decreases list,
{
    if list.len() == 0 {
        0
    } else {
        non_robust_nodes_in_list(list.drop_last()) + non_robust_nodes(list.last().tree)
    }
}

fn count_nodes(tree: &Tree) -> (counts: (usize, usize))
    ensures
        counts.0 == capped(robust_nodes(*tree)),
        counts.1 == capped(non_robust_nodes(*tree)),
    decreases tree,
{
    let mut num_robust: usize = tree.num_robust_nodes;
    let mut num_non_robust: usize = tree.num_non_robust_nodes;

    let mut slot: usize = 0;
    while slot < tree.alternative_subtrees.len()
        invariant
            slot <= tree.alternative_subtrees@.len(),
            num_robust == capped(
                tree.num_robust_nodes as nat + robust_nodes_in_lists(tree.alternative_subtrees@.take(slot as int)),
            ),
            num_non_robust == capped(
                tree.num_non_robust_nodes as nat + non_robust_nodes_in_lists(tree.alternative_subtrees@.take(slot as int)),
            ),
        decreases tree.alternative_subtrees@.len() - slot,
    {
        let subtrees = &tree.alternative_subtrees[slot];
        proof {
            assert(tree.alternative_subtrees@.take(slot + 1).drop_last() == tree.alternative_subtrees@.take(
                slot as int,
            ));
        }
        let mut index: usize = 0;
        while index < subtrees.len()
            invariant
                index <= subtrees@.len(),
                slot < tree.alternative_subtrees@.len(),
                *subtrees == tree.alternative_subtrees@[slot as int],
                num_robust == capped(
                    tree.num_robust_nodes as nat + robust_nodes_in_lists(tree.alternative_subtrees@.take(slot as int))
                        + robust_nodes_in_list(subtrees@.take(index as int)),
                ),
                num_non_robust == capped(
                    tree.num_non_robust_nodes as nat + non_robust_nodes_in_lists(
                        tree.alternative_subtrees@.take(slot as int),
                    ) + non_robust_nodes_in_list(subtrees@.take(index as int)),
                ),
            decreases subtrees@.len() - index,
        {
            proof {
                assert(subtrees@.take(index + 1).drop_last() == subtrees@.take(index as int));
            }
            let (subtree_num_robust, subtree_num_non_robust) = count_nodes(&subtrees[index].tree);
            num_robust = add_capped(num_robust, subtree_num_robust);
            num_non_robust = add_capped(num_non_robust, subtree_num_non_robust);
            index += 1;
        }
        assert(subtrees@.take(subtrees@.len() as int) == subtrees@);
        slot += 1;
    }
    assert(tree.alternative_subtrees@.take(tree.alternative_subtrees@.len() as int) == tree.alternative_subtrees@);
    (num_robust, num_non_robust)
}

/// The number of positions that are certified robust and the number of
/// open positions, in the tree and in all its alternatives. Both numbers
/// stop at the largest that fits.
///
/// Of a tree that keeps account of its positions, the first number is at
/// least the number of its tests, and the second at least the number of
/// its open positions, each of which has a list of alternatives.
pub fn node_count(tree: Tree) -> (counts: (usize, usize))
    ensures
        counts.0 == capped(robust_nodes(tree)),
        counts.1 == capped(non_robust_nodes(tree)),
        tree.accounted(0) ==> counts.0 >= capped(tree.tests().len()),
        tree.accounted(0) ==> counts.1 >= tree.alternative_subtrees@.len(),
        tree.wf() ==> counts.1 >= tree.open_positions().len(),
{
    proof {
        if tree.wf() {
            tree.lemma_open_positions_are_counted();
        }
    }
    count_nodes(&tree)
}

/// How often an ensemble is right and wrong on labelled samples.
#[derive(Eq, PartialEq, Clone, Copy, Debug)]
pub struct Confusion {
    /// Positive samples that the ensemble calls positive.
    pub true_positives: usize,
    /// Positive samples that the ensemble calls negative.
    pub false_negatives: usize,
    /// Negative samples that the ensemble calls positive.
    pub false_positives: usize,
    /// Negative samples that the ensemble calls negative.
    pub true_negatives: usize,
}

/// The number of samples among the first `upto` that have the given label
/// and get the given label from the ensemble.
pub open spec fn outcomes<S: Sample>(
    trees: &ExtremelyRandomizedTrees,
    test_data: Seq<S>,
    label: bool,
    predicted: bool,
    upto: int,
) -> nat
    decreases upto,
{
    if upto <= 0 {
        0
    } else {
        outcomes(trees, test_data, label, predicted, upto - 1) + if test_data[upto - 1].spec_true_label() == label
            && trees.predicts(&test_data[upto - 1]) == predicted {
            1nat
        } else {
            0nat
        }
    }
}

/// Lets the ensemble label every sample and counts the four outcomes.
pub fn confusion<S: Sample + Sync>(trees: &ExtremelyRandomizedTrees, test_data: &Vec<S>) -> (counts: Confusion)
    requires
        trees.wf(),
        forall|i: int| 0 <= i < test_data@.len() ==> trees.fits(&#[trigger] test_data@[i]),
    ensures
        counts.true_positives == outcomes(trees, test_data@, true, true, test_data@.len() as int),
        counts.false_negatives == outcomes(trees, test_data@, true, false, test_data@.len() as int),
        counts.false_positives == outcomes(trees, test_data@, false, true, test_data@.len() as int),
        counts.true_negatives == outcomes(trees, test_data@, false, false, test_data@.len() as int),
        counts.true_positives + counts.false_negatives + counts.false_positives + counts.true_negatives
            == test_data@.len(),
{
    let mut t_p: usize = 0;
    let mut f_p: usize = 0;
    let mut t_n: usize = 0;
    let mut f_n: usize = 0;

    let mut index: usize = 0;
    while index < test_data.len()
        invariant
            index <= test_data@.len(),
            trees.wf(),
            forall|i: int| 0 <= i < test_data@.len() ==> trees.fits(&#[trigger] test_data@[i]),
            t_p == outcomes(trees, test_data@, true, true, index as int),
            f_n == outcomes(trees, test_data@, true, false, index as int),
            f_p == outcomes(trees, test_data@, false, true, index as int),
            t_n == outcomes(trees, test_data@, false, false, index as int),
            t_p + f_n + f_p + t_n == index,
        decreases test_data@.len() - index,
    {
        let sample = &test_data[index];
        let predicted_label = trees.predict(sample);

        if sample.true_label() {
            if predicted_label {
                t_p += 1;
            } else {
                f_n += 1;
            }
        } else {
            if predicted_label {
                f_p += 1;
            } else {
                t_n += 1;
            }
        }
        index += 1;
    }
    Confusion { true_positives: t_p, false_negatives: f_n, false_positives: f_p, true_negatives: t_n }
}

} // verus!
