//! The subtree below a position, and what holds of it while the tree
//! changes elsewhere.

use vstd::prelude::*;
use crate::tree::{Tree, TreeElement, MAX_INNER_ID};

verus! {

/// Whether a position lies in the subtree that starts at `root`.
pub open spec fn is_below(id: u64, root: u64) -> bool
    decreases id,
{
    if id == root {
        true
    } else if id <= root {
        false
    } else {
        is_below(id / 2, root)
    }
}

/// What lies below a child lies below its parent.
pub proof fn lemma_below_child(id: u64, parent: u64)
    requires
        1 <= parent <= MAX_INNER_ID,
        is_below(id, (2 * parent) as u64) || is_below(id, (2 * parent + 1) as u64),
    ensures
        is_below(id, parent),
        id != parent,
    decreases id,
{
    if id != 2 * parent && id != 2 * parent + 1 {
        lemma_below_child(id / 2, parent);
    } else {
        assert(id / 2 == parent);
        assert(is_below(parent, parent));
    }
}

/// The subtrees of the two children of a position share no position.
pub proof fn lemma_children_apart(id: u64, parent: u64)
    requires
        1 <= parent <= MAX_INNER_ID,
    ensures
        !(is_below(id, (2 * parent) as u64) && is_below(id, (2 * parent + 1) as u64)),
    decreases id,
{
    if id > 2 * parent + 1 {
        lemma_children_apart(id / 2, parent);
    } else if id == 2 * parent + 1 {
        assert(!is_below(parent, (2 * parent) as u64));
        assert(id / 2 == parent);
    }
}

impl Tree {
    /// Both trees hold the same at a position.
    pub open spec fn agrees_at(&self, other: &Tree, id: u64) -> bool {
        other.element(id) == self.element(id) && other.slot(id) == self.slot(id)
    }

    /// The tree holds nothing at a position.
    pub open spec fn vacant_at(&self, id: u64) -> bool {
        self.element(id).is_none() && self.slot(id).is_none()
    }

    /// The tree holds nothing in the subtree that starts at a position.
    pub open spec fn vacant_below(&self, root: u64) -> bool {
        forall|id: u64| is_below(id, root) ==> #[trigger] self.vacant_at(id)
    }

    /// `later` holds what this tree holds, but for the subtree that starts
    /// at `root`, and perhaps more alternatives.
    pub open spec fn grown_below(&self, later: &Tree, root: u64) -> bool {
        &&& forall|id: u64| !is_below(id, root) ==> #[trigger] self.agrees_at(later, id)
        &&& self.kept_by(later)
    }

    /// `later` has the settings and the alternatives of this tree, and
    /// perhaps more alternatives.
    pub open spec fn kept_by(&self, later: &Tree) -> bool {
        &&& later.num_attributes == self.num_attributes
        &&& later.index == self.index
        &&& later.min_leaf_size == self.min_leaf_size
        &&& later.num_attributes_to_try_per_split == self.num_attributes_to_try_per_split
        &&& later.max_tries_per_split == self.max_tries_per_split
        &&& self.alternative_subtrees.len() <= later.alternative_subtrees.len()
        &&& forall|k: int|
            0 <= k < self.alternative_subtrees.len() ==> #[trigger] later.alternative_subtrees[k]
                == self.alternative_subtrees[k]
    }

    /// Growing below a position, and then again, is growing below it.
    pub proof fn lemma_grown_again(&self, between: &Tree, later: &Tree, root: u64)
        requires
            self.grown_below(between, root),
            between.grown_below(later, root),
        ensures
            self.grown_below(later, root),
    {
        assert forall|id: u64| !is_below(id, root) implies #[trigger] self.agrees_at(later, id) by {
            assert(self.agrees_at(between, id));
            assert(between.agrees_at(later, id));
        }
        assert forall|k: int| 0 <= k < self.alternative_subtrees.len() implies #[trigger] later.alternative_subtrees[k]
            == self.alternative_subtrees[k] by {
            assert(between.alternative_subtrees[k] == self.alternative_subtrees[k]);
        }
    }

    /// A subtree stays complete while the tree grows elsewhere.
    pub proof fn lemma_complete_elsewhere(&self, later: &Tree, root: u64)
        requires
            self.complete(root),
            self.kept_by(later),
            forall|id: u64| is_below(id, root) ==> #[trigger] self.agrees_at(later, id),
        ensures
            later.complete(root),
        decreases u64::MAX - root,
    {
        assert(is_below(root, root));
        assert(self.agrees_at(later, root));
        match self.element(root) {
            Some(TreeElement::Node { split }) => {
                let left = (2 * root) as u64;
                let right = (2 * root + 1) as u64;
                assert forall|id: u64| is_below(id, left) implies #[trigger] self.agrees_at(later, id) by {
                    lemma_below_child(id, root);
                }
                assert forall|id: u64| is_below(id, right) implies #[trigger] self.agrees_at(later, id) by {
                    lemma_below_child(id, root);
                }
                self.lemma_complete_elsewhere(later, left);
                self.lemma_complete_elsewhere(later, right);
            },
            _ => {},
        }
    }

    /// What is counted below a position does not change where the tree
    /// changes elsewhere.
    pub proof fn lemma_counts_elsewhere(&self, later: &Tree, root: u64)
        requires
            self.complete(root),
            forall|id: u64| is_below(id, root) ==> #[trigger] later.element(id) == self.element(id),
            forall|id: u64| is_below(id, root) ==> #[trigger] later.alternatives(id) == self.alternatives(id),
        ensures
            later.live_count(root) == self.live_count(root),
            later.balanced(root) == self.balanced(root),
        decreases u64::MAX - root,
    {
        assert(is_below(root, root));
        assert(later.element(root) == self.element(root));
        assert(later.alternatives(root) == self.alternatives(root));
        match self.element(root) {
            Some(TreeElement::Node { split }) => {
                let left = (2 * root) as u64;
                let right = (2 * root + 1) as u64;
                assert forall|id: u64| is_below(id, left) implies #[trigger] later.element(id) == self.element(id) by {
                    lemma_below_child(id, root);
                }
                assert forall|id: u64| is_below(id, left) implies #[trigger] later.alternatives(id)
                    == self.alternatives(id) by {
                    lemma_below_child(id, root);
                }
                assert forall|id: u64| is_below(id, right) implies #[trigger] later.element(id) == self.element(id) by {
                    lemma_below_child(id, root);
                }
                assert forall|id: u64| is_below(id, right) implies #[trigger] later.alternatives(id)
                    == self.alternatives(id) by {
                    lemma_below_child(id, root);
                }
                self.lemma_counts_elsewhere(later, left);
                self.lemma_counts_elsewhere(later, right);
            },
            _ => {},
        }
    }
}

} // verus!
