//! Splits and trees with open positions.
//!
//! The positions of a tree are numbered as in a binary heap: the root is
//! 1, and the children of `id` are `2 * id` and `2 * id + 1`. A position
//! holds a test, a leaf, or nothing: then it is open, and the candidates
//! that could not be told apart are kept as alternatives, each with a
//! subtree of its own.

use vstd::prelude::*;
use crate::dataset::{goes_left, Sample};
use crate::positions::{is_below, lemma_below_child};
use crate::ranking::is_ordered;
use crate::utils::capped;
use crate::split_stats::SplitStats;

pub use crate::forest::ExtremelyRandomizedTrees;
pub use crate::forget::ForgetError;

verus! {

/// The highest position that can have children: the positions of the
/// children of a larger one do not fit into 64 bits.
pub const MAX_INNER_ID: u64 = 0x7fff_ffff_ffff_ffff;

/// Whether the bit of a value below 64 is set in a subset.
pub open spec fn has_bit(subset: u64, value: u8) -> bool {
    subset & (1u64 << value as u64) != 0
}

/// A binary test on one attribute of a sample.
#[derive(Eq, PartialEq, Clone, Copy, Debug)]
pub enum Split {
    /// Left where the value lies below the cut-off.
    Numerical { attribute_index: u8, cut_off: u8 },
    /// Left where the bit of the value is set in the subset.
    Categorical { attribute_index: u8, subset: u64 },
}

impl Split {
    pub open spec fn spec_attribute_index(&self) -> u8 {
        match *self {
            Split::Numerical { attribute_index, cut_off: _ } => attribute_index,
            Split::Categorical { attribute_index, subset: _ } => attribute_index,
        }
    }

    /// Whether a sample with this value of the tested attribute goes left.
    /// A subset has 64 bits, so a value from 64 on is in no subset.
    pub open spec fn sends_left(&self, attribute_value: u8) -> bool {
        match *self {
            Split::Numerical { attribute_index: _, cut_off } => attribute_value < cut_off,
            Split::Categorical { attribute_index: _, subset } => attribute_value < 64 && subset & (1u64
                << attribute_value as u64) != 0,
        }
    }

    /// The split tests nothing outside the range of values of its
    /// attribute: the cut-off lies in the range, and the subset holds no
    /// value above it.
    pub open spec fn within(&self, range: (u8, u8)) -> bool {
        match *self {
            Split::Numerical { attribute_index: _, cut_off } => range.0 <= cut_off <= range.1,
            Split::Categorical { attribute_index: _, subset } => forall|value: u8|
                value < 64 && #[trigger] has_bit(subset, value) ==> value <= range.1,
        }
    }

    pub fn new_numerical(attribute_index: u8, cut_off: u8) -> (split: Split)
        ensures
            split == (Split::Numerical { attribute_index, cut_off }),
    {
        Split::Numerical { attribute_index, cut_off }
    }

    pub fn new_categorical(attribute_index: u8, subset: u64) -> (split: Split)
        ensures
            split == (Split::Categorical { attribute_index, subset }),
    {
        Split::Categorical { attribute_index, subset }
    }

    #[verifier::when_used_as_spec(spec_attribute_index)]
    pub fn attribute_index(&self) -> (index: u8)
        ensures
            index == self.spec_attribute_index(),
    {
        match self {
            Split::Numerical { attribute_index, cut_off: _ } => *attribute_index,
            Split::Categorical { attribute_index, subset: _ } => *attribute_index,
        }
    }

    /// Whether a sample with this value of the tested attribute goes left.
    pub fn goes_left(&self, attribute_value: u8) -> (left: bool)
        ensures
            left == self.sends_left(attribute_value),
    {
        match self {
            Split::Numerical { attribute_index: _, cut_off } => attribute_value < *cut_off,
            Split::Categorical { attribute_index: _, subset } => attribute_value < 64 && *subset & (1u64
                << attribute_value as u64) != 0,
        }
    }
}

/// What a tree holds at a position: a test that sends samples on to one of
/// two children, or the counts of the samples that ended there.
#[derive(Eq, PartialEq, Clone, Copy, Debug)]
pub enum TreeElement {
    /// A test: samples that the split sends left go on to the left child.
    Node { split: Split },
    /// The number of samples that ended here, and of the positive ones
    /// among them.
    Leaf { num_samples: u32, num_plus: u32 },
}

/// The elements of a tree by position: a `hashbrown::HashMap`.
///
/// The verifier cannot name the hasher of that map, so the map is kept
/// behind this type. What is known of it is what the functions below say
/// of [`elements_of`]; none of it is proved.
#[verifier::external_body]
pub struct ElementMap {
    inner: hashbrown::HashMap<u64, TreeElement>,
}

/// The entries of an [`ElementMap`]: the element that it holds under each
/// position.
pub uninterp spec fn elements_of(map: ElementMap) -> Map<u64, TreeElement>;

/// The place of the alternatives of each open position: a
/// `hashbrown::HashMap`, kept behind a type of its own as [`ElementMap`] is.
/// What is known of it is what the functions below say of [`slots_of`].
#[verifier::external_body]
pub struct SlotMap {
    inner: hashbrown::HashMap<u64, usize>,
}

/// The entries of a [`SlotMap`]: the place that it holds under each
/// position.
pub uninterp spec fn slots_of(map: SlotMap) -> Map<u64, usize>;

/// `hashbrown::HashMap::new`: a map without entries.
#[verifier::external_body]
pub(crate) fn new_element_map() -> (created: ElementMap)
    ensures
        elements_of(created).dom() == Set::<u64>::empty(),
{
    ElementMap { inner: hashbrown::HashMap::new() }
}

/// `hashbrown::HashMap::get`: the value stored under the key, if there is one.
#[verifier::external_body]
pub(crate) fn element_at(map: &ElementMap, id: u64) -> (found: Option<TreeElement>)
    ensures
        found == elements_of(*map).get(id),
{
    map.inner.get(&id).copied()
}

/// `hashbrown::HashMap::insert`: afterwards the key holds the value, and
/// every other key what it held before.
#[verifier::external_body]
pub(crate) fn put_element(map: &mut ElementMap, id: u64, element: TreeElement)
    ensures
        elements_of(*final(map)) == elements_of(*old(map)).insert(id, element),
{
    map.inner.insert(id, element);
}

/// `hashbrown::HashMap::new`: a map without entries.
#[verifier::external_body]
pub(crate) fn new_slot_map() -> (created: SlotMap)
    ensures
        slots_of(created).dom() == Set::<u64>::empty(),
{
    SlotMap { inner: hashbrown::HashMap::new() }
}

/// `hashbrown::HashMap::get`: the value stored under the key, if there is one.
#[verifier::external_body]
pub(crate) fn slot_at(map: &SlotMap, id: u64) -> (found: Option<usize>)
    ensures
        found == slots_of(*map).get(id),
{
    map.inner.get(&id).copied()
}

/// `hashbrown::HashMap::insert`: afterwards the key holds the value, and
/// every other key what it held before.
#[verifier::external_body]
pub(crate) fn put_slot(map: &mut SlotMap, id: u64, slot: usize)
    ensures
        slots_of(*final(map)) == slots_of(*old(map)).insert(id, slot),
{
    map.inner.insert(id, slot);
}

/// A randomized decision tree. A position holds an element, or it is open:
/// then it holds no element, and the candidates that could not be told
/// apart are kept as alternatives, the best of them first.
pub struct Tree {
    /// The index of the tree in its ensemble.
    pub index: usize,
    /// The generator that the candidate splits are drawn from.
    pub rng: rand::prng::XorShiftRng,
    /// The tests and the leaves of the tree.
    pub tree_elements: ElementMap,
    /// For each open position, the place of its alternatives in
    /// `alternative_subtrees`.
    pub open_nodes: SlotMap,
    /// The alternatives of each open position, in the order in which the
    /// positions were opened.
    pub alternative_subtrees: Vec<Vec<AlternativeTree>>,
    /// The number of attributes of the samples that the tree was fit on.
    pub num_attributes: u8,
    /// A part of the samples that is no larger than this is not divided
    /// any further.
    pub min_leaf_size: usize,
    /// The number of candidate splits that are drawn at a position.
    pub num_attributes_to_try_per_split: usize,
    /// How often new candidates are drawn at a position before it becomes
    /// a leaf or open.
    pub max_tries_per_split: usize,
    /// The number of tests of this tree that were certified robust.
    pub num_robust_nodes: usize,
    /// The number of positions of this tree that were opened.
    pub num_non_robust_nodes: usize,
}

/// A candidate split that could not be ruled out, with the statistics that
/// it has now and the subtree that grows below it.
pub struct AlternativeTree {
    pub split: Split,
    pub split_stats: SplitStats,
    pub tree: Tree,
}

/// The random number generator of `rand`. Nothing is known of its values.
#[verifier::external_type_specification]
#[verifier::external_body]
pub struct ExXorShiftRng(rand::prng::XorShiftRng);

impl Tree {
    /// The element at a position.
    pub open spec fn element(&self, id: u64) -> Option<TreeElement> {
        elements_of(self.tree_elements).get(id)
    }

    /// The place of the alternatives of an open position.
    pub open spec fn slot(&self, id: u64) -> Option<usize> {
        slots_of(self.open_nodes).get(id)
    }

    /// The alternatives of an open position.
    pub open spec fn alternatives(&self, id: u64) -> Option<Seq<AlternativeTree>> {
        match slots_of(self.open_nodes).get(id) {
            Some(slot) => if slot < self.alternative_subtrees.len() {
                Some(self.alternative_subtrees[slot as int]@)
            } else {
                None
            },
            None => None,
        }
    }

    /// The sample has every attribute that the tree may test.
    pub open spec fn fits<S: Sample>(&self, sample: &S) -> bool {
        forall|attribute_index: u8| attribute_index < self.num_attributes ==> sample.has_attribute(attribute_index)
    }

    /// The tree is complete below a position: every path from there ends in
    /// a leaf, in this tree or in an alternative, and tests attributes that
    /// the samples have.
    pub open spec fn complete(&self, id: u64) -> bool
        decreases self, u64::MAX - id,
    {
        &&& 1 <= id
        &&& match self.element(id) {
            Some(TreeElement::Leaf { .. }) => true,
            Some(TreeElement::Node { split }) => {
                &&& split.spec_attribute_index() < self.num_attributes
                &&& id <= MAX_INNER_ID
                &&& self.complete((2 * id) as u64)
                &&& self.complete((2 * id + 1) as u64)
            },
            None => match self.alternatives(id) {
                Some(list) => {
                    &&& list.len() > 0
                    &&& forall|i: int|
                        0 <= i < list.len() ==> {
                            &&& (#[trigger] list[i]).tree.num_attributes == self.num_attributes
                            &&& list[i].split.spec_attribute_index() < self.num_attributes
                            &&& list[i].tree.complete(id)
                        }
                },
                None => false,
            },
        }
    }

    /// Where a sample that has reached a position ends in this tree: at the
    /// first position on its way that holds no test.
    pub open spec fn walk_end<S: Sample>(&self, sample: &S, id: u64) -> u64
        decreases u64::MAX - id,
    {
        match self.element(id) {
            Some(TreeElement::Node { split }) => if 1 <= id <= MAX_INNER_ID {
                if goes_left(sample, &split) {
                    self.walk_end(sample, (2 * id) as u64)
                } else {
                    self.walk_end(sample, (2 * id + 1) as u64)
                }
            } else {
                id
            },
            _ => id,
        }
    }

    /// The label that the tree gives a sample that has reached a position:
    /// the majority of the leaf in which the sample ends, by way of the
    /// first alternative wherever a position is open.
    pub open spec fn predicts<S: Sample>(&self, sample: &S, id: u64) -> bool
        decreases self, u64::MAX - id,
    {
        match self.element(id) {
            Some(TreeElement::Leaf { num_samples, num_plus }) => 2 * num_plus > num_samples,
            Some(TreeElement::Node { split }) => if 1 <= id <= MAX_INNER_ID {
                if goes_left(sample, &split) {
                    self.predicts(sample, (2 * id) as u64)
                } else {
                    self.predicts(sample, (2 * id + 1) as u64)
                }
            } else {
                false
            },
            None => match self.alternatives(id) {
                Some(list) => if list.len() > 0 {
                    list[0].tree.predicts(sample, id)
                } else {
                    false
                },
                None => false,
            },
        }
    }

    /// The number of samples that the leaves below a position count, by
    /// way of the first alternative wherever a position is open.
    pub open spec fn live_count(&self, id: u64) -> nat
        decreases self, u64::MAX - id,
    {
        match self.element(id) {
            Some(TreeElement::Leaf { num_samples, num_plus: _ }) => num_samples as nat,
            Some(TreeElement::Node { .. }) => if 1 <= id <= MAX_INNER_ID {
                self.live_count((2 * id) as u64) + self.live_count((2 * id + 1) as u64)
            } else {
                0
            },
            None => match self.alternatives(id) {
                Some(list) => if list.len() > 0 {
                    list[0].tree.live_count(id)
                } else {
                    0
                },
                None => 0,
            },
        }
    }

    /// The books are balanced below a position: at every open position,
    /// the alternatives stand by falling score, the statistics of each
    /// count as many samples as the leaves of its subtree, every
    /// alternative counts as many as the first, and the subtree of each
    /// keeps books of its own, in which the test of the alternative is not
    /// counted.
    pub open spec fn balanced(&self, id: u64) -> bool
        decreases self, u64::MAX - id,
    {
        match self.element(id) {
            Some(TreeElement::Leaf { .. }) => true,
            Some(TreeElement::Node { .. }) => 1 <= id <= MAX_INNER_ID ==> self.balanced((2 * id) as u64)
                && self.balanced((2 * id + 1) as u64),
            None => match self.alternatives(id) {
                Some(list) => {
                    &&& is_ordered(list)
                    &&& forall|i: int|
                        0 <= i < list.len() ==> {
                            &&& (#[trigger] list[i]).tree.balanced(id)
                            &&& list[i].tree.distinct_slots()
                            &&& list[i].tree.accounted(1)
                            &&& list[i].tree.live_count(id) == list[i].split_stats.num_samples()
                            &&& list[i].split_stats.num_samples() == list[0].split_stats.num_samples()
                        }
                },
                None => true,
            },
        }
    }

    /// The positions at which the tree holds a test.
    pub open spec fn tests(&self) -> Set<u64> {
        Set::new(|id: u64| self.element(id) matches Some(TreeElement::Node { .. }))
    }

    /// Some open position has its alternatives in the list at `k`.
    pub open spec fn is_in_use(&self, k: int) -> bool {
        exists|id: u64| #[trigger] self.slot(id) == Some(k as usize)
    }

    /// The open positions are in order: a position with alternatives
    /// holds no element, every list of alternatives belongs to a position,
    /// and the tree has counted one open position for each list.
    pub open spec fn opened_in_order(&self) -> bool {
        &&& forall|id: u64|
            #![trigger self.element(id)]
            #![trigger self.slot(id)]
            #![trigger self.alternatives(id)]
            self.element(id).is_some() ==> self.slot(id).is_none() && self.alternatives(id).is_none()
        &&& forall|k: int| 0 <= k < self.alternative_subtrees.len() ==> #[trigger] self.is_in_use(k)
        &&& self.num_non_robust_nodes == self.alternative_subtrees.len()
    }

    /// The open positions of the tree.
    pub open spec fn open_positions(&self) -> Set<u64> {
        Set::new(|id: u64| self.slot(id).is_some())
    }

    /// The position whose alternatives stand in the list at `k`.
    pub open spec fn position_of(&self, k: int) -> u64 {
        choose|id: u64| #[trigger] self.slot(id) == Some(k as usize)
    }

    /// A tree whose open positions are in order, each with a place of its
    /// own, has as many open positions as lists of alternatives, and has
    /// counted as many.
    pub proof fn lemma_open_positions_are_counted(&self)
        requires
            self.distinct_slots(),
            self.opened_in_order(),
        ensures
            self.open_positions().finite(),
            self.open_positions().len() == self.alternative_subtrees@.len(),
            self.open_positions().len() == self.num_non_robust_nodes,
    {
        let places = vstd::set_lib::set_int_range(0, self.alternative_subtrees@.len() as int);
        let position = |k: int| self.position_of(k);
        vstd::set_lib::lemma_int_range(0, self.alternative_subtrees@.len() as int);
        assert forall|k: int| places.contains(k) implies self.slot(#[trigger] position(k)) == Some(k as usize) by {
            assert(self.is_in_use(k));
        }
        assert(vstd::relations::injective_on(position, places)) by {
            assert forall|one: int, other: int|
                places.contains(one) && places.contains(other) && #[trigger] position(one) == #[trigger] position(
                    other,
                ) implies one == other by {
                assert(self.slot(position(one)) == Some(one as usize));
                assert(self.slot(position(other)) == Some(other as usize));
            }
        }
        assert(places.map(position) =~= self.open_positions()) by {
            assert forall|id: u64| self.open_positions().contains(id) implies places.map(position).contains(id) by {
                let k = self.slot(id).unwrap() as int;
                assert(self.slot(id) == self.slot(id));
                assert(places.contains(k));
                assert(self.slot(position(k)) == self.slot(id));
                assert(position(k) == id);
            }
            assert forall|id: u64| places.map(position).contains(id) implies self.open_positions().contains(id) by {
                let k = choose|k: int| places.contains(k) && position(k) == id;
                assert(self.slot(position(k)) == Some(k as usize));
            }
        }
        vstd::set_lib::lemma_map_size(places, self.open_positions(), position);
    }

    /// The tree has counted its tests, all but `uncounted` of them.
    pub open spec fn tests_counted(&self, uncounted: nat) -> bool {
        &&& self.tests().finite()
        &&& uncounted <= self.tests().len()
        &&& self.num_robust_nodes == capped((self.tests().len() - uncounted) as nat)
    }

    /// The tree keeps account of its positions: the open positions are in
    /// order, and the tests are counted, all but `uncounted` of them.
    pub open spec fn accounted(&self, uncounted: nat) -> bool {
        self.opened_in_order() && self.tests_counted(uncounted)
    }

    /// `later` has gone on counting the tests of this tree: it has
    /// counted those that it holds more, all but `uncounted` of them.
    pub open spec fn counted_on(&self, later: &Tree, uncounted: nat) -> bool {
        &&& later.tests().finite()
        &&& self.tests().len() + uncounted <= later.tests().len()
        &&& later.num_robust_nodes == capped(
            (self.num_robust_nodes + later.tests().len() - self.tests().len() - uncounted) as nat,
        )
    }

    /// Every open position has a place of its own for its alternatives.
    pub open spec fn distinct_slots(&self) -> bool {
        forall|id: u64, other: u64|
            #![trigger self.slot(id), self.slot(other)]
            self.slot(id).is_some() && self.slot(id) == self.slot(other) ==> id == other
                && self.slot(id).unwrap() < self.alternative_subtrees.len()
    }

    /// The tree is well formed: it is complete from the root on, its books
    /// are balanced, every open position has a place of its own for its
    /// alternatives, and the tree keeps account of all its positions.
    pub open spec fn wf(&self) -> bool {
        &&& self.complete(1)
        &&& self.balanced(1)
        &&& self.distinct_slots()
        &&& self.accounted(0)
    }

    /// A walk through a complete tree ends where the tree is complete and
    /// holds no test.
    pub proof fn lemma_walk_ends<S: Sample>(&self, sample: &S, id: u64)
        requires
            self.complete(id),
        ensures
            self.complete(self.walk_end(sample, id)),
            !(self.element(self.walk_end(sample, id)) matches Some(TreeElement::Node { .. })),
            id <= self.walk_end(sample, id),
        decreases u64::MAX - id,
    {
        match self.element(id) {
            Some(TreeElement::Node { split }) => {
                if goes_left(sample, &split) {
                    self.lemma_walk_ends(sample, (2 * id) as u64);
                } else {
                    self.lemma_walk_ends(sample, (2 * id + 1) as u64);
                }
            },
            _ => {},
        }
    }

    /// The walk of a sample ends below the position where it begins.
    pub proof fn lemma_walk_ends_below<S: Sample>(&self, sample: &S, id: u64)
        requires
            1 <= id,
        ensures
            is_below(self.walk_end(sample, id), id),
        decreases u64::MAX - id,
    {
        match self.element(id) {
            Some(TreeElement::Node { split }) => {
                if 1 <= id <= MAX_INNER_ID {
                    let child = if goes_left(sample, &split) {
                        (2 * id) as u64
                    } else {
                        (2 * id + 1) as u64
                    };
                    self.lemma_walk_ends_below(sample, child);
                    lemma_below_child(self.walk_end(sample, child), id);
                }
            },
            _ => {},
        }
    }

    pub(crate) fn leaf(num_samples: u32, num_plus: u32) -> (element: TreeElement)
        ensures
            element == (TreeElement::Leaf { num_samples, num_plus }),
    {
        TreeElement::Leaf { num_samples, num_plus }
    }

    pub(crate) fn node(split: Split) -> (element: TreeElement)
        ensures
            element == (TreeElement::Node { split }),
    {
        TreeElement::Node { split }
    }

    /// The element at a position.
    pub fn element_at(&self, id: u64) -> (element: Option<TreeElement>)
        ensures
            element == self.element(id),
    {
        element_at(&self.tree_elements, id)
    }

    /// The alternatives of an open position, the best one first.
    pub fn alternatives_at(&self, id: u64) -> (list: Option<&Vec<AlternativeTree>>)
        ensures
            match list {
                Some(found) => self.alternatives(id) == Some(found@),
                None => self.alternatives(id).is_none(),
            },
    {
        match slot_at(&self.open_nodes, id) {
            Some(slot) => if slot < self.alternative_subtrees.len() {
                Some(&self.alternative_subtrees[slot])
            } else {
                None
            },
            None => None,
        }
    }

    /// Follows the tests from a position down to where the sample ends in
    /// this tree.
    pub(crate) fn descend<S: Sample>(&self, sample: &S, start: u64) -> (end: u64)
        requires
            self.complete(start),
            self.fits(sample),
        ensures
            end == self.walk_end(sample, start),
            self.complete(end),
            !(self.element(end) matches Some(TreeElement::Node { .. })),
    {
        let mut element_id = start;
        proof {
            self.lemma_walk_ends(sample, start);
        }
        loop
            invariant
                self.complete(element_id),
                self.fits(sample),
                self.walk_end(sample, element_id) == self.walk_end(sample, start),
                self.complete(self.walk_end(sample, start)),
                !(self.element(self.walk_end(sample, start)) matches Some(TreeElement::Node { .. })),
            decreases u64::MAX - element_id,
        {
            match element_at(&self.tree_elements, element_id) {
                Some(TreeElement::Node { split }) => {
                    if sample.is_left_of(&split) {
                        element_id = element_id * 2;
                    } else {
                        element_id = (element_id * 2) + 1;
                    }
                },
                _ => {
                    return element_id;
                },
            }
        }
    }

    /// The label that the tree gives the sample: the majority of the leaf
    /// in which the sample ends, by way of the first alternative wherever
    /// a position is open.
    pub fn predict<S: Sample>(&self, sample: &S) -> (label: bool)
        requires
            self.complete(1),
            self.fits(sample),
        ensures
            label == self.predicts(sample, 1),
    {
        let mut current_tree = self;
        let mut element_id: u64 = 1;

        loop
            invariant
                current_tree.complete(element_id),
                current_tree.num_attributes == self.num_attributes,
                self.fits(sample),
                current_tree.predicts(sample, element_id) == self.predicts(sample, 1),
            decreases current_tree, u64::MAX - element_id,
        {
            let element = element_at(&current_tree.tree_elements, element_id);

            match element {
                Some(TreeElement::Node { split }) => {
                    if sample.is_left_of(&split) {
                        element_id = element_id * 2;
                    } else {
                        element_id = (element_id * 2) + 1;
                    }
                },
                Some(TreeElement::Leaf { num_samples, num_plus }) => {
                    return (num_plus as u64 * 2) > num_samples as u64;
                },
                None => {
                    let slot = slot_at(&current_tree.open_nodes, element_id).unwrap();
                    // The first tree of the list is the best one.
                    current_tree = &current_tree.alternative_subtrees[slot][0].tree;
                },
            }
        }
    }
}

} // verus!
