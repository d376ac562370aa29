//! Candidate splits: drawn at random, one on each of a few attributes,
//! and scored over the samples at hand.

use vstd::prelude::*;
use crate::dataset::{describes, AttributeType, Dataset, Sample};
use crate::scan::{counted, scan, scan_simd_categorical, scan_simd_numerical, split_applies};
use crate::split_stats::{SplitStats, SCORE_SCALE};
use crate::tree::{has_bit, Split, Tree};

verus! {

/// `rand::SeedableRng::from_seed` of `XorShiftRng`: a generator that starts
/// from the seed. Nothing is claimed of the generator.
#[verifier::external_body]
#[allow(deprecated)]
pub(crate) fn seeded_rng(seed: [u8; 16]) -> rand::prng::XorShiftRng {
    rand::SeedableRng::from_seed(seed)
}

/// `Clone::clone` of `XorShiftRng`. Nothing is claimed of the copy.
#[verifier::external_body]
#[allow(deprecated)]
pub(crate) fn clone_rng(rng: &rand::prng::XorShiftRng) -> rand::prng::XorShiftRng {
    rng.clone()
}

/// `rand::Rng::gen_range`: some value from `low` up to, but not including,
/// `high`. The call panics where the range is empty, so that is ruled out.
#[verifier::external_body]
#[allow(deprecated)]
pub(crate) fn random_in_range(rng: &mut rand::prng::XorShiftRng, low: u16, high: u16) -> (value: u16)
    requires
        low < high,
    ensures
        low <= value < high,
{
    rand::Rng::gen_range(rng, low, high)
}

/// `rand::seq::SliceRandom::shuffle`: the values in some other order.
#[verifier::external_body]
#[allow(deprecated)]
pub(crate) fn shuffle(rng: &mut rand::prng::XorShiftRng, values: &mut Vec<u8>)
    ensures
        final(values)@.to_multiset() == old(values)@.to_multiset(),
{
    rand::seq::SliceRandom::shuffle(values.as_mut_slice(), rng)
}

/// A candidate split tests an attribute of the dataset that is not known
/// to be constant, within the range of that attribute.
pub open spec fn is_candidate<D: Dataset>(split: Split, dataset: &D, constant: Seq<u8>) -> bool {
    &&& split.spec_attribute_index() < dataset.spec_num_attributes()
    &&& !constant.contains(split.spec_attribute_index())
    &&& split.within(dataset.spec_attribute_range(split.spec_attribute_index()))
    &&& split is Numerical <==> dataset.spec_attribute_type(split.spec_attribute_index()) is Numerical
}

/// The split is a test on the samples of the dataset: it tests an
/// attribute that the dataset has, in the way of the type of the attribute
/// and within the range of its values.
pub open spec fn is_test_of<D: Dataset>(split: Split, dataset: &D) -> bool {
    &&& split.spec_attribute_index() < dataset.spec_num_attributes()
    &&& split.within(dataset.spec_attribute_range(split.spec_attribute_index()))
    &&& split is Numerical <==> dataset.spec_attribute_type(split.spec_attribute_index()) is Numerical
}

/// No two of the splits test the same attribute.
pub open spec fn on_distinct_attributes(splits: Seq<Split>) -> bool {
    forall|i: int, j: int|
        0 <= i < j < splits.len() ==> (#[trigger] splits[i]).spec_attribute_index()
            != (#[trigger] splits[j]).spec_attribute_index()
}

/// The attributes below `upto` that the list of constant ones does not hold.
pub open spec fn varying_attributes(constant: Seq<u8>, upto: int) -> Seq<u8>
    decreases upto,
{
    if upto <= 0 {
        Seq::empty()
    } else if constant.contains((upto - 1) as u8) {
        varying_attributes(constant, upto - 1)
    } else {
        varying_attributes(constant, upto - 1).push((upto - 1) as u8)
    }
}

impl Tree {
    /// Only the state of the random number generator differs.
    pub open spec fn same_but_rng(&self, other: &Tree) -> bool {
        &&& self.index == other.index
        &&& self.tree_elements == other.tree_elements
        &&& self.open_nodes == other.open_nodes
        &&& self.alternative_subtrees == other.alternative_subtrees
        &&& self.num_attributes == other.num_attributes
        &&& self.min_leaf_size == other.min_leaf_size
        &&& self.num_attributes_to_try_per_split == other.num_attributes_to_try_per_split
        &&& self.max_tries_per_split == other.max_tries_per_split
        &&& self.num_robust_nodes == other.num_robust_nodes
        &&& self.num_non_robust_nodes == other.num_non_robust_nodes
    }
}

proof fn lemma_bit_added(subset: u64, added: u8, value: u8)
    requires
        added < 64,
        value < 64,
        has_bit(subset | (1u64 << added as u64), value),
    ensures
        has_bit(subset, value) || value == added,
{
    let a = added as u64;
    let v = value as u64;
    assert((subset | (1u64 << a)) & (1u64 << v) != 0 ==> subset & (1u64 << v) != 0 || v == a) by (bit_vector)
        requires
            a < 64,
            v < 64,
    ;
}

proof fn lemma_no_bit(value: u8)
    requires
        value < 64,
    ensures
        !has_bit(0, value),
{
    let v = value as u64;
    assert(0u64 & (1u64 << v) == 0) by (bit_vector);
}

/// A shuffled list is as long as the list was, and holds no value that
/// the list did not hold.
pub(crate) proof fn lemma_shuffled(before: Seq<u8>, after: Seq<u8>)
    requires
        after.to_multiset() == before.to_multiset(),
    ensures
        after.len() == before.len(),
        forall|i: int| 0 <= i < after.len() ==> before.contains(#[trigger] after[i]),
{
    vstd::seq_lib::to_multiset_len(before);
    vstd::seq_lib::to_multiset_len(after);
    assert forall|i: int| 0 <= i < after.len() implies before.contains(#[trigger] after[i]) by {
        assert(after.contains(after[i]));
        vstd::seq_lib::to_multiset_contains(after, after[i]);
        vstd::seq_lib::to_multiset_contains(before, after[i]);
    }
}

proof fn lemma_varying_attributes(constant: Seq<u8>, upto: int)
    requires
        0 <= upto <= 256,
    ensures
        varying_attributes(constant, upto).len() <= upto,
        forall|i: int|
            0 <= i < varying_attributes(constant, upto).len() ==> {
                &&& (#[trigger] varying_attributes(constant, upto)[i]) < upto
                &&& !constant.contains(varying_attributes(constant, upto)[i])
            },
        varying_attributes(constant, upto).no_duplicates(),
    decreases upto,
{
    if upto > 0 {
        lemma_varying_attributes(constant, upto - 1);
    }
}

/// A shuffled list of values that are all different holds no value twice.
proof fn lemma_shuffled_apart(before: Seq<u8>, after: Seq<u8>)
    requires
        after.to_multiset() == before.to_multiset(),
        before.no_duplicates(),
    ensures
        after.no_duplicates(),
{
    before.lemma_multiset_has_no_duplicates();
    after.lemma_multiset_has_no_duplicates_conv();
}

/// Whether the list holds the value.
pub(crate) fn holds(list: &Vec<u8>, value: u8) -> (found: bool)
    ensures
        found == list@.contains(value),
{
    let mut index: usize = 0;
    while index < list.len()
        invariant
            index <= list.len(),
            forall|i: int| 0 <= i < index ==> list@[i] != value,
        decreases list.len() - index,
    {
        if list[index] == value {
            return true;
        }
        index += 1;
    }
    false
}

/// Draws a split on an attribute: a cut-off from the range of a numerical
/// attribute, a subset of the values of a categorical one.
pub(crate) fn generate_random_split<D: Dataset>(
    rng: &mut rand::prng::XorShiftRng,
    dataset: &D,
    attribute_index: u8,
) -> (split: Split)
    requires
        attribute_index < dataset.spec_num_attributes(),
    ensures
        split.spec_attribute_index() == attribute_index,
        split.within(dataset.spec_attribute_range(attribute_index)),
        split is Numerical <==> dataset.spec_attribute_type(attribute_index) is Numerical,
{
    match dataset.attribute_type(attribute_index) {
        AttributeType::Numerical => {
            let (min_value, max_value) = dataset.attribute_range(attribute_index);

            let random_cut_off = random_in_range(rng, min_value as u16, max_value as u16 + 1);

            Split::new_numerical(attribute_index, random_cut_off as u8)
        },
        AttributeType::Categorical => {
            let (_, cardinality) = dataset.attribute_range(attribute_index);

            let how_many = random_in_range(rng, 0, cardinality as u16 + 1);
            let mut possible_values: Vec<u8> = Vec::new();
            let mut value: u16 = 0;
            while value <= cardinality as u16
                invariant
                    value <= cardinality + 1,
                    possible_values@.len() == value,
                    forall|i: int| 0 <= i < possible_values@.len() ==> possible_values@[i] <= cardinality,
                decreases cardinality + 1 - value,
            {
                possible_values.push(value as u8);
                value += 1;
            }
            let ghost in_order = possible_values@;
            shuffle(rng, &mut possible_values);
            proof {
                lemma_shuffled(in_order, possible_values@);
                assert forall|i: int| 0 <= i < possible_values@.len() implies possible_values@[i] <= cardinality by {
                    assert(in_order.contains(possible_values@[i]));
                }
            }
            let mut subset: u64 = 0;
            let mut taken: usize = 0;
            proof {
                assert forall|value: u8| value < 64 implies !#[trigger] has_bit(0, value) by {
                    lemma_no_bit(value);
                }
            }
            while taken < how_many as usize
                invariant
                    taken <= how_many <= cardinality,
                    possible_values@.len() == cardinality + 1,
                    forall|i: int| 0 <= i < possible_values@.len() ==> possible_values@[i] <= cardinality,
                    forall|value: u8| value < 64 && #[trigger] has_bit(subset, value) ==> value <= cardinality,
                decreases how_many - taken,
            {
                let bit_to_set = possible_values[taken];
                if bit_to_set < 64 {
                    let ghost before = subset;
                    subset = subset | (1u64 << bit_to_set as u64);
                    proof {
                        assert forall|value: u8| value < 64 && #[trigger] has_bit(subset, value) implies value
                            <= cardinality by {
                            lemma_bit_added(before, bit_to_set, value);
                        }
                    }
                }
                taken += 1;
            }
            Split::new_categorical(attribute_index, subset)
        },
    }
}

impl Tree {
    /// Draws one split on each of as many attributes as the tree tries per
    /// position, chosen at random among those that are not known to be
    /// constant; on all of them where there are fewer.
    pub(crate) fn generate_candidate_splits<D: Dataset>(
        &mut self,
        dataset: &D,
        constant_attribute_indexes: &Vec<u8>,
    ) -> (split_candidates: Vec<Split>)
        ensures
            final(self).same_but_rng(old(self)),
            forall|i: int|
                0 <= i < split_candidates@.len() ==> is_candidate(
                    #[trigger] split_candidates@[i],
                    dataset,
                    constant_attribute_indexes@,
                ),
            split_candidates@.len() == if old(self).num_attributes_to_try_per_split <= varying_attributes(
                constant_attribute_indexes@,
                dataset.spec_num_attributes() as int,
            ).len() {
                old(self).num_attributes_to_try_per_split as int
            } else {
                varying_attributes(constant_attribute_indexes@, dataset.spec_num_attributes() as int).len() as int
            },
            on_distinct_attributes(split_candidates@),
    {
        let num_attributes = dataset.num_attributes();
        let mut attribute_indexes: Vec<u8> = Vec::new();
        let mut attribute_index: u8 = 0;
        while attribute_index < num_attributes
            invariant
                attribute_index <= num_attributes,
                attribute_indexes@ == varying_attributes(constant_attribute_indexes@, attribute_index as int),
            decreases num_attributes - attribute_index,
        {
            if !holds(constant_attribute_indexes, attribute_index) {
                attribute_indexes.push(attribute_index);
            }
            attribute_index += 1;
        }
        let ghost in_order = attribute_indexes@;
        shuffle(&mut self.rng, &mut attribute_indexes);
        proof {
            lemma_varying_attributes(constant_attribute_indexes@, num_attributes as int);
            lemma_shuffled(in_order, attribute_indexes@);
            lemma_shuffled_apart(in_order, attribute_indexes@);
            assert forall|i: int| 0 <= i < attribute_indexes@.len() implies attribute_indexes@[i] < num_attributes
                && !constant_attribute_indexes@.contains(#[trigger] attribute_indexes@[i]) by {
                let value = attribute_indexes@[i];
                assert(in_order.contains(value));
                let j = choose|j: int| 0 <= j < in_order.len() && in_order[j] == value;
                assert(in_order[j] < num_attributes);
            }
        }
        let mut split_candidates: Vec<Split> = Vec::new();
        let mut taken: usize = 0;
        while taken < attribute_indexes.len() && taken < self.num_attributes_to_try_per_split
            invariant
                taken <= attribute_indexes@.len(),
                taken <= self.num_attributes_to_try_per_split,
                self.same_but_rng(old(self)),
                num_attributes == dataset.spec_num_attributes(),
                split_candidates@.len() == taken,
                attribute_indexes@.no_duplicates(),
                forall|i: int|
                    0 <= i < split_candidates@.len() ==> (#[trigger] split_candidates@[i]).spec_attribute_index()
                        == attribute_indexes@[i],
                forall|i: int|
                    0 <= i < attribute_indexes@.len() ==> attribute_indexes@[i] < num_attributes
                        && !constant_attribute_indexes@.contains(#[trigger] attribute_indexes@[i]),
                forall|i: int|
                    0 <= i < split_candidates@.len() ==> is_candidate(
                        #[trigger] split_candidates@[i],
                        dataset,
                        constant_attribute_indexes@,
                    ),
            decreases attribute_indexes@.len() - taken,
        {
            let candidate = generate_random_split(&mut self.rng, dataset, attribute_indexes[taken]);
            split_candidates.push(candidate);
            taken += 1;
        }
        split_candidates
    }
}

/// The statistics of every candidate over the samples, scored against the
/// impurity of the samples.
pub(crate) fn compute_split_stats<S: Sample, D: Dataset>(
    impurity_before: u64,
    samples: &[S],
    dataset: &D,
    candidate_splits: &Vec<Split>,
) -> (all_stats: Vec<SplitStats>)
    requires
        impurity_before <= SCORE_SCALE,
        samples.len() <= u32::MAX,
        describes(dataset, samples@),
        forall|i: int|
            0 <= i < candidate_splits@.len() ==> (#[trigger] candidate_splits@[i]).spec_attribute_index()
                < dataset.spec_num_attributes(),
    ensures
        all_stats@.len() == candidate_splits@.len(),
        forall|i: int|
            0 <= i < all_stats@.len() ==> #[trigger] all_stats@[i] == counted(samples@, &candidate_splits@[i]).scored_against(
                impurity_before as int,
            ),
        forall|i: int| 0 <= i < all_stats@.len() ==> ((#[trigger] all_stats@[i]).score.is_some() ==> all_stats@[i].is_scored()),
        forall|i: int|
            0 <= i < all_stats@.len() ==> ((#[trigger] all_stats@[i]).score.is_some() ==> all_stats@[i].has_impurities()),
        forall|i: int|
            0 <= i < all_stats@.len() ==> (#[trigger] all_stats@[i]).impurity_left <= SCORE_SCALE
                && all_stats@[i].impurity_right <= SCORE_SCALE,
{
    let mut all_stats: Vec<SplitStats> = Vec::with_capacity(candidate_splits.len());

    let mut index: usize = 0;
    while index < candidate_splits.len()
        invariant
            index <= candidate_splits@.len(),
            impurity_before <= SCORE_SCALE,
            samples.len() <= u32::MAX,
            describes(dataset, samples@),
            forall|i: int|
                0 <= i < candidate_splits@.len() ==> (#[trigger] candidate_splits@[i]).spec_attribute_index()
                    < dataset.spec_num_attributes(),
            all_stats@.len() == index,
            forall|i: int|
                0 <= i < all_stats@.len() ==> #[trigger] all_stats@[i] == counted(
                    samples@,
                    &candidate_splits@[i],
                ).scored_against(impurity_before as int),
            forall|i: int|
                0 <= i < all_stats@.len() ==> ((#[trigger] all_stats@[i]).score.is_some() ==> all_stats@[i].is_scored()),
            forall|i: int|
                0 <= i < all_stats@.len() ==> ((#[trigger] all_stats@[i]).score.is_some()
                    ==> all_stats@[i].has_impurities()),
            forall|i: int|
                0 <= i < all_stats@.len() ==> (#[trigger] all_stats@[i]).impurity_left <= SCORE_SCALE
                    && all_stats@[i].impurity_right <= SCORE_SCALE,
        decreases candidate_splits@.len() - index,
    {
        let candidate = &candidate_splits[index];
        assert(split_applies(samples@, candidate));
        let mut stats = match candidate {
            Split::Numerical { attribute_index: _, cut_off: _ } => scan_simd_numerical(samples, candidate),
            Split::Categorical { attribute_index, subset: _ } => {
                let (_, range) = dataset.attribute_range(*attribute_index);
                if range <= 16 {
                    scan_simd_categorical(samples, candidate)
                } else {
                    scan(samples, candidate)
                }
            },
        };

        stats.update_score(impurity_before);
        all_stats.push(stats);
        index += 1;
    }
    all_stats
}

} // verus!
