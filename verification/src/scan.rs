//! Counting the samples on either side of a split.
//!
//! There are several ways to walk the samples, and all of them give the same
//! four counts.

use vstd::prelude::*;
use crate::dataset::{goes_left, Sample};
use crate::split_stats::SplitStats;
use crate::tree::Split;

verus! {

/// The number of samples with the given label on the given side of the split.
pub open spec fn count_bucket<S: Sample>(samples: Seq<S>, split: &Split, plus: bool, left: bool) -> nat
    decreases samples.len(),
{
    if samples.len() == 0 {
        0
    } else {
        count_bucket(samples.drop_last(), split, plus, left) + if samples.last().spec_true_label() == plus
            && goes_left(&samples.last(), split) == left {
            1nat
        } else {
            0nat
        }
    }
}

/// The statistics of a split over the samples: the four counts, unscored.
pub open spec fn counted<S: Sample>(samples: Seq<S>, split: &Split) -> SplitStats {
    SplitStats {
        num_plus_left: count_bucket(samples, split, true, true) as u32,
        num_minus_left: count_bucket(samples, split, false, true) as u32,
        num_plus_right: count_bucket(samples, split, true, false) as u32,
        num_minus_right: count_bucket(samples, split, false, false) as u32,
        impurity_left: 0,
        impurity_right: 0,
        score: None,
    }
}

/// Every sample has the attribute that the split tests.
pub open spec fn split_applies<S: Sample>(samples: Seq<S>, split: &Split) -> bool {
    forall|i: int| 0 <= i < samples.len() ==> (#[trigger] samples[i]).has_attribute(split.spec_attribute_index())
}

/// The number of `true` among the labels.
pub open spec fn count_true(labels: Seq<bool>) -> nat
    decreases labels.len(),
{
    if labels.len() == 0 {
        0
    } else {
        count_true(labels.drop_last()) + if labels.last() {
            1nat
        } else {
            0nat
        }
    }
}

/// Every sample lies in exactly one bucket.
pub proof fn lemma_buckets_partition<S: Sample>(samples: Seq<S>, split: &Split)
    ensures
        count_bucket(samples, split, true, true) + count_bucket(samples, split, false, true) + count_bucket(
            samples,
            split,
            true,
            false,
        ) + count_bucket(samples, split, false, false) == samples.len(),
    decreases samples.len(),
{
    if samples.len() > 0 {
        lemma_buckets_partition(samples.drop_last(), split);
    }
}

proof fn lemma_count_next<S: Sample>(samples: Seq<S>, split: &Split, index: int)
    requires
        0 <= index < samples.len(),
    ensures
        forall|plus: bool, left: bool| #[trigger]
            count_bucket(samples.take(index + 1), split, plus, left) == count_bucket(
                samples.take(index),
                split,
                plus,
                left,
            ) + if samples[index].spec_true_label() == plus && goes_left(&samples[index], split) == left {
                1nat
            } else {
                0nat
            },
{
    assert(samples.take(index + 1).drop_last() == samples.take(index));
}

/// The three running counts are those of the first `index` samples.
pub open spec fn counted_upto<S: Sample>(
    samples: Seq<S>,
    split: &Split,
    index: int,
    num_left: int,
    num_plus_left: int,
    num_plus_right: int,
) -> bool {
    &&& num_left == count_bucket(samples.take(index), split, true, true) + count_bucket(
        samples.take(index),
        split,
        false,
        true,
    )
    &&& num_plus_left == count_bucket(samples.take(index), split, true, true)
    &&& num_plus_right == count_bucket(samples.take(index), split, true, false)
}

proof fn lemma_counted_next<S: Sample>(
    samples: Seq<S>,
    split: &Split,
    index: int,
    num_left: int,
    num_plus_left: int,
    num_plus_right: int,
)
    requires
        0 <= index < samples.len(),
        counted_upto(samples, split, index, num_left, num_plus_left, num_plus_right),
    ensures
        ({
            let is_left = goes_left(&samples[index], split);
            let is_plus = samples[index].spec_true_label();
            counted_upto(
                samples,
                split,
                index + 1,
                num_left + if is_left { 1int } else { 0int },
                num_plus_left + if is_left && is_plus { 1int } else { 0int },
                num_plus_right + if !is_left && is_plus { 1int } else { 0int },
            )
        }),
        num_left <= index,
        num_plus_left <= index,
        num_plus_right <= index,
{
    lemma_count_next(samples, split, index);
    lemma_buckets_partition(samples.take(index), split);
}

/// The statistics from the three counts over all samples.
fn from_running_counts<S: Sample>(
    samples: &[S],
    split: &Split,
    num_left: u32,
    num_plus_left: u32,
    num_plus_right: u32,
) -> (stats: SplitStats)
    requires
        samples.len() <= u32::MAX,
        counted_upto(
            samples@,
            split,
            samples.len() as int,
            num_left as int,
            num_plus_left as int,
            num_plus_right as int,
        ),
    ensures
        stats == counted(samples@, split),
{
    proof {
        assert(samples@.take(samples.len() as int) == samples@);
        lemma_buckets_partition(samples@, split);
    }
    let num_minus_left = num_left - num_plus_left;
    let num_minus_right: u32 = ((samples.len() - num_left as usize) as u32) - num_plus_right;

    SplitStats::new(num_plus_left, num_minus_left, num_plus_right, num_minus_right)
}

/// Counts with a branch on the side and on the label of every sample.
pub fn scan_with_branches<S: Sample>(samples: &[S], split: &Split) -> (stats: SplitStats)
    requires
        samples.len() <= u32::MAX,
        split_applies(samples@, split),
    ensures
        stats == counted(samples@, split),
{
    let mut num_left: u32 = 0;
    let mut num_plus_left: u32 = 0;
    let mut num_plus_right: u32 = 0;

    let mut index: usize = 0;
    while index < samples.len()
        invariant
            index <= samples.len() <= u32::MAX,
            split_applies(samples@, split),
            counted_upto(samples@, split, index as int, num_left as int, num_plus_left as int, num_plus_right as int),
        decreases samples.len() - index,
    {
        proof {
            lemma_counted_next(
                samples@,
                split,
                index as int,
                num_left as int,
                num_plus_left as int,
                num_plus_right as int,
            );
        }
        let sample = &samples[index];
        let is_left = sample.is_left_of(split);
        let is_plus = sample.true_label();

        if is_left {
            num_left += 1;

            if is_plus {
                num_plus_left += 1;
            }
        } else {
            if is_plus {
                num_plus_right += 1;
            }
        }
        index += 1;
    }
    from_running_counts(samples, split, num_left, num_plus_left, num_plus_right)
}

/// One where the condition holds, zero where it does not.
fn as_count(condition: bool) -> (count: u32)
    ensures
        count == if condition { 1int } else { 0int },
{
    if condition {
        1
    } else {
        0
    }
}

/// Counts without a branch: every sample adds zero or one to each count.
pub fn scan<S: Sample>(samples: &[S], split: &Split) -> (stats: SplitStats)
    requires
        samples.len() <= u32::MAX,
        split_applies(samples@, split),
    ensures
        stats == counted(samples@, split),
{
    let mut num_left: u32 = 0;
    let mut num_plus_left: u32 = 0;
    let mut num_plus_right: u32 = 0;

    let mut index: usize = 0;
    while index < samples.len()
        invariant
            index <= samples.len() <= u32::MAX,
            split_applies(samples@, split),
            counted_upto(samples@, split, index as int, num_left as int, num_plus_left as int, num_plus_right as int),
        decreases samples.len() - index,
    {
        proof {
            lemma_counted_next(
                samples@,
                split,
                index as int,
                num_left as int,
                num_plus_left as int,
                num_plus_right as int,
            );
        }
        let sample = &samples[index];
        let is_left = sample.is_left_of(split);
        let is_plus = sample.true_label();

        num_left += as_count(is_left);
        num_plus_left += as_count(is_left && is_plus);
        num_plus_right += as_count(!is_left && is_plus);
        index += 1;
    }
    from_running_counts(samples, split, num_left, num_plus_left, num_plus_right)
}

/// Counts a numerical split in batches of sixteen samples, comparing the
/// values of a batch with the cut-off before the counts of the batch are
/// added up; the samples after the last full batch are counted one by one.
pub fn scan_simd_numerical<S: Sample>(samples: &[S], split: &Split) -> (stats: SplitStats)
    requires
        split is Numerical,
        samples.len() <= u32::MAX,
        split_applies(samples@, split),
    ensures
        stats == counted(samples@, split),
{
    let (attribute_index, cut_off) = match split {
        Split::Numerical { attribute_index, cut_off } => (*attribute_index, *cut_off),
        Split::Categorical { attribute_index, subset: _ } => (*attribute_index, 0),
    };

    let mut offset: usize = 0;
    let batch_size: usize = 16;

    let mut num_left: u32 = 0;
    let mut num_plus_left: u32 = 0;
    let mut num_plus_right: u32 = 0;

    let additional_samples = samples.len() % batch_size;

    while offset < samples.len() - additional_samples
        invariant
            batch_size == 16,
            additional_samples == samples.len() % 16,
            offset <= samples.len() - additional_samples,
            offset % 16 == 0,
            samples.len() <= u32::MAX,
            num_left <= offset,
            num_plus_left <= offset,
            num_plus_right <= offset,
            split_applies(samples@, split),
            *split == (Split::Numerical { attribute_index, cut_off }),
            counted_upto(samples@, split, offset as int, num_left as int, num_plus_left as int, num_plus_right as int),
        decreases samples.len() - offset,
    {
        let mut left_in_batch: u32 = 0;
        let mut plus_left_in_batch: u32 = 0;
        let mut plus_right_in_batch: u32 = 0;
        let mut lane: usize = 0;
        while lane < batch_size
            invariant
                batch_size == 16,
                lane <= 16,
                offset + 16 <= samples.len() <= u32::MAX,
                split_applies(samples@, split),
                *split == (Split::Numerical { attribute_index, cut_off }),
                left_in_batch <= lane,
                plus_left_in_batch <= lane,
                plus_right_in_batch <= lane,
                num_left <= offset,
                num_plus_left <= offset,
                num_plus_right <= offset,
                counted_upto(
                    samples@,
                    split,
                    offset + lane,
                    num_left + left_in_batch,
                    num_plus_left + plus_left_in_batch,
                    num_plus_right + plus_right_in_batch,
                ),
            decreases 16 - lane,
        {
            proof {
                lemma_counted_next(
                    samples@,
                    split,
                    offset + lane,
                    num_left + left_in_batch,
                    num_plus_left + plus_left_in_batch,
                    num_plus_right + plus_right_in_batch,
                );
            }
            let sample = &samples[offset + lane];
            let is_left = sample.attribute_value(attribute_index) < cut_off;
            let is_plus = sample.true_label();

            left_in_batch += as_count(is_left);
            plus_left_in_batch += as_count(is_left && is_plus);
            plus_right_in_batch += as_count(!is_left && is_plus);
            lane += 1;
        }
        num_left += left_in_batch;
        num_plus_left += plus_left_in_batch;
        num_plus_right += plus_right_in_batch;

        offset += batch_size;
    }
    while offset < samples.len()
        invariant
            offset <= samples.len() <= u32::MAX,
            split_applies(samples@, split),
            counted_upto(samples@, split, offset as int, num_left as int, num_plus_left as int, num_plus_right as int),
        decreases samples.len() - offset,
    {
        proof {
            lemma_counted_next(
                samples@,
                split,
                offset as int,
                num_left as int,
                num_plus_left as int,
                num_plus_right as int,
            );
        }
        let sample = &samples[offset];
        let is_left = sample.is_left_of(split);
        let is_plus = sample.true_label();

        num_left += as_count(is_left);
        num_plus_left += as_count(is_left && is_plus);
        num_plus_right += as_count(!is_left && is_plus);

        offset += 1;
    }
    from_running_counts(samples, split, num_left, num_plus_left, num_plus_right)
}

/// Counts a categorical split in batches of four samples, testing the bits
/// of a batch against the subset before the counts of the batch are added
/// up; the samples after the last full batch are counted one by one.
pub fn scan_simd_categorical<S: Sample>(samples: &[S], split: &Split) -> (stats: SplitStats)
    requires
        split is Categorical,
        samples.len() <= u32::MAX,
        split_applies(samples@, split),
    ensures
        stats == counted(samples@, split),
{
    let (attribute_index, subset) = match split {
        Split::Numerical { attribute_index, cut_off: _ } => (*attribute_index, 0),
        Split::Categorical { attribute_index, subset } => (*attribute_index, *subset),
    };

    let mut offset: usize = 0;
    let batch_size: usize = 4;

    let mut num_left: u32 = 0;
    let mut num_plus_left: u32 = 0;
    let mut num_plus_right: u32 = 0;

    let additional_samples = samples.len() % batch_size;

    while offset < samples.len() - additional_samples
        invariant
            batch_size == 4,
            additional_samples == samples.len() % 4,
            offset <= samples.len() - additional_samples,
            offset % 4 == 0,
            samples.len() <= u32::MAX,
            num_left <= offset,
            num_plus_left <= offset,
            num_plus_right <= offset,
            split_applies(samples@, split),
            *split == (Split::Categorical { attribute_index, subset }),
            counted_upto(samples@, split, offset as int, num_left as int, num_plus_left as int, num_plus_right as int),
        decreases samples.len() - offset,
    {
        let mut left_in_batch: u32 = 0;
        let mut plus_left_in_batch: u32 = 0;
        let mut plus_right_in_batch: u32 = 0;
        let mut lane: usize = 0;
        while lane < batch_size
            invariant
                batch_size == 4,
                lane <= 4,
                offset + 4 <= samples.len() <= u32::MAX,
                split_applies(samples@, split),
                *split == (Split::Categorical { attribute_index, subset }),
                left_in_batch <= lane,
                plus_left_in_batch <= lane,
                plus_right_in_batch <= lane,
                num_left <= offset,
                num_plus_left <= offset,
                num_plus_right <= offset,
                counted_upto(
                    samples@,
                    split,
                    offset + lane,
                    num_left + left_in_batch,
                    num_plus_left + plus_left_in_batch,
                    num_plus_right + plus_right_in_batch,
                ),
            decreases 4 - lane,
        {
            proof {
                lemma_counted_next(
                    samples@,
                    split,
                    offset + lane,
                    num_left + left_in_batch,
                    num_plus_left + plus_left_in_batch,
                    num_plus_right + plus_right_in_batch,
                );
            }
            let sample = &samples[offset + lane];
            let attribute_value = sample.attribute_value(attribute_index);
            let is_left = attribute_value < 64 && subset & (1u64 << attribute_value as u64) != 0;
            let is_plus = sample.true_label();

            left_in_batch += as_count(is_left);
            plus_left_in_batch += as_count(is_left && is_plus);
            plus_right_in_batch += as_count(!is_left && is_plus);
            lane += 1;
        }
        num_left += left_in_batch;
        num_plus_left += plus_left_in_batch;
        num_plus_right += plus_right_in_batch;

        offset += batch_size;
    }
    while offset < samples.len()
        invariant
            offset <= samples.len() <= u32::MAX,
            split_applies(samples@, split),
            counted_upto(samples@, split, offset as int, num_left as int, num_plus_left as int, num_plus_right as int),
        decreases samples.len() - offset,
    {
        proof {
            lemma_counted_next(
                samples@,
                split,
                offset as int,
                num_left as int,
                num_plus_left as int,
                num_plus_right as int,
            );
        }
        let sample = &samples[offset];
        let is_left = sample.is_left_of(split);
        let is_plus = sample.true_label();

        num_left += as_count(is_left);
        num_plus_left += as_count(is_left && is_plus);
        num_plus_right += as_count(!is_left && is_plus);

        offset += 1;
    }
    from_running_counts(samples, split, num_left, num_plus_left, num_plus_right)
}

proof fn lemma_labels_next<S: Sample>(samples: Seq<S>, split: &Split, index: int, labels: Seq<bool>, left: bool)
    requires
        0 <= index < samples.len(),
        labels.len() == count_bucket(samples.take(index), split, true, left) + count_bucket(
            samples.take(index),
            split,
            false,
            left,
        ),
        count_true(labels) == count_bucket(samples.take(index), split, true, left),
    ensures
        ({
            let next = if goes_left(&samples[index], split) == left {
                labels.push(samples[index].spec_true_label())
            } else {
                labels
            };
            &&& next.len() == count_bucket(samples.take(index + 1), split, true, left) + count_bucket(
                samples.take(index + 1),
                split,
                false,
                left,
            )
            &&& count_true(next) == count_bucket(samples.take(index + 1), split, true, left)
        }),
{
    lemma_count_next(samples, split, index);
    let label = samples[index].spec_true_label();
    assert(labels.push(label).drop_last() == labels);
}

/// Sorts the labels by side first and sums the labels of either side with
/// [`simd_sum_mlpack`].
pub fn scan_mlpack<S: Sample>(samples: &[S], split: &Split) -> (stats: SplitStats)
    requires
        samples.len() <= u32::MAX,
        split_applies(samples@, split),
    ensures
        stats == counted(samples@, split),
{
    let mut labels_left: Vec<bool> = Vec::new();
    let mut labels_right: Vec<bool> = Vec::new();

    let mut index: usize = 0;
    while index < samples.len()
        invariant
            index <= samples.len(),
            split_applies(samples@, split),
            labels_left@.len() == count_bucket(samples@.take(index as int), split, true, true) + count_bucket(
                samples@.take(index as int),
                split,
                false,
                true,
            ),
            count_true(labels_left@) == count_bucket(samples@.take(index as int), split, true, true),
            labels_right@.len() == count_bucket(samples@.take(index as int), split, true, false) + count_bucket(
                samples@.take(index as int),
                split,
                false,
                false,
            ),
            count_true(labels_right@) == count_bucket(samples@.take(index as int), split, true, false),
        decreases samples.len() - index,
    {
        proof {
            lemma_labels_next(samples@, split, index as int, labels_left@, true);
            lemma_labels_next(samples@, split, index as int, labels_right@, false);
        }
        let sample = &samples[index];
        if sample.is_left_of(split) {
            labels_left.push(sample.true_label());
        } else {
            labels_right.push(sample.true_label());
        }
        index += 1;
    }
    proof {
        assert(samples@.take(samples.len() as int) == samples@);
        lemma_buckets_partition(samples@, split);
    }
    let counts_left = simd_sum_mlpack(labels_left.as_slice());
    let counts_right = simd_sum_mlpack(labels_right.as_slice());

    SplitStats::new(
        counts_left[1] as u32,
        counts_left[0] as u32,
        counts_right[1] as u32,
        counts_right[0] as u32,
    )
}

proof fn lemma_true_next(labels: Seq<bool>, index: int)
    requires
        0 <= index < labels.len(),
    ensures
        count_true(labels.take(index + 1)) == count_true(labels.take(index)) + if labels[index] {
            1nat
        } else {
            0nat
        },
{
    assert(labels.take(index + 1).drop_last() == labels.take(index));
}

/// Sums the labels with four counters side by side, the way a vectorized
/// sum does. Returns the number of `false` and the number of `true`.
pub fn simd_sum_mlpack(labels: &[bool]) -> (all_counts: [usize; 2])
    ensures
        all_counts[1] == count_true(labels@),
        all_counts[0] + all_counts[1] == labels.len(),
{
    let batch_size: usize = 4;
    let mut i: usize = 0;
    let leftovers = labels.len() % batch_size;

    let mut counts: [usize; 2] = [0, 0];
    let mut counts2: [usize; 2] = [0, 0];
    let mut counts3: [usize; 2] = [0, 0];
    let mut counts4: [usize; 2] = [0, 0];

    while i < labels.len() - leftovers
        invariant
            batch_size == 4,
            leftovers == labels.len() % 4,
            i <= labels.len() - leftovers,
            i % 4 == 0,
            counts[1] + counts2[1] + counts3[1] + counts4[1] == count_true(labels@.take(i as int)),
            counts[0] + counts2[0] + counts3[0] + counts4[0] + count_true(labels@.take(i as int)) == i,
        decreases labels.len() - i,
    {
        proof {
            lemma_true_next(labels@, i as int);
            lemma_true_next(labels@, i + 1);
            lemma_true_next(labels@, i + 2);
            lemma_true_next(labels@, i + 3);
        }
        counts = tally(counts, labels[i]);
        counts2 = tally(counts2, labels[i + 1]);
        counts3 = tally(counts3, labels[i + 2]);
        counts4 = tally(counts4, labels[i + 3]);

        i += batch_size;
    }
    assert(i == labels.len() - leftovers);
    if leftovers == 1 {
        proof {
            lemma_true_next(labels@, i as int);
        }
        counts = tally(counts, labels[labels.len() - 1]);
    } else if leftovers == 2 {
        proof {
            lemma_true_next(labels@, i as int);
            lemma_true_next(labels@, i + 1);
        }
        counts = tally(counts, labels[labels.len() - 2]);
        counts2 = tally(counts2, labels[labels.len() - 1]);
    } else if leftovers == 3 {
        proof {
            lemma_true_next(labels@, i as int);
            lemma_true_next(labels@, i + 1);
            lemma_true_next(labels@, i + 2);
        }
        counts = tally(counts, labels[labels.len() - 3]);
        counts2 = tally(counts2, labels[labels.len() - 2]);
        counts3 = tally(counts3, labels[labels.len() - 1]);
    }
    assert(labels@.take(labels.len() as int) == labels@);
    let all_counts = [
        counts[0] + counts2[0] + counts3[0] + counts4[0],
        counts[1] + counts2[1] + counts3[1] + counts4[1],
    ];

    all_counts
}

/// One more label in a pair of counters.
fn tally(counts: [usize; 2], label: bool) -> (next: [usize; 2])
    requires
        counts[0] + counts[1] < usize::MAX,
    ensures
        next[0] == counts[0] + if label { 0int } else { 1int },
        next[1] == counts[1] + if label { 1int } else { 0int },
{
    if label {
        [counts[0], counts[1] + 1]
    } else {
        [counts[0] + 1, counts[1]]
    }
}

} // verus!
