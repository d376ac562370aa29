//! Dividing samples in place between the two sides of a split.

use vstd::prelude::*;
use crate::dataset::{describes, goes_left, Dataset, Sample};
use crate::scan::{count_bucket, split_applies};
use crate::tree::Split;

verus! {

/// All samples have the same value of the attribute.
pub open spec fn constant_on<S: Sample>(samples: Seq<S>, attribute_index: u8) -> bool {
    forall|i: int, j: int|
        #![trigger samples[i], samples[j]]
        0 <= i < samples.len() && 0 <= j < samples.len() ==> samples[i].spec_attribute_value(attribute_index)
            == samples[j].spec_attribute_value(attribute_index)
}

/// The samples from `from` up to `to` are those of `before`, in some order,
/// and all other samples are as before.
pub open spec fn rearranged_within<S: Sample>(before: Seq<S>, after: Seq<S>, from: int, to: int) -> bool {
    &&& after.len() == before.len()
    &&& forall|i: int| 0 <= i < after.len() && !(from <= i < to) ==> #[trigger] after[i] == before[i]
    &&& forall|i: int| from <= i < to ==> stood_within(before, #[trigger] after[i], from, to)
}

/// The sample stood somewhere from `from` up to `to`.
pub open spec fn stood_within<S: Sample>(before: Seq<S>, sample: S, from: int, to: int) -> bool {
    exists|j: int| from <= j < to && #[trigger] before[j] == sample
}

pub(crate) proof fn lemma_count_after_update<S: Sample>(samples: Seq<S>, index: int, sample: S, split: &Split, plus: bool, left: bool)
    requires
        0 <= index < samples.len(),
    ensures
        count_bucket(samples.update(index, sample), split, plus, left) + (if samples[index].spec_true_label() == plus
            && goes_left(&samples[index], split) == left {
            1int
        } else {
            0int
        }) == count_bucket(samples, split, plus, left) + (if sample.spec_true_label() == plus && goes_left(
            &sample,
            split,
        ) == left {
            1int
        } else {
            0int
        }),
    decreases samples.len(),
{
    let updated = samples.update(index, sample);
    if index == samples.len() - 1 {
        assert(updated.drop_last() == samples.drop_last());
    } else {
        assert(updated.drop_last() == samples.drop_last().update(index, sample));
        lemma_count_after_update(samples.drop_last(), index, sample, split, plus, left);
    }
}

/// Exchanging two samples changes no count.
pub(crate) proof fn lemma_count_after_swap<S: Sample>(samples: Seq<S>, i: int, j: int, split: &Split)
    requires
        0 <= i < samples.len(),
        0 <= j < samples.len(),
    ensures
        forall|plus: bool, left: bool| #[trigger]
            count_bucket(samples.update(i, samples[j]).update(j, samples[i]), split, plus, left) == count_bucket(
                samples,
                split,
                plus,
                left,
            ),
{
    assert forall|plus: bool, left: bool| #[trigger]
        count_bucket(samples.update(i, samples[j]).update(j, samples[i]), split, plus, left) == count_bucket(
            samples,
            split,
            plus,
            left,
        ) by {
        lemma_count_after_update(samples, i, samples[j], split, plus, left);
        lemma_count_after_update(samples.update(i, samples[j]), j, samples[i], split, plus, left);
    }
}

/// Exchanging two samples keeps the samples.
pub(crate) proof fn lemma_swap_keeps_samples<S: Sample>(samples: Seq<S>, i: int, j: int)
    requires
        0 <= i < samples.len(),
        0 <= j < samples.len(),
    ensures
        samples.update(i, samples[j]).update(j, samples[i]).to_multiset() == samples.to_multiset(),
{
    broadcast use vstd::multiset::group_multiset_axioms;

    let once = samples.update(i, samples[j]);
    vstd::seq_lib::to_multiset_update(samples, i, samples[j]);
    vstd::seq_lib::to_multiset_update(once, j, samples[i]);
    vstd::seq_lib::to_multiset_contains(samples, samples[i]);
    vstd::seq_lib::to_multiset_contains(samples, samples[j]);
    assert(samples.contains(samples[i]));
    assert(samples.contains(samples[j]));
    assert(once.update(j, samples[i]).to_multiset() =~= samples.to_multiset());
}

/// Where the first `mid` samples go left and the others right, `mid` is
/// the number of samples that go left.
pub(crate) proof fn lemma_count_divided<S: Sample>(samples: Seq<S>, split: &Split, mid: int)
    requires
        0 <= mid <= samples.len(),
        forall|i: int| 0 <= i < mid ==> goes_left(&#[trigger] samples[i], split),
        forall|i: int| mid <= i < samples.len() ==> !goes_left(&#[trigger] samples[i], split),
    ensures
        count_bucket(samples, split, true, true) + count_bucket(samples, split, false, true) == mid,
        count_bucket(samples, split, true, false) + count_bucket(samples, split, false, false) == samples.len() - mid,
    decreases samples.len(),
{
    if samples.len() > 0 {
        let rest = samples.drop_last();
        if mid == samples.len() {
            lemma_count_divided(rest, split, mid - 1);
        } else {
            lemma_count_divided(rest, split, mid);
        }
    }
}

/// The samples of a range have one value where all of them have the value
/// of one of them.
pub(crate) proof fn lemma_constant_on<S: Sample>(samples: Seq<S>, from: int, to: int, anchor: int, attribute_index: u8)
    requires
        0 <= from <= to <= samples.len(),
        from < to ==> from <= anchor < to,
    ensures
        constant_on(samples.subrange(from, to), attribute_index) == forall|i: int|
            from <= i < to ==> (#[trigger] samples[i]).spec_attribute_value(attribute_index)
                == samples[anchor].spec_attribute_value(attribute_index),
{
    let part = samples.subrange(from, to);
    if constant_on(part, attribute_index) {
        assert forall|i: int| from <= i < to implies (#[trigger] samples[i]).spec_attribute_value(attribute_index)
            == samples[anchor].spec_attribute_value(attribute_index) by {
            assert(part[i - from] == samples[i]);
            assert(part[anchor - from] == samples[anchor]);
        }
    }
    if forall|i: int|
        from <= i < to ==> (#[trigger] samples[i]).spec_attribute_value(attribute_index)
            == samples[anchor].spec_attribute_value(attribute_index) {
        assert forall|i: int, j: int|
            #![trigger part[i], part[j]]
            0 <= i < part.len() && 0 <= j < part.len() implies part[i].spec_attribute_value(attribute_index)
                == part[j].spec_attribute_value(attribute_index) by {
            assert(part[i] == samples[i + from]);
            assert(part[j] == samples[j + from]);
        }
    }
}

/// Samples that a dataset describes are described in any order.
pub(crate) proof fn lemma_rearranged_described<D: Dataset, S: Sample>(
    dataset: &D,
    before: Seq<S>,
    after: Seq<S>,
    from: int,
    to: int,
)
    requires
        describes(dataset, before),
        rearranged_within(before, after, from, to),
        0 <= from <= to <= before.len(),
    ensures
        describes(dataset, after),
{
    assert forall|i: int, attribute_index: u8|
        0 <= i < after.len() && attribute_index < dataset.spec_num_attributes() implies #[trigger] after[i].has_attribute(
        attribute_index,
    ) by {
        if from <= i < to {
            assert(stood_within(before, after[i], from, to));
            let j = choose|j: int| from <= j < to && #[trigger] before[j] == after[i];
            assert(before[j].has_attribute(attribute_index));
        } else {
            assert(before[i].has_attribute(attribute_index));
        }
    }
}

/// Rearranging within a part of a range, and then again, rearranges
/// within the range.
pub(crate) proof fn lemma_rearranged_again<S: Sample>(
    before: Seq<S>,
    between: Seq<S>,
    after: Seq<S>,
    from: int,
    to: int,
    inner_from: int,
    inner_to: int,
)
    requires
        0 <= from <= inner_from <= inner_to <= to <= before.len(),
        rearranged_within(before, between, from, to),
        rearranged_within(between, after, inner_from, inner_to),
    ensures
        rearranged_within(before, after, from, to),
{
    assert forall|i: int| from <= i < to implies stood_within(before, #[trigger] after[i], from, to) by {
        if inner_from <= i < inner_to {
            assert(stood_within(between, after[i], inner_from, inner_to));
            let j = choose|j: int| inner_from <= j < inner_to && #[trigger] between[j] == after[i];
            assert(stood_within(before, between[j], from, to));
        } else {
            assert(after[i] == between[i]);
            assert(stood_within(before, between[i], from, to));
        }
    }
}

/// Divides the samples from `from` up to `to` in place: those that the
/// split sends left come first. Returns where the right part begins, and
/// for either part whether the tested attribute is constant on it.
pub(crate) fn split<S: Sample>(samples: &mut Vec<S>, from: usize, to: usize, by: &Split) -> (parts: (
    usize,
    bool,
    bool,
))
    requires
        from <= to <= old(samples)@.len(),
        split_applies(old(samples)@.subrange(from as int, to as int), by),
    ensures
        rearranged_within(old(samples)@, final(samples)@, from as int, to as int),
        from <= parts.0 <= to,
        forall|i: int| from <= i < parts.0 ==> goes_left(&#[trigger] final(samples)@[i], by),
        forall|i: int| parts.0 <= i < to ==> !goes_left(&#[trigger] final(samples)@[i], by),
        forall|plus: bool, left: bool| #[trigger]
            count_bucket(final(samples)@.subrange(from as int, to as int), by, plus, left) == count_bucket(
                old(samples)@.subrange(from as int, to as int),
                by,
                plus,
                left,
            ),
        parts.1 == constant_on(final(samples)@.subrange(from as int, parts.0 as int), by.spec_attribute_index()),
        parts.2 == constant_on(final(samples)@.subrange(parts.0 as int, to as int), by.spec_attribute_index()),
        final(samples)@.subrange(from as int, to as int).to_multiset() == old(samples)@.subrange(
            from as int,
            to as int,
        ).to_multiset(),
{
    let attribute_index = by.attribute_index();
    let mut cursor = from;
    let mut cursor_end = to;

    let mut constant_on_the_left = true;
    let mut first_value_on_the_left: Option<u8> = None;
    let mut constant_on_the_right = true;
    let mut first_value_on_the_right: Option<u8> = None;

    proof {
        assert forall|i: int| from <= i < to implies (#[trigger] samples@[i]).has_attribute(attribute_index) by {
            assert(samples@.subrange(from as int, to as int)[i - from] == samples@[i]);
        }
        assert forall|i: int| from <= i < to implies stood_within(
            old(samples)@,
            #[trigger] samples@[i],
            from as int,
            to as int,
        ) by {
            assert(old(samples)@[i] == samples@[i]);
        }
    }
    while cursor < cursor_end
        invariant
            from <= cursor <= cursor_end <= to <= samples@.len(),
            attribute_index == by.spec_attribute_index(),
            rearranged_within(old(samples)@, samples@, from as int, to as int),
            forall|i: int| from <= i < to ==> (#[trigger] samples@[i]).has_attribute(attribute_index),
            forall|i: int| from <= i < cursor ==> goes_left(&#[trigger] samples@[i], by),
            forall|i: int| cursor_end <= i < to ==> !goes_left(&#[trigger] samples@[i], by),
            forall|plus: bool, left: bool| #[trigger]
                count_bucket(samples@.subrange(from as int, to as int), by, plus, left) == count_bucket(
                    old(samples)@.subrange(from as int, to as int),
                    by,
                    plus,
                    left,
                ),
            samples@.subrange(from as int, to as int).to_multiset() == old(samples)@.subrange(
                from as int,
                to as int,
            ).to_multiset(),
            first_value_on_the_left.is_some() <==> from < cursor,
            first_value_on_the_left matches Some(value) ==> value == samples@[from as int].spec_attribute_value(
                attribute_index,
            ),
            constant_on_the_left == forall|i: int|
                from <= i < cursor ==> (#[trigger] samples@[i]).spec_attribute_value(attribute_index)
                    == samples@[from as int].spec_attribute_value(attribute_index),
            first_value_on_the_right.is_some() <==> cursor_end < to,
            first_value_on_the_right matches Some(value) ==> value == samples@[to - 1].spec_attribute_value(
                attribute_index,
            ),
            constant_on_the_right == forall|i: int|
                cursor_end <= i < to ==> (#[trigger] samples@[i]).spec_attribute_value(attribute_index)
                    == samples@[to - 1].spec_attribute_value(attribute_index),
        decreases cursor_end - cursor,
    {
        let sample = samples[cursor];
        let attribute_value: u8 = sample.attribute_value(attribute_index);

        if sample.is_left_of(by) {
            if constant_on_the_left {
                match first_value_on_the_left {
                    None => {
                        first_value_on_the_left = Some(attribute_value);
                    },
                    Some(first_value) => {
                        if attribute_value != first_value {
                            constant_on_the_left = false;
                        }
                    },
                }
            } else if first_value_on_the_left.is_none() {
                first_value_on_the_left = Some(attribute_value);
            }
            cursor += 1;
        } else {
            if constant_on_the_right {
                match first_value_on_the_right {
                    None => {
                        first_value_on_the_right = Some(attribute_value);
                    },
                    Some(first_value) => {
                        if attribute_value != first_value {
                            constant_on_the_right = false;
                        }
                    },
                }
            } else if first_value_on_the_right.is_none() {
                first_value_on_the_right = Some(attribute_value);
            }
            cursor_end -= 1;
            let ghost before = samples@;
            let other = samples[cursor_end];
            samples.set(cursor, other);
            samples.set(cursor_end, sample);
            proof {
                assert(samples@[cursor_end as int] == sample);
                assert forall|i: int| 0 <= i < samples@.len() && i != cursor && i != cursor_end implies samples@[i]
                    == before[i] by {}
                assert forall|i: int| from <= i < cursor implies samples@[i] == before[i] by {}
                assert forall|i: int| cursor_end < i < to implies samples@[i] == before[i] by {}
                let range = before.subrange(from as int, to as int);
                assert(range.len() == to - from);
                lemma_swap_keeps_samples(range, cursor - from, cursor_end - from);
                lemma_count_after_swap(range, cursor - from, cursor_end - from, by);
                assert(samples@.subrange(from as int, to as int) == range.update(
                    cursor - from,
                    range[cursor_end - from],
                ).update(cursor_end - from, range[cursor - from]));
                assert forall|i: int| from <= i < to implies stood_within(
                    old(samples)@,
                    #[trigger] samples@[i],
                    from as int,
                    to as int,
                ) by {
                    let source = if i == cursor {
                        cursor_end as int
                    } else if i == cursor_end {
                        cursor as int
                    } else {
                        i
                    };
                    assert(samples@[i] == before[source]);
                    assert(stood_within(old(samples)@, before[source], from as int, to as int));
                }
            }
        }
    }
    proof {
        lemma_constant_on(samples@, from as int, cursor as int, from as int, attribute_index);
        lemma_constant_on(samples@, cursor as int, to as int, to - 1, attribute_index);
    }
    (cursor, constant_on_the_left, constant_on_the_right)
}

} // verus!
