//! The order of the alternatives at an open position: by falling score,
//! so that the best one comes first.

use vstd::prelude::*;
use crate::robustness::{outscores, ranks_above};
use crate::tree::AlternativeTree;

verus! {

/// The list with one more alternative, behind those that it does not outscore.
pub open spec fn inserted_by_score(sorted: Seq<AlternativeTree>, alternative: AlternativeTree) -> Seq<
    AlternativeTree,
>
    decreases sorted.len(),
{
    if sorted.len() == 0 {
        seq![alternative]
    } else if outscores(alternative.split_stats, sorted.last().split_stats) {
        inserted_by_score(sorted.drop_last(), alternative).push(sorted.last())
    } else {
        sorted.push(alternative)
    }
}

/// The alternatives by falling score. Alternatives of the same score keep
/// their order.
pub open spec fn sorted_by_score(list: Seq<AlternativeTree>) -> Seq<AlternativeTree>
    decreases list.len(),
{
    if list.len() == 0 {
        list
    } else {
        inserted_by_score(sorted_by_score(list.drop_last()), list.last())
    }
}

/// No alternative outscores one that stands before it.
pub open spec fn is_ordered(list: Seq<AlternativeTree>) -> bool {
    forall|i: int, j: int|
        #![trigger list[i], list[j]]
        0 <= i < j < list.len() ==> !outscores(list[j].split_stats, list[i].split_stats)
}

/// The statistics of the alternatives, one for one, are the same.
pub open spec fn same_statistics(one: Seq<AlternativeTree>, other: Seq<AlternativeTree>) -> bool {
    &&& one.len() == other.len()
    &&& forall|i: int| 0 <= i < one.len() ==> (#[trigger] one[i]).split_stats == other[i].split_stats
}

pub(crate) proof fn lemma_inserted_at(sorted: Seq<AlternativeTree>, alternative: AlternativeTree, position: int)
    requires
        0 <= position <= sorted.len(),
        forall|j: int| position <= j < sorted.len() ==> outscores(alternative.split_stats, (#[trigger] sorted[j]).split_stats),
        position > 0 ==> !outscores(alternative.split_stats, sorted[position - 1].split_stats),
    ensures
        inserted_by_score(sorted, alternative) == sorted.insert(position, alternative),
    decreases sorted.len(),
{
    if sorted.len() == 0 {
    } else if position == sorted.len() {
    } else {
        lemma_inserted_at(sorted.drop_last(), alternative, position);
        assert(sorted.drop_last().insert(position, alternative).push(sorted.last()) == sorted.insert(
            position,
            alternative,
        ));
    }
}

pub(crate) proof fn lemma_inserted_is_rearranged(sorted: Seq<AlternativeTree>, alternative: AlternativeTree)
    ensures
        inserted_by_score(sorted, alternative).len() == sorted.len() + 1,
        forall|j: int|
            0 <= j <= sorted.len() ==> {
                ||| #[trigger] inserted_by_score(sorted, alternative)[j] == alternative
                ||| exists|k: int| 0 <= k < sorted.len() && sorted[k] == inserted_by_score(sorted, alternative)[j]
            },
    decreases sorted.len(),
{
    if sorted.len() > 0 && outscores(alternative.split_stats, sorted.last().split_stats) {
        let rest = sorted.drop_last();
        lemma_inserted_is_rearranged(rest, alternative);
        assert forall|j: int| 0 <= j <= sorted.len() implies {
            ||| #[trigger] inserted_by_score(sorted, alternative)[j] == alternative
            ||| exists|k: int| 0 <= k < sorted.len() && sorted[k] == inserted_by_score(sorted, alternative)[j]
        } by {
            let element = inserted_by_score(sorted, alternative)[j];
            if j == sorted.len() {
                assert(sorted[sorted.len() - 1] == element);
            } else if inserted_by_score(rest, alternative)[j] != alternative {
                let k = choose|k: int| 0 <= k < rest.len() && rest[k] == inserted_by_score(rest, alternative)[j];
                assert(sorted[k] == element);
            }
        }
    } else if sorted.len() > 0 {
        assert forall|j: int| 0 <= j <= sorted.len() implies {
            ||| #[trigger] inserted_by_score(sorted, alternative)[j] == alternative
            ||| exists|k: int| 0 <= k < sorted.len() && sorted[k] == inserted_by_score(sorted, alternative)[j]
        } by {
            if j < sorted.len() {
                assert(sorted[j] == inserted_by_score(sorted, alternative)[j]);
            }
        }
    }
}

/// Sorting keeps the alternatives: each one of the sorted list stood in the
/// list, and there are as many.
pub proof fn lemma_sorted_is_rearranged(list: Seq<AlternativeTree>)
    ensures
        sorted_by_score(list).len() == list.len(),
        forall|j: int|
            0 <= j < list.len() ==> exists|i: int| 0 <= i < list.len() && list[i] == #[trigger] sorted_by_score(list)[j],
    decreases list.len(),
{
    if list.len() > 0 {
        let rest = list.drop_last();
        lemma_sorted_is_rearranged(rest);
        lemma_inserted_is_rearranged(sorted_by_score(rest), list.last());
        assert forall|j: int| 0 <= j < list.len() implies exists|i: int|
            0 <= i < list.len() && list[i] == #[trigger] sorted_by_score(list)[j] by {
            let element = sorted_by_score(list)[j];
            if element == list.last() {
                assert(list[list.len() - 1] == element);
            } else {
                let k = choose|k: int| 0 <= k < rest.len() && sorted_by_score(rest)[k] == element;
                let i = choose|i: int| 0 <= i < rest.len() && rest[i] == #[trigger] sorted_by_score(rest)[k];
                assert(list[i] == element);
            }
        }
    }
}

proof fn lemma_inserted_is_ordered(sorted: Seq<AlternativeTree>, alternative: AlternativeTree)
    requires
        is_ordered(sorted),
    ensures
        is_ordered(inserted_by_score(sorted, alternative)),
        inserted_by_score(sorted, alternative).to_multiset() == sorted.to_multiset().insert(alternative),
    decreases sorted.len(),
{
    broadcast use vstd::multiset::group_multiset_axioms;

    let longer = inserted_by_score(sorted, alternative);
    if sorted.len() == 0 {
        vstd::seq_lib::to_multiset_build(sorted, alternative);
        assert(longer == sorted.push(alternative));
    } else if outscores(alternative.split_stats, sorted.last().split_stats) {
        let rest = sorted.drop_last();
        assert(is_ordered(rest)) by {
            assert forall|i: int, j: int|
                #![trigger rest[i], rest[j]]
                0 <= i < j < rest.len() implies !outscores(rest[j].split_stats, rest[i].split_stats) by {
                assert(rest[i] == sorted[i] && rest[j] == sorted[j]);
            }
        }
        lemma_inserted_is_ordered(rest, alternative);
        lemma_inserted_is_rearranged(rest, alternative);
        let inner = inserted_by_score(rest, alternative);
        assert forall|i: int, j: int|
            #![trigger longer[i], longer[j]]
            0 <= i < j < longer.len() implies !outscores(longer[j].split_stats, longer[i].split_stats) by {
            if j < inner.len() {
                assert(longer[i] == inner[i] && longer[j] == inner[j]);
            } else {
                assert(longer[j] == sorted.last());
                assert(longer[i] == inner[i]);
                if inner[i] != alternative {
                    let k = choose|k: int| 0 <= k < rest.len() && rest[k] == inner[i];
                    assert(sorted[k] == inner[i]);
                    assert(sorted[sorted.len() - 1] == sorted.last());
                }
            }
        }
        vstd::seq_lib::to_multiset_build(inner, sorted.last());
        vstd::seq_lib::to_multiset_build(rest, sorted.last());
        assert(sorted == rest.push(sorted.last()));
        assert(longer.to_multiset() =~= sorted.to_multiset().insert(alternative));
    } else {
        vstd::seq_lib::to_multiset_build(sorted, alternative);
        assert forall|i: int, j: int|
            #![trigger longer[i], longer[j]]
            0 <= i < j < longer.len() implies !outscores(longer[j].split_stats, longer[i].split_stats) by {
            if j < sorted.len() {
                assert(longer[i] == sorted[i] && longer[j] == sorted[j]);
            } else {
                assert(longer[i] == sorted[i]);
                assert(sorted[sorted.len() - 1] == sorted.last());
                if i < sorted.len() - 1 {
                    assert(!outscores(sorted[sorted.len() - 1].split_stats, sorted[i].split_stats));
                }
            }
        }
    }
}

/// Sorted alternatives are the alternatives that were sorted, each as
/// often as before, and none of them outscores one that stands before it.
pub proof fn lemma_sorted_is_ordered(list: Seq<AlternativeTree>)
    ensures
        is_ordered(sorted_by_score(list)),
        sorted_by_score(list).to_multiset() == list.to_multiset(),
    decreases list.len(),
{
    if list.len() > 0 {
        lemma_sorted_is_ordered(list.drop_last());
        lemma_inserted_is_ordered(sorted_by_score(list.drop_last()), list.last());
        vstd::seq_lib::to_multiset_build(list.drop_last(), list.last());
        assert(list == list.drop_last().push(list.last()));
    }
}

proof fn lemma_inserted_by_statistics(
    one: Seq<AlternativeTree>,
    other: Seq<AlternativeTree>,
    first: AlternativeTree,
    second: AlternativeTree,
)
    requires
        same_statistics(one, other),
        first.split_stats == second.split_stats,
    ensures
        same_statistics(inserted_by_score(one, first), inserted_by_score(other, second)),
    decreases one.len(),
{
    if one.len() > 0 {
        assert(one.last().split_stats == other.last().split_stats);
        if outscores(first.split_stats, one.last().split_stats) {
            assert(same_statistics(one.drop_last(), other.drop_last())) by {
                assert forall|i: int| 0 <= i < one.len() - 1 implies (#[trigger] one.drop_last()[i]).split_stats
                    == other.drop_last()[i].split_stats by {
                    assert(one[i].split_stats == other[i].split_stats);
                }
            }
            lemma_inserted_by_statistics(one.drop_last(), other.drop_last(), first, second);
        }
    }
}

/// How alternatives are sorted depends on their statistics alone.
pub proof fn lemma_sorted_by_statistics(one: Seq<AlternativeTree>, other: Seq<AlternativeTree>)
    requires
        same_statistics(one, other),
    ensures
        same_statistics(sorted_by_score(one), sorted_by_score(other)),
    decreases one.len(),
{
    if one.len() > 0 {
        assert(same_statistics(one.drop_last(), other.drop_last())) by {
            assert forall|i: int| 0 <= i < one.len() - 1 implies (#[trigger] one.drop_last()[i]).split_stats
                == other.drop_last()[i].split_stats by {
                assert(one[i].split_stats == other[i].split_stats);
            }
        }
        lemma_sorted_by_statistics(one.drop_last(), other.drop_last());
        assert(one.last().split_stats == other.last().split_stats);
        lemma_inserted_by_statistics(
            sorted_by_score(one.drop_last()),
            sorted_by_score(other.drop_last()),
            one.last(),
            other.last(),
        );
    }
}

/// Sorts the alternatives in place by falling score, so that the best one
/// stands first. Alternatives of the same score keep their order.
pub(crate) fn sort_alternatives(list: &mut Vec<AlternativeTree>)
    ensures
        final(list)@ == sorted_by_score(old(list)@),
{
    let mut done: usize = 0;
    assert(list@.take(0) == sorted_by_score(old(list)@.take(0)));
    while done < list.len()
        invariant
            done <= list@.len(),
            list@.len() == old(list)@.len(),
            list@.take(done as int) == sorted_by_score(old(list)@.take(done as int)),
            list@.skip(done as int) == old(list)@.skip(done as int),
        decreases list@.len() - done,
    {
        let ghost before = list@;
        let ghost sorted = list@.take(done as int);
        let alternative = list.remove(done);
        assert(alternative == old(list)@[done as int]) by {
            assert(before.skip(done as int)[0] == old(list)@.skip(done as int)[0]);
        }
        let mut position = done;
        while position > 0 && ranks_above(&alternative.split_stats, &list[position - 1].split_stats)
            invariant
                position <= done < before.len(),
                list@ == before.remove(done as int),
                sorted == before.take(done as int),
                forall|j: int|
                    position <= j < done ==> outscores(alternative.split_stats, (#[trigger] sorted[j]).split_stats),
            decreases position,
        {
            assert(list@[position - 1] == sorted[position - 1]);
            position -= 1;
        }
        proof {
            if position > 0 {
                assert(list@[position - 1] == sorted[position - 1]);
            }
            lemma_inserted_at(sorted, alternative, position as int);
        }
        list.insert(position, alternative);
        proof {
            assert(list@.take(done + 1) == sorted.insert(position as int, alternative));
            assert(old(list)@.take(done + 1).drop_last() == old(list)@.take(done as int));
            assert(old(list)@.take(done + 1).last() == alternative);
            assert(list@.skip(done + 1) == old(list)@.skip(done + 1)) by {
                let kept = list@.skip(done + 1);
                assert forall|k: int| 0 <= k < kept.len() implies #[trigger] kept[k] == old(list)@.skip(done + 1)[k] by {
                    assert(list@[done + 1 + k] == before[done + 1 + k]);
                    assert(before.skip(done as int)[k + 1] == old(list)@.skip(done as int)[k + 1]);
                }
            }
        }
        done += 1;
    }
    assert(list@.take(done as int) == list@);
    assert(old(list)@.take(done as int) == old(list)@);
}

} // verus!
