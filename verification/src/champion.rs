//! The champion among the candidates, the rivals that can overturn it,
//! and what follows for the position.

use vstd::prelude::*;
use crate::robustness::{
    all_counts_exceed, first_overturn, h2, heuristic, is_robust, is_robust2, lemma_bulk_overturn_is_reached,
    lemma_rounds_within_budget,
    lemma_lost_rank_is_witnessed, lemma_robust_under_smaller_budget, lemma_search_is_exact_for_one_removal,
    overturned_after, removal, robustness, score_diff, withstands,
};
use crate::split_stats::SplitStats;

verus! {

/// The candidate at `best` is the champion: its score is positive, no
/// score is higher, and no later score is as high.
pub open spec fn is_champion(all_stats: Seq<SplitStats>, best: int) -> bool {
    &&& 0 <= best < all_stats.len()
    &&& all_stats[best].spec_has_positive_score()
    &&& forall|i: int|
        0 <= i < all_stats.len() && (#[trigger] all_stats[i]).spec_has_positive_score() ==> all_stats[i].score.unwrap()
            <= all_stats[best].score.unwrap()
    &&& forall|i: int|
        best < i < all_stats.len() && (#[trigger] all_stats[i]).spec_has_positive_score() ==> all_stats[i].score.unwrap()
            < all_stats[best].score.unwrap()
}

/// A rival is a candidate other than the champion with a positive score.
/// It can overturn the champion where the champion does not withstand the
/// budget against it.
pub open spec fn can_overturn(all_stats: Seq<SplitStats>, best: int, rival: int, budget: nat) -> bool {
    &&& rival != best
    &&& all_stats[rival].spec_has_positive_score()
    &&& !withstands(all_stats[best], all_stats[rival], budget)
}

/// The rivals below `upto` that can overturn the champion, each with the
/// part of the budget that it took to find that out: the rounds of the
/// search.
pub open spec fn overturning_rivals(all_stats: Seq<SplitStats>, best: int, budget: nat, upto: int) -> Seq<(usize, usize)>
    decreases upto,
{
    if upto <= 0 {
        Seq::empty()
    } else if can_overturn(all_stats, best, upto - 1, budget) {
        overturning_rivals(all_stats, best, budget, upto - 1).push(
            ((upto - 1) as usize, robustness(all_stats[best], all_stats[upto - 1], budget).1 as usize),
        )
    } else {
        overturning_rivals(all_stats, best, budget, upto - 1)
    }
}

/// The list of overturning rivals holds every rival below `upto` that can
/// overturn the champion, and nothing else: each entry is such a rival,
/// with the rounds that the search has used against it.
pub proof fn lemma_rivals_are_listed(all_stats: Seq<SplitStats>, best: int, budget: nat, upto: int)
    requires
        0 <= upto <= all_stats.len() <= usize::MAX,
        budget <= usize::MAX,
    ensures
        forall|k: int|
            0 <= k < overturning_rivals(all_stats, best, budget, upto).len() ==> {
                &&& 0 <= (#[trigger] overturning_rivals(all_stats, best, budget, upto)[k]).0 < upto
                &&& can_overturn(
                    all_stats,
                    best,
                    overturning_rivals(all_stats, best, budget, upto)[k].0 as int,
                    budget,
                )
                &&& overturning_rivals(all_stats, best, budget, upto)[k].1 == robustness(
                    all_stats[best],
                    all_stats[overturning_rivals(all_stats, best, budget, upto)[k].0 as int],
                    budget,
                ).1
                &&& overturning_rivals(all_stats, best, budget, upto)[k].1 <= budget
            },
        forall|i: int|
            0 <= i < upto && can_overturn(all_stats, best, i, budget) ==> exists|k: int|
                0 <= k < overturning_rivals(all_stats, best, budget, upto).len() && (#[trigger] overturning_rivals(
                    all_stats,
                    best,
                    budget,
                    upto,
                )[k]).0 == i,
    decreases upto,
{
    if upto > 0 {
        lemma_rivals_are_listed(all_stats, best, budget, upto - 1);
        let before = overturning_rivals(all_stats, best, budget, upto - 1);
        let now = overturning_rivals(all_stats, best, budget, upto);
        if can_overturn(all_stats, best, upto - 1, budget) {
            lemma_rounds_within_budget(all_stats[best], all_stats[upto - 1], budget);
            assert(now[before.len() as int].0 == upto - 1);
        }
        assert forall|i: int| 0 <= i < upto && can_overturn(all_stats, best, i, budget) implies exists|k: int|
            0 <= k < now.len() && (#[trigger] now[k]).0 == i by {
            if i < upto - 1 {
                let k = choose|k: int| 0 <= k < before.len() && (#[trigger] before[k]).0 == i;
                assert(now[k].0 == i);
            } else {
                assert(now[before.len() as int].0 == i);
            }
        }
    }
}

/// The statistics that have a score are scored within range.
pub open spec fn scores_in_range(all_stats: Seq<SplitStats>) -> bool {
    forall|i: int| 0 <= i < all_stats.len() ==> ((#[trigger] all_stats[i]).score.is_some() ==> all_stats[i].is_scored())
}

/// Some rival can overturn the champion.
pub open spec fn is_contested(all_stats: Seq<SplitStats>, best: int, budget: nat) -> bool {
    exists|rival: int| 0 <= rival < all_stats.len() && #[trigger] can_overturn(all_stats, best, rival, budget)
}

/// No candidate has a positive score.
pub open spec fn none_positive(all_stats: Seq<SplitStats>) -> bool {
    forall|i: int| 0 <= i < all_stats.len() ==> !(#[trigger] all_stats[i]).spec_has_positive_score()
}

/// What happens at a position once the candidates are scored.
#[derive(Eq, PartialEq, Clone, Copy, Debug)]
pub enum Step {
    /// The position becomes a leaf.
    Leaf,
    /// New candidates are drawn.
    Retry,
    /// The tree tests the champion.
    Split { best: usize },
    /// The position becomes open, with the champion and the rivals that
    /// can overturn it as alternatives.
    Open { best: usize },
}

/// `step` is what happens for these candidates.
///
/// Where there is a champion that no rival can overturn, the tree tests
/// it. Else new candidates are drawn while tries are left. After the last
/// try the position becomes a leaf where no candidate has a positive
/// score, and open where the champion is contested.
pub open spec fn is_next_step(all_stats: Seq<SplitStats>, tries_left: bool, budget: nat, step: Step) -> bool {
    match step {
        Step::Leaf => !tries_left && none_positive(all_stats),
        Step::Retry => tries_left && (none_positive(all_stats) || exists|best: int| #[trigger]
            is_champion(all_stats, best) && is_contested(all_stats, best, budget)),
        Step::Split { best } => is_champion(all_stats, best as int) && !is_contested(all_stats, best as int, budget),
        Step::Open { best } => !tries_left && is_champion(all_stats, best as int) && is_contested(
            all_stats,
            best as int,
            budget,
        ),
    }
}

/// There is at most one champion.
pub proof fn lemma_one_champion(all_stats: Seq<SplitStats>, one: int, other: int)
    requires
        is_champion(all_stats, one),
        is_champion(all_stats, other),
    ensures
        one == other,
{
    if one < other {
        assert(all_stats[other].score.unwrap() < all_stats[one].score.unwrap());
        assert(all_stats[one].score.unwrap() <= all_stats[other].score.unwrap());
    } else if other < one {
        assert(all_stats[one].score.unwrap() < all_stats[other].score.unwrap());
        assert(all_stats[other].score.unwrap() <= all_stats[one].score.unwrap());
    }
}

/// What happens at a position is settled by the candidates, by whether
/// tries are left, and by the budget.
pub proof fn lemma_one_next_step(all_stats: Seq<SplitStats>, tries_left: bool, budget: nat, one: Step, other: Step)
    requires
        is_next_step(all_stats, tries_left, budget, one),
        is_next_step(all_stats, tries_left, budget, other),
    ensures
        one == other,
{
    match (one, other) {
        (Step::Split { best: first }, Step::Split { best: second }) => {
            lemma_one_champion(all_stats, first as int, second as int);
        },
        (Step::Open { best: first }, Step::Open { best: second }) => {
            lemma_one_champion(all_stats, first as int, second as int);
        },
        (Step::Split { best: first }, Step::Open { best: second }) => {
            lemma_one_champion(all_stats, first as int, second as int);
        },
        (Step::Open { best: first }, Step::Split { best: second }) => {
            lemma_one_champion(all_stats, first as int, second as int);
        },
        (Step::Retry, Step::Split { best }) => {
            lemma_contested_champion(all_stats, budget, best as int);
        },
        (Step::Split { best }, Step::Retry) => {
            lemma_contested_champion(all_stats, budget, best as int);
        },
        (Step::Leaf, Step::Split { best }) => {
            assert(all_stats[best as int].spec_has_positive_score());
        },
        (Step::Split { best }, Step::Leaf) => {
            assert(all_stats[best as int].spec_has_positive_score());
        },
        (Step::Leaf, Step::Open { best }) => {
            assert(all_stats[best as int].spec_has_positive_score());
        },
        (Step::Open { best }, Step::Leaf) => {
            assert(all_stats[best as int].spec_has_positive_score());
        },
        _ => {},
    }
}

/// Where some champion is contested, or no candidate has a positive
/// score, the champion at `best` is contested.
proof fn lemma_contested_champion(all_stats: Seq<SplitStats>, budget: nat, best: int)
    requires
        is_champion(all_stats, best),
        none_positive(all_stats) || exists|other: int| #[trigger]
            is_champion(all_stats, other) && is_contested(all_stats, other, budget),
    ensures
        is_contested(all_stats, best, budget),
{
    assert(all_stats[best].spec_has_positive_score());
    let other = choose|other: int| #[trigger] is_champion(all_stats, other) && is_contested(all_stats, other, budget);
    lemma_one_champion(all_stats, best, other);
}

/// A contested champion has a rival on the list of those that can
/// overturn it.
pub proof fn lemma_contested_has_rivals(all_stats: Seq<SplitStats>, best: int, budget: nat)
    requires
        all_stats.len() <= usize::MAX,
        budget <= usize::MAX,
        is_contested(all_stats, best, budget),
    ensures
        overturning_rivals(all_stats, best, budget, all_stats.len() as int).len() >= 1,
{
    lemma_rivals_are_listed(all_stats, best, budget, all_stats.len() as int);
}

/// A champion is never given up without cause: where every count of both
/// splits exceeds the budget and the champion does not withstand it, some
/// removals within the budget lead to a pair on which the rival outscores
/// the champion.
pub proof fn lemma_uncertified_is_overturned(champion: SplitStats, rival: SplitStats, budget: nat) -> (steps: nat)
    requires
        1 <= budget <= u32::MAX,
        all_counts_exceed(champion, rival, budget as u32),
        !withstands(champion, rival, budget),
    ensures
        steps <= budget,
        overturned_after((champion, rival), steps),
{
    if first_overturn(champion, rival, budget as u32, 0).is_some() {
        lemma_bulk_overturn_is_reached(champion, rival, budget as u32);
        budget
    } else {
        let _ = lemma_lost_rank_is_witnessed(champion, rival, budget);
        robustness(champion, rival, budget).1
    }
}

/// A champion that withstands a budget survives any one removal: it is
/// ahead of the rival, and still ahead once any one sample is gone.
pub proof fn lemma_certified_survives_one_removal(champion: SplitStats, rival: SplitStats, budget: nat)
    requires
        1 <= budget,
        rival.score.is_some(),
        withstands(champion, rival, budget),
    ensures
        score_diff((champion, rival)) >= 0,
        forall|kind: int|
            0 <= kind < 8 && (#[trigger] removal((champion, rival), kind)).is_some() ==> score_diff(
                removal((champion, rival), kind).unwrap(),
            ) >= 0,
{
    lemma_robust_under_smaller_budget(champion, rival, budget, 1);
    lemma_search_is_exact_for_one_removal(champion, rival);
}

/// The champion among the candidates: the one with the highest positive
/// score, the last of them where several share it. There is none where no
/// score is positive.
pub fn best_candidate(all_stats: &Vec<SplitStats>) -> (best: Option<usize>)
    ensures
        match best {
            Some(index) => is_champion(all_stats@, index as int),
            None => forall|i: int| 0 <= i < all_stats@.len() ==> !(#[trigger] all_stats@[i]).spec_has_positive_score(),
        },
{
    let mut best: Option<usize> = None;
    let mut index: usize = 0;
    while index < all_stats.len()
        invariant
            index <= all_stats@.len(),
            match best {
                Some(found) => found < index && is_champion(all_stats@.take(index as int), found as int),
                None => forall|i: int| 0 <= i < index ==> !(#[trigger] all_stats@[i]).spec_has_positive_score(),
            },
        decreases all_stats@.len() - index,
    {
        let stats = &all_stats[index];
        if stats.has_positive_score() {
            let takes_over = match best {
                Some(found) => stats.score.unwrap() >= all_stats[found].score.unwrap(),
                None => true,
            };
            if takes_over {
                best = Some(index);
            }
        }
        index += 1;
        proof {
            let before = all_stats@.take(index - 1);
            let now = all_stats@.take(index as int);
            assert forall|i: int| 0 <= i < index - 1 implies now[i] == before[i] by {}
        }
    }
    assert(all_stats@.take(index as int) == all_stats@);
    best
}

/// Whether the champion withstands the budget against the rival. The two
/// quick tests come first, and save the search where one of them fails.
pub fn holds_against(champion: &SplitStats, rival: &SplitStats, threshold: usize) -> (held: bool)
    requires
        champion.is_scored(),
        rival.is_scored(),
    ensures
        held == withstands(*champion, *rival, threshold as nat),
{
    if threshold > u32::MAX as usize {
        return false;
    }
    if !h2(champion, rival, threshold as u32) {
        return false;
    }
    let (robust_via_heuristic, _) = heuristic(champion, rival, threshold as u32);

    if !robust_via_heuristic {
        return false;
    }
    let (is_robust_split, _, _) = is_robust2(champion, rival, threshold, false);
    is_robust_split
}

/// Whether some rival can overturn the champion.
pub fn has_overturning_rival(all_stats: &Vec<SplitStats>, best: usize, target_robustness: usize) -> (found: bool)
    requires
        is_champion(all_stats@, best as int),
        scores_in_range(all_stats@),
    ensures
        found == exists|rival: int|
            0 <= rival < all_stats@.len() && #[trigger] can_overturn(
                all_stats@,
                best as int,
                rival,
                target_robustness as nat,
            ),
{
    let best_split_stats = &all_stats[best];
    let mut index: usize = 0;
    while index < all_stats.len()
        invariant
            index <= all_stats@.len(),
            best < all_stats@.len(),
            *best_split_stats == all_stats@[best as int],
            best_split_stats.is_scored(),
            scores_in_range(all_stats@),
            forall|rival: int|
                0 <= rival < index ==> !#[trigger] can_overturn(all_stats@, best as int, rival, target_robustness as nat),
        decreases all_stats@.len() - index,
    {
        let stats = &all_stats[index];
        // Only splits with a positive score are rivals.
        if index != best && stats.has_positive_score() {
            let is_robust_split = holds_against(best_split_stats, stats, target_robustness);

            if !is_robust_split {
                assert(can_overturn(all_stats@, best as int, index as int, target_robustness as nat));
                return true;
            }
        }
        index += 1;
    }
    false
}

/// The rivals that can overturn the champion, each with the part of the
/// budget that it took to find that out.
pub fn non_robust_rivals(all_stats: &Vec<SplitStats>, best: usize, target_robustness: usize) -> (rivals: Vec<
    (usize, usize),
>)
    requires
        is_champion(all_stats@, best as int),
        scores_in_range(all_stats@),
    ensures
        rivals@ == overturning_rivals(all_stats@, best as int, target_robustness as nat, all_stats@.len() as int),
        forall|i: int|
            0 <= i < rivals@.len() ==> (#[trigger] rivals@[i]).0 < all_stats@.len() && rivals@[i].1
                <= target_robustness && all_stats@[rivals@[i].0 as int].spec_has_positive_score(),
{
    let best_split_stats = &all_stats[best];
    let mut rivals: Vec<(usize, usize)> = Vec::new();
    let mut index: usize = 0;
    while index < all_stats.len()
        invariant
            index <= all_stats@.len(),
            best < all_stats@.len(),
            *best_split_stats == all_stats@[best as int],
            best_split_stats.is_scored(),
            scores_in_range(all_stats@),
            rivals@ == overturning_rivals(all_stats@, best as int, target_robustness as nat, index as int),
            forall|i: int|
                0 <= i < rivals@.len() ==> (#[trigger] rivals@[i]).0 < all_stats@.len() && rivals@[i].1
                    <= target_robustness && all_stats@[rivals@[i].0 as int].spec_has_positive_score(),
        decreases all_stats@.len() - index,
    {
        let stats = &all_stats[index];
        if index != best && stats.has_positive_score() {
            let (is_robust_split, num_removals_required_to_break_split) = is_robust(
                best_split_stats,
                stats,
                target_robustness,
            );

            if !is_robust_split {
                rivals.push((index, num_removals_required_to_break_split));
            }
        }
        index += 1;
    }
    rivals
}

/// Decides what happens at a position once the candidates are scored.
pub fn next_step(
    all_stats: &Vec<SplitStats>,
    num_tries: usize,
    max_tries_per_split: usize,
    target_robustness: usize,
) -> (step: Step)
    requires
        scores_in_range(all_stats@),
    ensures
        is_next_step(all_stats@, num_tries < max_tries_per_split, target_robustness as nat, step),
{
    match best_candidate(all_stats) {
        None => {
            if num_tries < max_tries_per_split {
                Step::Retry
            } else {
                Step::Leaf
            }
        },
        Some(index_of_best_stats) => {
            let at_least_one_non_robust = has_overturning_rival(all_stats, index_of_best_stats, target_robustness);

            if at_least_one_non_robust && num_tries < max_tries_per_split {
                Step::Retry
            } else if at_least_one_non_robust {
                Step::Open { best: index_of_best_stats }
            } else {
                Step::Split { best: index_of_best_stats }
            }
        },
    }
}

} // verus!
