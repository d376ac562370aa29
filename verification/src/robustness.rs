//! The search that decides whether a champion split keeps its rank against a
//! runner-up while samples are removed.
//!
//! Both splits partition the same samples, so taking one sample away lowers
//! one bucket of each. A removal is described by the label of the sample and
//! by the side on which it lies under either split, which gives eight kinds.

use vstd::prelude::*;
use crate::split_stats::{SplitStats, SCORE_SCALE};

verus! {

/// A champion's statistics with those of its runner-up.
pub type StatsPair = (SplitStats, SplitStats);

/// Removal kinds are numbered 0 to 7: positives first, and within a label
/// the champion's left side first, then the runner-up's left side.
pub open spec fn removes_plus(kind: int) -> bool {
    kind < 4
}

pub open spec fn champion_left(kind: int) -> bool {
    (kind / 2) % 2 == 0
}

pub open spec fn runnerup_left(kind: int) -> bool {
    kind % 2 == 0
}

/// Champion's score less the runner-up's.
pub open spec fn score_diff(pair: StatsPair) -> int {
    pair.0.score.unwrap() - pair.1.score.unwrap()
}

pub open spec fn pair_scored(pair: StatsPair) -> bool {
    pair.0.is_scored() && pair.1.is_scored()
}

pub open spec fn all_scored(pairs: Seq<StatsPair>) -> bool {
    forall|i: int| 0 <= i < pairs.len() ==> pair_scored(#[trigger] pairs[i])
}

/// The pair after one removal of the given kind, both rescored. There is
/// none where a bucket that the removal takes from is empty, nor where the
/// removal leaves a side of either split empty.
pub open spec fn removal(pair: StatsPair, kind: int) -> Option<StatsPair> {
    let plus = removes_plus(kind);
    if pair.0.bucket(plus, champion_left(kind)) == 0 || pair.1.bucket(plus, runnerup_left(kind)) == 0 {
        None
    } else {
        let champion = pair.0.without(plus, champion_left(kind), 1).rescored();
        let runnerup = pair.1.without(plus, runnerup_left(kind), 1).rescored();
        if champion.score.is_none() || runnerup.score.is_none() {
            None
        } else {
            Some((champion, runnerup))
        }
    }
}

/// A runner-up that is unscored, or whose two sides each hold one label
/// only, is not weakened any further.
pub open spec fn is_final(runnerup: SplitStats) -> bool {
    ||| runnerup.num_minus_left == 0 && runnerup.num_minus_right == 0
    ||| runnerup.num_plus_left == 0 && runnerup.num_minus_right == 0
    ||| runnerup.num_minus_left == 0 && runnerup.num_plus_right == 0
    ||| runnerup.num_plus_left == 0 && runnerup.num_plus_right == 0
    ||| runnerup.score.is_none()
}

/// The lowest score difference among the pair itself and its removals of
/// the kinds below `upto`.
pub open spec fn weakest_diff(pair: StatsPair, upto: int) -> int
    decreases upto,
{
    if upto <= 0 {
        score_diff(pair)
    } else {
        let before = weakest_diff(pair, upto - 1);
        match removal(pair, upto - 1) {
            Some(next) => if score_diff(next) < before {
                score_diff(next)
            } else {
                before
            },
            None => before,
        }
    }
}

/// The removals of the kinds below `upto` whose score difference is
/// `target`, in the order of their kinds.
pub open spec fn removals_at(pair: StatsPair, target: int, upto: int) -> Seq<StatsPair>
    decreases upto,
{
    if upto <= 0 {
        Seq::empty()
    } else {
        let before = removals_at(pair, target, upto - 1);
        match removal(pair, upto - 1) {
            Some(next) => if score_diff(next) == target {
                before.push(next)
            } else {
                before
            },
            None => before,
        }
    }
}

/// What one removal can do to a pair at worst for the champion: the lowest
/// score difference within reach, and the removals that reach it. Removals
/// that raise the difference are not kept.
pub open spec fn weakened(pair: StatsPair) -> (int, Seq<StatsPair>) {
    if is_final(pair.1) {
        (score_diff(pair), Seq::empty())
    } else {
        let lowest = weakest_diff(pair, 8);
        (lowest, removals_at(pair, lowest, 8))
    }
}

/// One round over the first `upto` pairs of the frontier: the pairs kept
/// for the next round and the lowest difference seen. A pair above the
/// lowest difference seen so far is passed over.
pub open spec fn expanded(frontier: Seq<StatsPair>, lowest: int, upto: int) -> (Seq<StatsPair>, int)
    decreases upto,
{
    if upto <= 0 {
        (Seq::empty(), lowest)
    } else {
        let (kept, seen) = expanded(frontier, lowest, upto - 1);
        let pair = frontier[upto - 1];
        if score_diff(pair) <= seen {
            let (found, next) = weakened(pair);
            (kept + next, if found <= seen { found } else { seen })
        } else {
            (kept, seen)
        }
    }
}

/// The search from a frontier reached after `rounds` rounds, with `budget`
/// rounds in all: whether the champion held, the rounds used, and the
/// lowest difference seen.
///
/// The champion has lost as soon as the difference is negative. It has held
/// when the rounds are used up, or when a round keeps no pair.
pub open spec fn search(frontier: Seq<StatsPair>, lowest: int, rounds: nat, budget: nat) -> (bool, nat, int)
    decreases budget - rounds,
{
    if lowest < 0 {
        (false, rounds, lowest)
    } else if rounds >= budget {
        (true, rounds, lowest)
    } else {
        let (kept, seen) = expanded(frontier, lowest, frontier.len() as int);
        if kept.len() == 0 {
            (true, rounds, seen)
        } else {
            search(kept, seen, rounds + 1, budget)
        }
    }
}

/// The verdict of the search for a champion and a runner-up as they stand.
pub open spec fn robustness(champion: SplitStats, runnerup: SplitStats, budget: nat) -> (bool, nat, int) {
    search(seq![(champion, runnerup)], score_diff((champion, runnerup)), 0, budget)
}

/// The pair reached by the removals of the given kinds, made in order and
/// rescored each time. There is none where one of them cannot be made.
pub open spec fn after_removals(pair: StatsPair, kinds: Seq<int>) -> Option<StatsPair>
    decreases kinds.len(),
{
    if kinds.len() == 0 {
        Some(pair)
    } else {
        match after_removals(pair, kinds.drop_last()) {
            Some(reached) => removal(reached, kinds.last()),
            None => None,
        }
    }
}

/// `kinds` names `steps` removals that lead from `start` to `target`.
pub open spec fn leads_to(start: StatsPair, kinds: Seq<int>, target: StatsPair, steps: nat) -> bool {
    &&& kinds.len() == steps
    &&& forall|i: int| 0 <= i < kinds.len() ==> 0 <= #[trigger] kinds[i] < 8
    &&& after_removals(start, kinds) == Some(target)
}

/// `target` can be reached from `start` by `steps` removals.
pub open spec fn reachable(start: StatsPair, target: StatsPair, steps: nat) -> bool {
    exists|kinds: Seq<int>| leads_to(start, kinds, target, steps)
}

proof fn lemma_one_more_removal(start: StatsPair, via: StatsPair, steps: nat, kind: int, target: StatsPair)
    requires
        reachable(start, via, steps),
        0 <= kind < 8,
        removal(via, kind) == Some(target),
    ensures
        reachable(start, target, steps + 1),
{
    let kinds = choose|kinds: Seq<int>| leads_to(start, kinds, via, steps);
    let longer = kinds.push(kind);
    assert(longer.drop_last() == kinds);
    assert(leads_to(start, longer, target, steps + 1));
}

proof fn lemma_removals_at(pair: StatsPair, target: int, upto: int)
    requires
        0 <= upto <= 8,
    ensures
        forall|i: int|
            0 <= i < removals_at(pair, target, upto).len() ==> {
                let next = #[trigger] removals_at(pair, target, upto)[i];
                &&& score_diff(next) == target
                &&& exists|kind: int| 0 <= kind < 8 && removal(pair, kind) == Some(next)
            },
    decreases upto,
{
    if upto > 0 {
        lemma_removals_at(pair, target, upto - 1);
        let before = removals_at(pair, target, upto - 1);
        assert forall|i: int| 0 <= i < removals_at(pair, target, upto).len() implies ({
            let next = #[trigger] removals_at(pair, target, upto)[i];
            &&& score_diff(next) == target
            &&& exists|kind: int| 0 <= kind < 8 && removal(pair, kind) == Some(next)
        }) by {
            let next = removals_at(pair, target, upto)[i];
            if i < before.len() {
                assert(next == before[i]);
            } else {
                assert(removal(pair, upto - 1) == Some(next));
            }
        }
    }
}

proof fn lemma_weakest_is_reached(pair: StatsPair, upto: int)
    requires
        0 <= upto,
    ensures
        weakest_diff(pair, upto) <= score_diff(pair),
        weakest_diff(pair, upto) < score_diff(pair) ==> removals_at(
            pair,
            weakest_diff(pair, upto),
            upto,
        ).len() > 0,
    decreases upto,
{
    if upto > 0 {
        lemma_weakest_is_reached(pair, upto - 1);
    }
}

/// What a round keeps: every kept pair lies one removal past a pair of the
/// frontier and not below the lowest difference seen, and a negative lowest
/// difference is that of a kept pair.
proof fn lemma_round(start: StatsPair, frontier: Seq<StatsPair>, lowest: int, upto: int, rounds: nat)
    requires
        0 <= upto <= frontier.len(),
        forall|i: int| 0 <= i < frontier.len() ==> reachable(start, #[trigger] frontier[i], rounds),
        forall|i: int| 0 <= i < frontier.len() ==> score_diff(#[trigger] frontier[i]) >= 0,
        lowest >= 0,
    ensures
        ({
            let (kept, seen) = expanded(frontier, lowest, upto);
            &&& seen <= lowest
            &&& forall|i: int| 0 <= i < kept.len() ==> reachable(start, #[trigger] kept[i], rounds + 1)
            &&& forall|i: int| 0 <= i < kept.len() ==> score_diff(#[trigger] kept[i]) >= seen
            &&& seen < 0 ==> exists|i: int| 0 <= i < kept.len() && score_diff(#[trigger] kept[i]) == seen
        }),
    decreases upto,
{
    if upto > 0 {
        lemma_round(start, frontier, lowest, upto - 1, rounds);
        let (before, seen_before) = expanded(frontier, lowest, upto - 1);
        let (kept, seen) = expanded(frontier, lowest, upto);
        let pair = frontier[upto - 1];
        if score_diff(pair) <= seen_before {
            let (found, next) = weakened(pair);
            assert(kept == before + next);
            if !is_final(pair.1) {
                lemma_weakest_is_reached(pair, 8);
                lemma_removals_at(pair, found, 8);
            }
            assert(found <= seen_before);
            assert(seen == found);
            assert forall|i: int| 0 <= i < kept.len() implies reachable(start, #[trigger] kept[i], rounds + 1)
                && score_diff(kept[i]) >= seen by {
                if i < before.len() {
                    assert(kept[i] == before[i]);
                } else {
                    let child = next[i - before.len()];
                    assert(kept[i] == child);
                    let kind = choose|kind: int| 0 <= kind < 8 && removal(pair, kind) == Some(child);
                    lemma_one_more_removal(start, pair, rounds, kind, child);
                }
            }
            if seen < 0 {
                assert(next.len() > 0);
                assert(kept[before.len() as int] == next[0]);
                assert(score_diff(kept[before.len() as int]) == seen);
            }
        } else {
            assert(kept == before);
        }
    }
}

proof fn lemma_search_witness(
    start: StatsPair,
    frontier: Seq<StatsPair>,
    lowest: int,
    rounds: nat,
    budget: nat,
) -> (kinds: Seq<int>)
    requires
        forall|i: int| 0 <= i < frontier.len() ==> reachable(start, #[trigger] frontier[i], rounds),
        forall|i: int| 0 <= i < frontier.len() ==> score_diff(#[trigger] frontier[i]) >= lowest,
        lowest < 0 ==> exists|i: int| 0 <= i < frontier.len() && score_diff(#[trigger] frontier[i]) == lowest,
        !search(frontier, lowest, rounds, budget).0,
    ensures
        search(frontier, lowest, rounds, budget).2 < 0,
        exists|target: StatsPair| #[trigger]
            leads_to(start, kinds, target, search(frontier, lowest, rounds, budget).1) && score_diff(target)
                == search(frontier, lowest, rounds, budget).2,
    decreases budget - rounds,
{
    if lowest < 0 {
        let i = choose|i: int| 0 <= i < frontier.len() && score_diff(#[trigger] frontier[i]) == lowest;
        assert(reachable(start, frontier[i], rounds));
        let kinds = choose|kinds: Seq<int>| leads_to(start, kinds, frontier[i], rounds);
        assert(search(frontier, lowest, rounds, budget) == (false, rounds, lowest));
        assert(leads_to(start, kinds, frontier[i], search(frontier, lowest, rounds, budget).1));
        kinds
    } else {
        lemma_round(start, frontier, lowest, frontier.len() as int, rounds);
        let (kept, seen) = expanded(frontier, lowest, frontier.len() as int);
        assert(rounds < budget && kept.len() > 0);
        let kinds = lemma_search_witness(start, kept, seen, rounds + 1, budget);
        assert(search(frontier, lowest, rounds, budget) == search(kept, seen, (rounds + 1) as nat, budget));
        let target = choose|target: StatsPair| #[trigger]
            leads_to(start, kinds, target, search(kept, seen, (rounds + 1) as nat, budget).1) && score_diff(target)
                == search(kept, seen, (rounds + 1) as nat, budget).2;
        assert(leads_to(start, kinds, target, search(frontier, lowest, rounds, budget).1));
        kinds
    }
}

/// Where the search finds no overturn within some budget, it finds none
/// within a smaller one.
pub proof fn lemma_robust_under_smaller_budget(
    champion: SplitStats,
    runnerup: SplitStats,
    budget: nat,
    smaller: nat,
)
    requires
        smaller <= budget,
        robustness(champion, runnerup, budget).0,
    ensures
        robustness(champion, runnerup, smaller).0,
{
    lemma_search_under_smaller_budget(
        seq![(champion, runnerup)],
        score_diff((champion, runnerup)),
        0,
        budget,
        smaller,
    );
}

proof fn lemma_search_under_smaller_budget(
    frontier: Seq<StatsPair>,
    lowest: int,
    rounds: nat,
    budget: nat,
    smaller: nat,
)
    requires
        smaller <= budget,
        search(frontier, lowest, rounds, budget).0,
    ensures
        search(frontier, lowest, rounds, smaller).0,
    decreases budget - rounds,
{
    if lowest >= 0 && rounds < smaller {
        let (kept, seen) = expanded(frontier, lowest, frontier.len() as int);
        if kept.len() > 0 {
            lemma_search_under_smaller_budget(kept, seen, rounds + 1, budget, smaller);
        }
    }
}

/// The search never uses more rounds than its budget.
pub proof fn lemma_rounds_within_budget(champion: SplitStats, runnerup: SplitStats, budget: nat)
    ensures
        robustness(champion, runnerup, budget).1 <= budget,
{
    lemma_search_rounds(seq![(champion, runnerup)], score_diff((champion, runnerup)), 0, budget);
}

proof fn lemma_search_rounds(frontier: Seq<StatsPair>, lowest: int, rounds: nat, budget: nat)
    requires
        rounds <= budget,
    ensures
        rounds <= search(frontier, lowest, rounds, budget).1 <= budget,
    decreases budget - rounds,
{
    if lowest >= 0 && rounds < budget {
        let (kept, seen) = expanded(frontier, lowest, frontier.len() as int);
        if kept.len() > 0 {
            lemma_search_rounds(kept, seen, rounds + 1, budget);
        }
    }
}

/// A verdict against the champion is never a false alarm: where the search
/// finds it not robust, as many removals as the rounds it used, each of
/// them possible on the pair before it, lead to a pair on which the
/// runner-up outscores the champion by the difference that the search
/// reports. Trying every sequence of removals finds the same.
pub proof fn lemma_lost_rank_is_witnessed(champion: SplitStats, runnerup: SplitStats, budget: nat) -> (kinds: Seq<int>)
    requires
        !robustness(champion, runnerup, budget).0,
    ensures
        robustness(champion, runnerup, budget).1 <= budget,
        robustness(champion, runnerup, budget).2 < 0,
        exists|target: StatsPair| #[trigger]
            leads_to((champion, runnerup), kinds, target, robustness(champion, runnerup, budget).1)
                && score_diff(target) == robustness(champion, runnerup, budget).2,
        overturned_after((champion, runnerup), robustness(champion, runnerup, budget).1),
{
    let start = (champion, runnerup);
    let frontier = seq![start];
    assert(leads_to(start, Seq::<int>::empty(), start, 0));
    assert(frontier[0] == start);
    lemma_rounds_within_budget(champion, runnerup, budget);
    let kinds = lemma_search_witness(start, frontier, score_diff(start), 0, budget);
    let used = robustness(champion, runnerup, budget).1;
    let target = choose|target: StatsPair| #[trigger]
        leads_to(start, kinds, target, used) && score_diff(target) == robustness(champion, runnerup, budget).2;
    assert(leads_to(start, kinds, target, used) && score_diff(target) < 0);
    kinds
}

proof fn lemma_weakest_is_lowest(pair: StatsPair, upto: int, kind: int)
    requires
        0 <= kind < upto,
        removal(pair, kind).is_some(),
    ensures
        weakest_diff(pair, upto) <= score_diff(removal(pair, kind).unwrap()),
    decreases upto,
{
    if kind < upto - 1 {
        lemma_weakest_is_lowest(pair, upto - 1, kind);
    }
}

proof fn lemma_weakest_is_some_diff(pair: StatsPair, upto: int)
    requires
        0 <= upto,
        weakest_diff(pair, upto) < score_diff(pair),
    ensures
        exists|kind: int|
            0 <= kind < upto && (#[trigger] removal(pair, kind)).is_some() && score_diff(removal(pair, kind).unwrap())
                == weakest_diff(pair, upto),
    decreases upto,
{
    if upto > 0 {
        let before = weakest_diff(pair, upto - 1);
        match removal(pair, upto - 1) {
            Some(next) => {
                if score_diff(next) < before {
                    assert(removal(pair, upto - 1).is_some());
                } else {
                    lemma_weakest_is_some_diff(pair, upto - 1);
                }
            },
            None => {
                lemma_weakest_is_some_diff(pair, upto - 1);
            },
        }
    }
}

/// With a budget of one removal the search is exact: it finds the champion
/// robust against a runner-up that can still be weakened where the
/// champion is ahead and stays ahead after each of the eight removals, and
/// nowhere else.
pub proof fn lemma_search_is_exact_for_one_removal(champion: SplitStats, runnerup: SplitStats)
    requires
        !is_final(runnerup),
    ensures
        robustness(champion, runnerup, 1).0 <==> score_diff((champion, runnerup)) >= 0 && forall|kind: int|
            0 <= kind < 8 && (#[trigger] removal((champion, runnerup), kind)).is_some() ==> score_diff(
                removal((champion, runnerup), kind).unwrap(),
            ) >= 0,
{
    let pair = (champion, runnerup);
    let frontier = seq![pair];
    let ahead = score_diff(pair);
    reveal_with_fuel(expanded, 2);
    reveal_with_fuel(search, 2);
    if ahead >= 0 {
        let (kept, seen) = expanded(frontier, ahead, 1);
        assert(frontier[0] == pair);
        assert(expanded(frontier, ahead, 0) == (Seq::<StatsPair>::empty(), ahead));
        let lowest = weakest_diff(pair, 8);
        lemma_weakest_is_reached(pair, 8);
        assert(seen == lowest);
        assert(kept =~= removals_at(pair, lowest, 8));
        if forall|kind: int|
            0 <= kind < 8 && (#[trigger] removal(pair, kind)).is_some() ==> score_diff(removal(pair, kind).unwrap())
                >= 0 {
            if lowest < ahead {
                lemma_weakest_is_some_diff(pair, 8);
            }
            assert(lowest >= 0);
        } else {
            let kind = choose|kind: int|
                0 <= kind < 8 && (#[trigger] removal(pair, kind)).is_some() && score_diff(
                    removal(pair, kind).unwrap(),
                ) < 0;
            lemma_weakest_is_lowest(pair, 8, kind);
            assert(lowest < 0);
            assert(kept.len() > 0);
        }
    }
}

proof fn lemma_no_removal_below_weakest(pair: StatsPair, target: int, upto: int)
    requires
        target < weakest_diff(pair, upto),
    ensures
        removals_at(pair, target, upto) == Seq::<StatsPair>::empty(),
    decreases upto,
{
    if upto > 0 {
        lemma_no_removal_below_weakest(pair, target, upto - 1);
    }
}

/// Takes one sample out of a pair: a sample with the label and on the
/// sides of the given kind of removal. There is no pair where a bucket
/// that the removal takes from is empty, nor where the removal leaves a
/// side of either split empty.
fn remove_one(champion: &SplitStats, runnerup: &SplitStats, kind: u8) -> (next: Option<StatsPair>)
    requires
        kind < 8,
    ensures
        next == removal((*champion, *runnerup), kind as int),
        next matches Some(pair) ==> pair_scored(pair),
{
    let is_plus = kind < 4;
    let passes_first = (kind / 2) % 2 == 0;
    let passes_second = kind % 2 == 0;

    let champion = champion.remove_and_rescore(is_plus, passes_first, 1);
    let runnerup = runnerup.remove_and_rescore(is_plus, passes_second, 1);
    match (champion, runnerup) {
        (Some(champion), Some(runnerup)) => {
            if champion.score.is_some() && runnerup.score.is_some() {
                Some((champion, runnerup))
            } else {
                None
            }
        },
        _ => None,
    }
}

/// Tries the eight removals on a pair. The pairs that reach the lowest
/// score difference are left in `weakest_pairs`, and that difference is
/// returned.
fn weaken_split(
    initial_champion: &SplitStats,
    initial_runnerup: &SplitStats,
    weakest_pairs: &mut Vec<StatsPair>,
) -> (lowest: i64)
    requires
        initial_champion.is_scored(),
        initial_runnerup.is_scored(),
        old(weakest_pairs)@.len() == 0,
    ensures
        lowest == weakened((*initial_champion, *initial_runnerup)).0,
        final(weakest_pairs)@ == weakened((*initial_champion, *initial_runnerup)).1,
        all_scored(final(weakest_pairs)@),
        lowest <= score_diff((*initial_champion, *initial_runnerup)),
        -2 * SCORE_SCALE <= lowest,
{
    let ghost pair = (*initial_champion, *initial_runnerup);
    let mut score_diff_to_beat: i64 = initial_champion.score.unwrap() - initial_runnerup.score.unwrap();

    if (initial_runnerup.num_minus_left == 0 && initial_runnerup.num_minus_right == 0)
        || (initial_runnerup.num_plus_left == 0 && initial_runnerup.num_minus_right == 0)
        || (initial_runnerup.num_minus_left == 0 && initial_runnerup.num_plus_right == 0)
        || (initial_runnerup.num_plus_left == 0 && initial_runnerup.num_plus_right == 0)
        || initial_runnerup.score.is_none() {
        return score_diff_to_beat;
    }
    let mut kind: u8 = 0;
    while kind < 8
        invariant
            kind <= 8,
            pair == (*initial_champion, *initial_runnerup),
            pair_scored(pair),
            score_diff_to_beat == weakest_diff(pair, kind as int),
            weakest_pairs@ == removals_at(pair, score_diff_to_beat as int, kind as int),
            all_scored(weakest_pairs@),
            -2 * SCORE_SCALE <= score_diff_to_beat <= score_diff(pair),
        decreases 8 - kind,
    {
        match remove_one(initial_champion, initial_runnerup, kind) {
            Some((champion, runnerup)) => {
                let new_score_diff: i64 = champion.score.unwrap() - runnerup.score.unwrap();
                if new_score_diff == score_diff_to_beat {
                    weakest_pairs.push((champion, runnerup));
                } else if new_score_diff < score_diff_to_beat {
                    proof {
                        lemma_no_removal_below_weakest(pair, new_score_diff as int, kind as int);
                    }
                    score_diff_to_beat = new_score_diff;
                    weakest_pairs.clear();
                    weakest_pairs.push((champion, runnerup));
                }
            },
            None => {},
        }
        kind += 1;
    }
    score_diff_to_beat
}

/// One round of the search over the whole frontier.
fn expand_frontier(frontier: &Vec<StatsPair>, lowest: i64) -> (round: (Vec<StatsPair>, i64))
    requires
        all_scored(frontier@),
        -2 * SCORE_SCALE <= lowest <= 2 * SCORE_SCALE,
    ensures
        (round.0@, round.1 as int) == expanded(frontier@, lowest as int, frontier@.len() as int),
        all_scored(round.0@),
        -2 * SCORE_SCALE <= round.1 <= lowest,
{
    let mut candidates: Vec<StatsPair> = Vec::new();
    let mut current_minimal_score_diff = lowest;
    let mut index: usize = 0;
    while index < frontier.len()
        invariant
            index <= frontier.len(),
            all_scored(frontier@),
            all_scored(candidates@),
            (candidates@, current_minimal_score_diff as int) == expanded(frontier@, lowest as int, index as int),
            -2 * SCORE_SCALE <= current_minimal_score_diff <= lowest <= 2 * SCORE_SCALE,
        decreases frontier.len() - index,
    {
        let stats_a = &frontier[index].0;
        let stats_b = &frontier[index].1;
        assert(pair_scored(frontier@[index as int]));
        if stats_a.score.unwrap() - stats_b.score.unwrap() <= current_minimal_score_diff {
            let mut scratch_space: Vec<StatsPair> = Vec::new();
            let score_diff_found = weaken_split(stats_a, stats_b, &mut scratch_space);
            let ghost before = candidates@;
            candidates.append(&mut scratch_space);
            assert(all_scored(candidates@)) by {
                assert forall|i: int| 0 <= i < candidates@.len() implies pair_scored(#[trigger] candidates@[i]) by {
                    if i < before.len() {
                        assert(candidates@[i] == before[i]);
                    } else {
                        assert(candidates@[i] == weakened(frontier@[index as int]).1[i - before.len()]);
                    }
                }
            }
            if score_diff_found <= current_minimal_score_diff {
                current_minimal_score_diff = score_diff_found;
            }
        }
        index += 1;
    }
    (candidates, current_minimal_score_diff)
}

/// Searches for up to `threshold` removals after which the runner-up
/// outscores the champion. Returns whether the champion held, the number of
/// rounds used, and the lowest score difference seen.
pub fn is_robust2(
    current_champion_stats: &SplitStats,
    current_runnerup_stats: &SplitStats,
    threshold: usize,
    _dbg: bool,
) -> (verdict: (bool, usize, i64))
    requires
        current_champion_stats.is_scored(),
        current_runnerup_stats.is_scored(),
    ensures
        (verdict.0, verdict.1 as nat, verdict.2 as int) == robustness(
            *current_champion_stats,
            *current_runnerup_stats,
            threshold as nat,
        ),
        verdict.1 <= threshold,
{
    let mut frontier: Vec<StatsPair> = Vec::new();
    frontier.push((*current_champion_stats, *current_runnerup_stats));
    let mut current_minimal_score_diff: i64 = current_champion_stats.score.unwrap()
        - current_runnerup_stats.score.unwrap();
    let mut num_removals: usize = 0;

    assert(frontier@ == seq![(*current_champion_stats, *current_runnerup_stats)]);
    let ghost goal = robustness(*current_champion_stats, *current_runnerup_stats, threshold as nat);

    loop
        invariant
            num_removals <= threshold,
            all_scored(frontier@),
            -2 * SCORE_SCALE <= current_minimal_score_diff <= 2 * SCORE_SCALE,
            goal == robustness(*current_champion_stats, *current_runnerup_stats, threshold as nat),
            search(frontier@, current_minimal_score_diff as int, num_removals as nat, threshold as nat) == goal,
        decreases threshold - num_removals,
    {
        if current_minimal_score_diff < 0 {
            return (false, num_removals, current_minimal_score_diff);
        }
        if num_removals == threshold {
            return (true, num_removals, current_minimal_score_diff);
        }
        let (candidates, lowest) = expand_frontier(&frontier, current_minimal_score_diff);
        if candidates.len() == 0 {
            return (true, num_removals, lowest);
        }
        frontier = candidates;
        current_minimal_score_diff = lowest;
        num_removals += 1;
    }
}

/// Whether the champion withstands a budget of removals against the
/// runner-up: every count of both splits exceeds the budget, taking the
/// whole budget out of one bucket of either split does not let the
/// runner-up outscore the champion, and the search finds no removals
/// within the budget that do.
pub open spec fn withstands(champion: SplitStats, runnerup: SplitStats, budget: nat) -> bool {
    &&& budget <= u32::MAX
    &&& all_counts_exceed(champion, runnerup, budget as u32)
    &&& first_overturn(champion, runnerup, budget as u32, 0).is_none()
    &&& robustness(champion, runnerup, budget).0
}

/// Whether the champion keeps its rank against the runner-up under up to
/// `threshold` removals, and the number of rounds the search used.
///
/// The champion is not robust where a count of either split does not
/// exceed the threshold, nor where taking `threshold` samples at once out
/// of one bucket of either split lets the runner-up outscore it. Else the
/// search decides.
pub fn is_robust(
    current_champion_stats: &SplitStats,
    current_runnerup_stats: &SplitStats,
    threshold: usize,
) -> (verdict: (bool, usize))
    requires
        current_champion_stats.is_scored(),
        current_runnerup_stats.is_scored(),
    ensures
        verdict.0 == withstands(*current_champion_stats, *current_runnerup_stats, threshold as nat),
        verdict.1 == robustness(*current_champion_stats, *current_runnerup_stats, threshold as nat).1,
        verdict.1 <= threshold,
{
    let (is_robust, num_removals, _) = is_robust2(
        current_champion_stats,
        current_runnerup_stats,
        threshold,
        false,
    );
    if threshold > u32::MAX as usize {
        return (false, num_removals);
    }
    if !h2(current_champion_stats, current_runnerup_stats, threshold as u32) {
        return (false, num_removals);
    }
    let (robust_via_heuristic, _) = heuristic(current_champion_stats, current_runnerup_stats, threshold as u32);

    if !robust_via_heuristic {
        return (false, num_removals);
    }
    (is_robust, num_removals)
}

/// A champion that withstands a budget withstands every smaller budget
/// under which taking that many samples at once out of one bucket of
/// either split does not let the runner-up outscore it.
pub proof fn lemma_withstands_smaller_budget(champion: SplitStats, runnerup: SplitStats, budget: nat, smaller: nat)
    requires
        smaller <= budget,
        withstands(champion, runnerup, budget),
        first_overturn(champion, runnerup, smaller as u32, 0).is_none(),
    ensures
        withstands(champion, runnerup, smaller),
{
    lemma_robust_under_smaller_budget(champion, runnerup, budget, smaller);
}

/// A champion that withstands a budget, and whose statistics and those of
/// the runner-up hold the scores of their counts, withstands a budget of
/// no removals.
pub proof fn lemma_withstands_no_removals(champion: SplitStats, runnerup: SplitStats, budget: nat)
    requires
        withstands(champion, runnerup, budget),
        champion.score.is_some(),
        champion.rescored().score == champion.score,
        runnerup.rescored().score == runnerup.score,
    ensures
        withstands(champion, runnerup, 0),
{
    lemma_robust_under_smaller_budget(champion, runnerup, budget, 0);
    lemma_no_bulk_overturn_at_nought(champion, runnerup, 0);
}

proof fn lemma_no_bulk_overturn_at_nought(champion: SplitStats, runnerup: SplitStats, from: int)
    requires
        0 <= from,
        robustness(champion, runnerup, 0).0,
        champion.score.is_some(),
        champion.rescored().score == champion.score,
        runnerup.rescored().score == runnerup.score,
    ensures
        first_overturn(champion, runnerup, 0, from).is_none(),
    decreases 8 - from,
{
    if from < 8 {
        let plus = removes_plus(from);
        assert(champion.without(plus, bulk_champion_left(from), 0) == champion);
        assert(runnerup.without(plus, bulk_runnerup_left(from), 0) == runnerup);
        assert(score_diff((champion, runnerup)) >= 0);
        assert(!outscores(runnerup.rescored(), champion.rescored()));
        lemma_no_bulk_overturn_at_nought(champion, runnerup, from + 1);
    }
}

/// Some `steps` removals lead from `start` to a pair on which the
/// runner-up outscores the champion.
pub open spec fn overturned_after(start: StatsPair, steps: nat) -> bool {
    exists|kinds: Seq<int>, target: StatsPair| #[trigger] leads_to(start, kinds, target, steps) && score_diff(target) < 0
}

/// The pairs are those that `steps` removals lead to from `start`.
pub open spec fn is_level(start: StatsPair, pairs: Seq<StatsPair>, steps: nat) -> bool {
    &&& all_scored(pairs)
    &&& forall|i: int| 0 <= i < pairs.len() ==> reachable(start, #[trigger] pairs[i], steps)
    &&& forall|target: StatsPair| #[trigger] reachable(start, target, steps) ==> pairs.contains(target)
}

proof fn lemma_reached_by_one_more(start: StatsPair, target: StatsPair, steps: nat) -> (via: (StatsPair, int))
    requires
        reachable(start, target, steps + 1),
    ensures
        reachable(start, via.0, steps),
        0 <= via.1 < 8,
        removal(via.0, via.1) == Some(target),
{
    let more = (steps + 1) as nat;
    let kinds = choose|kinds: Seq<int>| leads_to(start, kinds, target, more);
    let shorter = kinds.drop_last();
    let via = after_removals(start, shorter).unwrap();
    assert(leads_to(start, shorter, via, steps)) by {
        assert forall|i: int| 0 <= i < shorter.len() implies 0 <= #[trigger] shorter[i] < 8 by {
            assert(shorter[i] == kinds[i]);
        }
    }
    assert(0 <= kinds[kinds.len() - 1] < 8);
    (via, kinds.last())
}

/// Whether the runner-up outscores the champion on one of the pairs.
fn any_overturned(pairs: &Vec<StatsPair>) -> (found: bool)
    requires
        all_scored(pairs@),
    ensures
        found == exists|i: int| 0 <= i < pairs@.len() && score_diff(#[trigger] pairs@[i]) < 0,
{
    let mut index: usize = 0;
    while index < pairs.len()
        invariant
            index <= pairs@.len(),
            all_scored(pairs@),
            forall|i: int| 0 <= i < index ==> score_diff(#[trigger] pairs@[i]) >= 0,
        decreases pairs@.len() - index,
    {
        assert(pair_scored(pairs@[index as int]));
        if pairs[index].0.score.unwrap() - pairs[index].1.score.unwrap() < 0 {
            return true;
        }
        index += 1;
    }
    false
}

/// All pairs that one more removal leads to.
fn next_level(pairs: &Vec<StatsPair>, Ghost(start): Ghost<StatsPair>, Ghost(steps): Ghost<nat>) -> (next: Vec<
    StatsPair,
>)
    requires
        is_level(start, pairs@, steps),
    ensures
        is_level(start, next@, steps + 1),
{
    let mut next: Vec<StatsPair> = Vec::new();
    let mut index: usize = 0;
    while index < pairs.len()
        invariant
            index <= pairs@.len(),
            is_level(start, pairs@, steps),
            all_scored(next@),
            forall|i: int| 0 <= i < next@.len() ==> reachable(start, #[trigger] next@[i], steps + 1),
            forall|i: int, kind: int|
                0 <= i < index && 0 <= kind < 8 && (#[trigger] removal(pairs@[i], kind)).is_some() ==> next@.contains(
                    removal(pairs@[i], kind).unwrap(),
                ),
        decreases pairs@.len() - index,
    {
        let mut kind: u8 = 0;
        while kind < 8
            invariant
                kind <= 8,
                index < pairs@.len(),
                is_level(start, pairs@, steps),
                all_scored(next@),
                forall|i: int| 0 <= i < next@.len() ==> reachable(start, #[trigger] next@[i], steps + 1),
                forall|i: int, kind: int|
                    0 <= i < index && 0 <= kind < 8 && (#[trigger] removal(pairs@[i], kind)).is_some()
                        ==> next@.contains(removal(pairs@[i], kind).unwrap()),
                forall|done: int|
                    0 <= done < kind && (#[trigger] removal(pairs@[index as int], done)).is_some() ==> next@.contains(
                        removal(pairs@[index as int], done).unwrap(),
                    ),
            decreases 8 - kind,
        {
            let ghost before = next@;
            match remove_one(&pairs[index].0, &pairs[index].1, kind) {
                Some(reached) => {
                    next.push(reached);
                    proof {
                        lemma_one_more_removal(start, pairs@[index as int], steps, kind as int, reached);
                        assert(next@[before.len() as int] == reached);
                    }
                },
                None => {},
            }
            proof {
                assert forall|x: StatsPair| before.contains(x) implies next@.contains(x) by {
                    let j = choose|j: int| 0 <= j < before.len() && before[j] == x;
                    assert(next@[j] == x);
                }
            }
            kind += 1;
        }
        index += 1;
    }
    proof {
        let more = (steps + 1) as nat;
        assert forall|target: StatsPair| #[trigger] reachable(start, target, more) implies next@.contains(target) by {
            let (via, kind) = lemma_reached_by_one_more(start, target, steps);
            assert(pairs@.contains(via));
            let i = choose|i: int| 0 <= i < pairs@.len() && pairs@[i] == via;
            assert(removal(pairs@[i], kind).is_some());
        }
    }
    next
}

/// Tries every sequence of up to `threshold` removals, and returns the
/// least number of removals after which the runner-up outscores the
/// champion. There is none where no such sequence exists.
///
/// The number of sequences grows eightfold with every removal.
pub fn exhaustive(champion: &SplitStats, runnerup: &SplitStats, threshold: usize) -> (breakpoint: Option<usize>)
    requires
        champion.is_scored(),
        runnerup.is_scored(),
    ensures
        match breakpoint {
            Some(steps) => {
                &&& steps <= threshold
                &&& overturned_after((*champion, *runnerup), steps as nat)
                &&& forall|fewer: nat| fewer < steps ==> !overturned_after((*champion, *runnerup), fewer)
            },
            None => forall|steps: nat| steps <= threshold ==> !overturned_after((*champion, *runnerup), steps),
        },
{
    let ghost start = (*champion, *runnerup);
    let mut level: Vec<StatsPair> = Vec::new();
    level.push((*champion, *runnerup));
    let mut depth: usize = 0;
    proof {
        assert(leads_to(start, Seq::<int>::empty(), start, 0));
        assert(level@[0] == start);
        assert forall|target: StatsPair| #[trigger] reachable(start, target, 0) implies level@.contains(target) by {
            let kinds = choose|kinds: Seq<int>| leads_to(start, kinds, target, 0);
            assert(kinds.len() == 0);
        }
    }
    loop
        invariant
            depth <= threshold,
            start == (*champion, *runnerup),
            is_level(start, level@, depth as nat),
            forall|fewer: nat| fewer < depth ==> !overturned_after(start, fewer),
        decreases threshold - depth,
    {
        let found = any_overturned(&level);
        proof {
            if found {
                let i = choose|i: int| 0 <= i < level@.len() && score_diff(#[trigger] level@[i]) < 0;
                assert(reachable(start, level@[i], depth as nat));
                let kinds = choose|kinds: Seq<int>| leads_to(start, kinds, level@[i], depth as nat);
                assert(leads_to(start, kinds, level@[i], depth as nat) && score_diff(level@[i]) < 0);
            } else {
                assert(!overturned_after(start, depth as nat)) by {
                    if overturned_after(start, depth as nat) {
                        let (kinds, target) = choose|kinds: Seq<int>, target: StatsPair| #[trigger]
                            leads_to(start, kinds, target, depth as nat) && score_diff(target) < 0;
                        assert(reachable(start, target, depth as nat));
                        assert(level@.contains(target));
                    }
                }
            }
        }
        if found {
            return Some(depth);
        }
        if depth == threshold {
            proof {
                assert forall|steps: nat| steps <= threshold implies !overturned_after(start, steps) by {
                    if steps < depth {
                    }
                }
            }
            return None;
        }
        level = next_level(&level, Ghost(start), Ghost(depth as nat));
        depth += 1;
    }
}

/// A removal takes one sample out of one bucket of either split, so that
/// no bucket holds fewer samples after some removals than it held before,
/// less the number of removals.
pub proof fn lemma_removals_take_one_each(pair: StatsPair, kinds: Seq<int>, target: StatsPair)
    requires
        after_removals(pair, kinds) == Some(target),
    ensures
        forall|plus: bool, left: bool|
            #![trigger target.0.bucket(plus, left)]
            #![trigger target.1.bucket(plus, left)]
            target.0.bucket(plus, left) + kinds.len() >= pair.0.bucket(plus, left) && target.1.bucket(plus, left)
                + kinds.len() >= pair.1.bucket(plus, left),
    decreases kinds.len(),
{
    if kinds.len() > 0 {
        let via = after_removals(pair, kinds.drop_last()).unwrap();
        lemma_removals_take_one_each(pair, kinds.drop_last(), via);
        assert forall|plus: bool, left: bool|
            #![trigger target.0.bucket(plus, left)]
            #![trigger target.1.bucket(plus, left)]
            target.0.bucket(plus, left) + kinds.len() >= pair.0.bucket(plus, left) && target.1.bucket(plus, left)
                + kinds.len() >= pair.1.bucket(plus, left) by {
            assert(via.0.bucket(plus, left) + kinds.drop_last().len() >= pair.0.bucket(plus, left));
            assert(via.1.bucket(plus, left) + kinds.drop_last().len() >= pair.1.bucket(plus, left));
        }
    }
}

/// Where every count of both splits exceeds a number of removals, no
/// bucket is empty after that many removals or fewer.
pub proof fn lemma_counts_outlast_removals(pair: StatsPair, r: u32, kinds: Seq<int>, target: StatsPair)
    requires
        all_counts_exceed(pair.0, pair.1, r),
        kinds.len() <= r,
        after_removals(pair, kinds) == Some(target),
    ensures
        all_counts_exceed(target.0, target.1, 0),
{
    lemma_removals_take_one_each(pair, kinds, target);
    assert(target.0.bucket(true, true) + kinds.len() >= pair.0.bucket(true, true));
    assert(target.0.bucket(true, false) + kinds.len() >= pair.0.bucket(true, false));
    assert(target.0.bucket(false, true) + kinds.len() >= pair.0.bucket(false, true));
    assert(target.0.bucket(false, false) + kinds.len() >= pair.0.bucket(false, false));
    assert(target.1.bucket(true, true) + kinds.len() >= pair.1.bucket(true, true));
    assert(target.1.bucket(true, false) + kinds.len() >= pair.1.bucket(true, false));
    assert(target.1.bucket(false, true) + kinds.len() >= pair.1.bucket(false, true));
    assert(target.1.bucket(false, false) + kinds.len() >= pair.1.bucket(false, false));
}

/// Whether every bucket of both statistics holds more than `r` samples.
pub open spec fn all_counts_exceed(s: SplitStats, t: SplitStats, r: u32) -> bool {
    &&& s.num_plus_left > r && s.num_plus_right > r
    &&& t.num_plus_left > r && t.num_plus_right > r
    &&& s.num_minus_left > r && s.num_minus_right > r
    &&& t.num_minus_left > r && t.num_minus_right > r
}

/// Quick test before a search: whether all eight counts exceed `r`.
pub fn h2(s: &SplitStats, t: &SplitStats, r: u32) -> (all: bool)
    ensures
        all == all_counts_exceed(*s, *t, r),
{
    let threshold = r;

    if s.num_plus_left <= threshold || s.num_plus_right <= threshold || t.num_plus_left <= threshold
        || t.num_plus_right <= threshold || s.num_minus_left <= threshold || s.num_minus_right
        <= threshold || t.num_minus_left <= threshold || t.num_minus_right <= threshold {
        false
    } else {
        true
    }
}

/// Bulk removals are numbered 0 to 7: positives first, and within a label
/// the two removals that take from opposite sides of the two splits before
/// the two that take from the same side.
pub open spec fn bulk_champion_left(kind: int) -> bool {
    kind % 4 == 0 || kind % 4 == 2
}

pub open spec fn bulk_runnerup_left(kind: int) -> bool {
    kind % 4 == 1 || kind % 4 == 2
}

/// The pair after `r` samples of one label have left one bucket of either
/// split, both rescored. There is none where a bucket holds fewer than `r`.
pub open spec fn bulk_removal(s: SplitStats, t: SplitStats, r: u32, kind: int) -> Option<StatsPair> {
    let plus = removes_plus(kind);
    if s.bucket(plus, bulk_champion_left(kind)) >= r && t.bucket(plus, bulk_runnerup_left(kind)) >= r {
        Some(
            (
                s.without(plus, bulk_champion_left(kind), r).rescored(),
                t.without(plus, bulk_runnerup_left(kind), r).rescored(),
            ),
        )
    } else {
        None
    }
}

/// A defined score ranks above an undefined one, and the higher of two
/// defined scores above the lower.
pub open spec fn outscores(t: SplitStats, s: SplitStats) -> bool {
    match (t.score, s.score) {
        (Some(a), Some(b)) => a > b,
        (Some(_), None) => true,
        _ => false,
    }
}

/// The first bulk removal of a kind from `from` on after which the
/// runner-up outscores the champion.
pub open spec fn first_overturn(s: SplitStats, t: SplitStats, r: u32, from: int) -> Option<StatsPair>
    decreases 8 - from,
{
    if from >= 8 {
        None
    } else {
        match bulk_removal(s, t, r, from) {
            Some(pair) if outscores(pair.1, pair.0) => Some(pair),
            _ => first_overturn(s, t, r, from + 1),
        }
    }
}

/// Whether the score of `t` ranks above that of `s`.
pub fn ranks_above(t: &SplitStats, s: &SplitStats) -> (above: bool)
    ensures
        above == outscores(*t, *s),
{
    match (t.score, s.score) {
        (Some(a), Some(b)) => a > b,
        (Some(_), None) => true,
        _ => false,
    }
}

/// Quick test before a search: takes `r` samples at once out of one bucket
/// of either split, in each of the eight ways, and stops at the first after
/// which the runner-up outscores the champion. Returns `false` with that
/// pair, or `true` where there is none.
pub fn heuristic(s: &SplitStats, t: &SplitStats, r: u32) -> (found: (bool, Option<StatsPair>))
    ensures
        found.1 == first_overturn(*s, *t, r, 0),
        found.0 == first_overturn(*s, *t, r, 0).is_none(),
{
    let mut kind: u8 = 0;
    while kind < 8
        invariant
            kind <= 8,
            first_overturn(*s, *t, r, 0) == first_overturn(*s, *t, r, kind as int),
        decreases 8 - kind,
    {
        let is_plus = kind < 4;
        let champion_left = kind % 4 == 0 || kind % 4 == 2;
        let runnerup_left = kind % 4 == 1 || kind % 4 == 2;
        match (s.remove_and_rescore(is_plus, champion_left, r), t.remove_and_rescore(is_plus, runnerup_left, r)) {
            (Some(s_rest), Some(t_rest)) => {
                assert(bulk_removal(*s, *t, r, kind as int) == Some((s_rest, t_rest)));
                if ranks_above(&t_rest, &s_rest) {
                    return (false, Some((s_rest, t_rest)));
                }
            },
            _ => {
                assert(bulk_removal(*s, *t, r, kind as int).is_none());
            },
        }
        kind += 1;
    }
    (true, None)
}

/// The kind of removal that takes from the buckets of a kind of bulk removal.
pub open spec fn removal_kind(bulk: int) -> int {
    (if removes_plus(bulk) {
        0int
    } else {
        4int
    }) + (if bulk_champion_left(bulk) {
        0int
    } else {
        2int
    }) + (if bulk_runnerup_left(bulk) {
        0int
    } else {
        1int
    })
}

/// Where every count of both splits exceeds `n`, `n` removals of one kind
/// can be made one after the other, and lead to what is left when `n`
/// samples are taken out of the two buckets at once.
pub proof fn lemma_repeated_removals(pair: StatsPair, kind: int, n: nat)
    requires
        0 <= kind < 8,
        1 <= n <= u32::MAX,
        all_counts_exceed(pair.0, pair.1, n as u32),
    ensures
        after_removals(pair, Seq::new(n, |i: int| kind)) == Some(
            (
                pair.0.without(removes_plus(kind), champion_left(kind), n as u32).rescored(),
                pair.1.without(removes_plus(kind), runnerup_left(kind), n as u32).rescored(),
            ),
        ),
    decreases n,
{
    let plus = removes_plus(kind);
    let kinds = Seq::new(n, |i: int| kind);
    let fewer = Seq::new((n - 1) as nat, |i: int| kind);
    assert(kinds.drop_last() == fewer);
    assert(kinds.last() == kind);
    if n == 1 {
        assert(after_removals(pair, fewer) == Some(pair));
    } else {
        lemma_repeated_removals(pair, kind, (n - 1) as nat);
        let via = after_removals(pair, fewer).unwrap();
        assert(via.0.without(plus, champion_left(kind), 1).rescored() == pair.0.without(
            plus,
            champion_left(kind),
            n as u32,
        ).rescored());
        assert(via.1.without(plus, runnerup_left(kind), 1).rescored() == pair.1.without(
            plus,
            runnerup_left(kind),
            n as u32,
        ).rescored());
    }
}

proof fn lemma_first_overturn_is_bulk(s: SplitStats, t: SplitStats, r: u32, from: int) -> (bulk: int)
    requires
        0 <= from,
        first_overturn(s, t, r, from).is_some(),
    ensures
        from <= bulk < 8,
        bulk_removal(s, t, r, bulk) == first_overturn(s, t, r, from),
        outscores(first_overturn(s, t, r, from).unwrap().1, first_overturn(s, t, r, from).unwrap().0),
    decreases 8 - from,
{
    match bulk_removal(s, t, r, from) {
        Some(pair) => {
            if outscores(pair.1, pair.0) {
                from
            } else {
                lemma_first_overturn_is_bulk(s, t, r, from + 1)
            }
        },
        None => lemma_first_overturn_is_bulk(s, t, r, from + 1),
    }
}

/// What the quick test finds is within reach: where every count of both
/// splits exceeds `r`, and taking `r` samples at once out of one bucket of
/// either split lets the runner-up outscore the champion, `r` removals
/// one after the other do so too.
pub proof fn lemma_bulk_overturn_is_reached(s: SplitStats, t: SplitStats, r: u32)
    requires
        1 <= r,
        all_counts_exceed(s, t, r),
        first_overturn(s, t, r, 0).is_some(),
    ensures
        overturned_after((s, t), r as nat),
{
    let bulk = lemma_first_overturn_is_bulk(s, t, r, 0);
    let kind = removal_kind(bulk);
    let found = first_overturn(s, t, r, 0).unwrap();
    let kinds = Seq::new(r as nat, |i: int| kind);
    lemma_repeated_removals((s, t), kind, r as nat);
    assert(removes_plus(kind) == removes_plus(bulk));
    assert(champion_left(kind) == bulk_champion_left(bulk));
    assert(runnerup_left(kind) == bulk_runnerup_left(bulk));
    assert(after_removals((s, t), kinds) == Some(found));
    assert(found.0.score.is_some() && found.1.score.is_some());
    assert(leads_to((s, t), kinds, found, r as nat) && score_diff(found) < 0);
}

} // verus!
