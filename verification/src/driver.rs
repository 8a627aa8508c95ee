//! The turn driver: searches the day, has every outcome ranked, and makes
//! the first move of the best plan.

use crate::reach::valid_index;
use crate::actions::legal;
use crate::search::{
    closed, get_possible_actions_for_day, is_plan_from, plan_views, search, searchable,
    state_before, ListOfActionsForDay,
};
use crate::state::{Action, GameState};
use vstd::prelude::*;

verus! {

/// `best` is the index of the winning rank in `ranks`: it holds a rank, no
/// rank is higher, and every rank after it is lower. Among equal ranks the
/// last one wins. An entry without a rank never wins.
pub open spec fn is_best(ranks: Seq<Option<i64>>, best: int) -> bool {
    &&& 0 <= best < ranks.len()
    &&& ranks[best] is Some
    &&& forall|i: int|
        0 <= i < ranks.len() && (#[trigger] ranks[i]) is Some ==> ranks[i].unwrap()
            <= ranks[best].unwrap()
    &&& forall|i: int|
        best < i < ranks.len() && (#[trigger] ranks[i]) is Some ==> ranks[i].unwrap()
            < ranks[best].unwrap()
}

/// No entry of `ranks` holds a rank.
pub open spec fn none_ranked(ranks: Seq<Option<i64>>) -> bool {
    forall|i: int| 0 <= i < ranks.len() ==> (#[trigger] ranks[i]) is None
}

/// `action` is the move to make when the plans `plans` have the ranks
/// `ranks`: the first move of the winning plan, and `Wait` when no plan
/// holds a rank.
pub open spec fn is_choice(plans: Seq<ListOfActionsForDay>, ranks: Seq<Option<i64>>, action: Action) -> bool {
    &&& forall|best: int| is_best(ranks, best) ==> action == plans[best]@.actions[0]
    &&& none_ranked(ranks) ==> action == Action::Wait
}

/// `ranks` holds, for each plan of `plans`, a rank that `evaluate` may give
/// to the state that the plan leads to.
pub open spec fn ranked_by<F: Fn(&GameState) -> Option<i64>>(
    evaluate: F,
    plans: Seq<ListOfActionsForDay>,
    ranks: Seq<Option<i64>>,
) -> bool {
    &&& ranks.len() == plans.len()
    &&& forall|i: int|
        0 <= i < plans.len() ==> evaluate.ensures((&(#[trigger] plans[i]).game_state,), ranks[i])
}

/// At most one index wins.
pub proof fn lemma_best_is_unique(ranks: Seq<Option<i64>>, a: int, b: int)
    requires
        is_best(ranks, a),
        is_best(ranks, b),
    ensures
        a == b,
{
}

/// The index of the winning rank, if any entry holds a rank.
pub fn select_plan(ranks: &Vec<Option<i64>>) -> (choice: Option<usize>)
    ensures
        (match choice {
            Some(best) => is_best(ranks@, best as int),
            None => none_ranked(ranks@),
        }),
{
    let mut choice: Option<usize> = None;
    let mut top: i64 = 0;
    let mut i: usize = 0;
    while i < ranks.len()
        invariant
            i <= ranks.len(),
            match choice {
                Some(best) => is_best(ranks@.take(i as int), best as int) && ranks[best as int]
                    == Some(top),
                None => none_ranked(ranks@.take(i as int)),
            },
        decreases ranks.len() - i,
    {
        let ghost seen = ranks@.take(i as int);
        let ghost next = ranks@.take(i + 1);
        proof {
            assert(next =~= seen.push(ranks@[i as int]));
            assert forall|k: int| 0 <= k < i implies #[trigger] next[k] == seen[k] by {}
        }
        match ranks[i] {
            Some(rank) => {
                let wins: bool = match choice {
                    Some(_) => rank >= top,
                    None => true,
                };
                if wins {
                    proof {
                        assert forall|k: int| 0 <= k < next.len() && (#[trigger] next[k]) is Some implies next[k].unwrap()
                            <= rank by {
                            if k < i {
                                assert(seen[k] is Some);
                            }
                        }
                    }
                    choice = Some(i);
                    top = rank;
                } else {
                    proof {
                        let best = choice.unwrap() as int;
                        assert forall|k: int| 0 <= k < next.len() && (#[trigger] next[k]) is Some implies next[k].unwrap()
                            <= top by {
                            if k < i {
                                assert(seen[k] is Some);
                            }
                        }
                        assert forall|k: int| best < k < next.len() && (#[trigger] next[k]) is Some implies next[k].unwrap()
                            < top by {
                            if k < i {
                                assert(seen[k] is Some);
                            }
                        }
                    }
                }
            },
            None => {
                proof {
                    match choice {
                        Some(b) => {
                            let best = b as int;
                            assert forall|k: int|
                                0 <= k < next.len() && (#[trigger] next[k]) is Some implies next[k].unwrap()
                                <= top by {
                                if k < i {
                                    assert(seen[k] is Some);
                                }
                            }
                            assert forall|k: int|
                                best < k < next.len() && (#[trigger] next[k]) is Some implies next[k].unwrap()
                                < top by {
                                if k < i {
                                    assert(seen[k] is Some);
                                }
                            }
                        },
                        None => {
                            assert forall|k: int| 0 <= k < next.len() implies (#[trigger] next[k]) is None by {
                                if k < i {
                                    assert(seen[k] is None);
                                }
                            }
                        },
                    }
                }
            },
        }
        i += 1;
    }
    assert(ranks@.take(ranks.len() as int) =~= ranks@);
    choice
}

/// The move to make when the plans `plans` have the ranks `ranks`: the
/// first move of the plan with the highest rank, the last such plan where
/// several share it, and `Wait` when no plan holds a rank.
pub fn choose_action(plans: &Vec<ListOfActionsForDay>, ranks: &Vec<Option<i64>>) -> (action: Action)
    requires
        plans.len() == ranks.len(),
        forall|i: int| 0 <= i < plans.len() ==> (#[trigger] plans[i]).actions.len() > 0,
    ensures
        is_choice(plans@, ranks@, action),
        action == Action::Wait || exists|i: int|
            0 <= i < plans.len() && action == (#[trigger] plans[i]).actions[0],
{
    match select_plan(ranks) {
        Some(best) => {
            proof {
                assert forall|other: int| is_best(ranks@, other) implies other == best by {
                    lemma_best_is_unique(ranks@, other, best as int);
                }
                assert(plans[best as int].actions[0] == plans[best as int].actions[0]);
            }
            plans[best].actions[0]
        },
        None => {
            proof {
                assert forall|other: int| is_best(ranks@, other) implies false by {
                    assert(ranks@[other] is None);
                }
            }
            Action::Wait
        },
    }
}

/// The move to make in `game_state`: the search lists every plan for the
/// day, `evaluate` ranks the state that each plan leads to, and the first
/// move of the plan with the highest rank is returned; among plans of equal
/// rank the one found last wins. `seedable_cells` is the planting index of
/// the board. A move is always returned, and it is a move that is open to
/// me in `game_state`: the plan that only waits is always among the plans.
pub fn get_next_action<F: Fn(&GameState) -> Option<i64>>(
    game_state: GameState,
    seedable_cells: &Vec<Vec<Vec<i32>>>,
    evaluate: F,
) -> (action: Action)
    requires
        searchable(game_state@),
        valid_index(seedable_cells.deep_view()),
        forall|state: GameState| state.wf() ==> evaluate.requires((&state,)),
    ensures
        legal(game_state@, seedable_cells.deep_view(), action),
        (exists|plans: Seq<ListOfActionsForDay>, ranks: Seq<Option<i64>>|
            plan_views(plans) == search(game_state@, seedable_cells.deep_view()) && ranked_by(
                evaluate,
                plans,
                ranks,
            ) && #[trigger] is_choice(plans, ranks, action)),
{
    let plans: Vec<ListOfActionsForDay> = get_possible_actions_for_day(&game_state, seedable_cells);
    let mut ranks: Vec<Option<i64>> = Vec::new();
    let mut i: usize = 0;
    while i < plans.len()
        invariant
            i <= plans.len(),
            ranks.len() == i,
            forall|state: GameState| state.wf() ==> evaluate.requires((&state,)),
            forall|k: int| 0 <= k < plans.len() ==> (#[trigger] plans[k]).game_state.wf(),
            forall|k: int|
                0 <= k < i ==> evaluate.ensures((&(#[trigger] plans[k]).game_state,), ranks[k]),
        decreases plans.len() - i,
    {
        let rank: Option<i64> = evaluate(&plans[i].game_state);
        ranks.push(rank);
        i += 1;
    }
    proof {
        assert forall|k: int| 0 <= k < plans.len() implies (#[trigger] plans[k]).actions.len() > 0 by {
            assert(closed(plans[k]@));
        }
    }
    let action: Action = choose_action(&plans, &ranks);
    proof {
        assert(is_choice(plans@, ranks@, action));
        assert(ranked_by(evaluate, plans@, ranks@));
        if action != Action::Wait {
            let i = choose|i: int| 0 <= i < plans.len() && action == (#[trigger] plans[i]).actions[0];
            let moves = plans[i]@.actions;
            assert(is_plan_from(plans[i]@, game_state@, seedable_cells.deep_view()));
            assert(moves.take(0) =~= Seq::<Action>::empty());
            assert(state_before(game_state@, moves, 0) == game_state@);
        }
    }
    action
}

} // verus!
