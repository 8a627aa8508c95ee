//! The sequence search: every sequence of moves that I can make before the
//! day ends, each with the state that it leads to.

use crate::actions::{
    can_grow, can_harvest, can_plant, get_possible_actions, legal, legal_actions,
    lemma_legal_actions, row_of,
};
use crate::board::valid_cell;
use crate::cost::{harvest_score, lemma_grow_cost_bounds};
use crate::income::lemma_state_income_bounds;
use crate::reach::valid_index;
use crate::simulate::{
    applicable, lemma_step_keeps_wf, lemma_unit_is_unique, simulate_action, step,
};
use crate::state::{copy_of, valid_tree, Action, GameState, State};
use vstd::prelude::*;

verus! {

/// A plan that holds more than this many moves after its first is not
/// extended: the day is closed for it.
pub const DEPTH_CAP: i32 = 1;

/// A sequence of moves for one day, the state that they lead to, and the
/// number of moves made after the first.
#[derive(Debug)]
pub struct ListOfActionsForDay {
    pub game_state: GameState,
    pub actions: Vec<Action>,
    pub length: i32,
}

/// The mathematical value of a `ListOfActionsForDay`.
pub struct Plan {
    pub state: State,
    pub actions: Seq<Action>,
    pub length: int,
}

impl View for ListOfActionsForDay {
    type V = Plan;

    open spec fn view(&self) -> Plan {
        Plan { state: self.game_state@, actions: self.actions@, length: self.length as int }
    }
}

/// The values of a list of plans.
pub open spec fn plan_views(plans: Seq<ListOfActionsForDay>) -> Seq<Plan> {
    plans.map_values(|plan: ListOfActionsForDay| plan@)
}

/// The plan that starts from the state `s` with the move `action`.
pub open spec fn opening(s: State, action: Action) -> Plan {
    Plan { state: step(s, action), actions: seq![action], length: 0 }
}

/// The plan `plan` extended by the move `action`.
pub open spec fn follow(plan: Plan, action: Action) -> Plan {
    Plan {
        state: step(plan.state, action),
        actions: plan.actions.push(action),
        length: plan.length + 1,
    }
}

/// The plan has ended the day: its last move is `Wait`.
pub open spec fn closed(plan: Plan) -> bool {
    plan.actions.len() > 0 && plan.actions.last() == Action::Wait
}

/// The closed plans that the search derives from `plan`, in the order in
/// which it finds them: the plan itself if it is closed; the plan followed
/// by `Wait` if it is deeper than the cap; otherwise what it derives from
/// the plan extended by each move open in its state, the last move first.
pub open spec fn outcomes(plan: Plan, index: Seq<Seq<Seq<i32>>>) -> Seq<Plan>
    decreases 3 - plan.length, 0int,
{
    if closed(plan) {
        seq![plan]
    } else if plan.length > DEPTH_CAP {
        seq![follow(plan, Action::Wait)]
    } else {
        outcomes_of_moves(plan, index, legal_actions(plan.state, index).len() as int)
    }
}

/// What the search derives from `plan` extended by each of the first `upto`
/// moves open in its state, the last of them first.
pub open spec fn outcomes_of_moves(plan: Plan, index: Seq<Seq<Seq<i32>>>, upto: int) -> Seq<Plan>
    decreases 2 - plan.length, upto,
{
    if upto <= 0 || plan.length > DEPTH_CAP {
        Seq::empty()
    } else {
        outcomes(follow(plan, legal_actions(plan.state, index)[upto - 1]), index)
            + outcomes_of_moves(plan, index, upto - 1)
    }
}

/// What the search derives from a stack of plans, the top of the stack,
/// which is its last plan, first.
pub open spec fn drain(stack: Seq<Plan>, index: Seq<Seq<Seq<i32>>>) -> Seq<Plan>
    decreases stack.len(),
{
    if stack.len() == 0 {
        Seq::empty()
    } else {
        outcomes(stack.last(), index) + drain(stack.drop_last(), index)
    }
}

/// The plans that start from `s` with each of the first `upto` moves open
/// in `s`.
pub open spec fn openings(s: State, index: Seq<Seq<Seq<i32>>>, upto: int) -> Seq<Plan> {
    Seq::new(
        if upto < 0 {
            0nat
        } else {
            upto as nat
        },
        |i: int| opening(s, legal_actions(s, index)[i]),
    )
}

/// The result of the search from the state `s`: every closed plan for the
/// day, in the order in which the search finds them.
pub open spec fn search(s: State, index: Seq<Seq<Seq<i32>>>) -> Seq<Plan> {
    drain(openings(s, index, legal_actions(s, index).len() as int), index)
}

/// The number of plans that the search visits below and including `plan`.
spec fn work(plan: Plan, index: Seq<Seq<Seq<i32>>>) -> int
    decreases 3 - plan.length, 0int,
{
    if closed(plan) || plan.length > DEPTH_CAP {
        1
    } else {
        1 + work_of_moves(plan, index, legal_actions(plan.state, index).len() as int)
    }
}

/// The number of plans that the search visits below `plan` through its
/// first `upto` moves.
spec fn work_of_moves(plan: Plan, index: Seq<Seq<Seq<i32>>>, upto: int) -> int
    decreases 2 - plan.length, upto,
{
    if upto <= 0 || plan.length > DEPTH_CAP {
        0
    } else {
        work(follow(plan, legal_actions(plan.state, index)[upto - 1]), index) + work_of_moves(
            plan,
            index,
            upto - 1,
        )
    }
}

/// The number of plans that the search still has to visit for a stack.
spec fn backlog(stack: Seq<Plan>, index: Seq<Seq<Seq<i32>>>) -> int
    decreases stack.len(),
{
    if stack.len() == 0 {
        0
    } else {
        work(stack.last(), index) + backlog(stack.drop_last(), index)
    }
}

/// The score leaves room for `harvests` harvests: whatever the fertility of
/// the cells harvested, the score stays a machine integer.
spec fn score_room(s: State, harvests: int) -> bool {
    &&& i32::MIN <= s.score + harvests * (s.nutrients - 2)
    &&& s.score + harvests * (s.nutrients + 4) <= i32::MAX
}

/// The search can start from the state `s`: it is well formed, and its
/// counters leave room for the income of a day and for three harvests.
pub open spec fn searchable(s: State) -> bool {
    &&& s.wf()
    &&& s.representable()
    &&& s.sunpoints <= i32::MAX - 111
    &&& i32::MIN <= s.score + 3 * (s.nutrients - 2)
    &&& s.score + 3 * (s.nutrients + 4) <= i32::MAX
}

/// What the search knows of every plan on its stack, `start` being the
/// state that it started from.
spec fn ready(plan: Plan, start: State) -> bool {
    &&& plan.actions.len() > 0
    &&& plan.state.wf()
    &&& plan.state.representable()
    &&& closed(plan) || {
        &&& 0 <= plan.length <= 2
        &&& plan.state.nutrients == start.nutrients
        &&& plan.state.sunpoints <= start.sunpoints
        &&& score_room(plan.state, 2 - plan.length)
    }
}

/// Every plan costs the search at least one visit.
proof fn lemma_work_positive(plan: Plan, index: Seq<Seq<Seq<i32>>>)
    ensures
        work(plan, index) >= 1,
    decreases 3 - plan.length, 0int,
{
    if !closed(plan) && plan.length <= 1 {
        lemma_work_of_moves_positive(plan, index, legal_actions(plan.state, index).len() as int);
    }
}

/// The visits below a plan are not negative.
proof fn lemma_work_of_moves_positive(plan: Plan, index: Seq<Seq<Seq<i32>>>, upto: int)
    ensures
        work_of_moves(plan, index, upto) >= 0,
    decreases 2 - plan.length, upto,
{
    if upto > 0 && plan.length <= 1 {
        lemma_work_positive(follow(plan, legal_actions(plan.state, index)[upto - 1]), index);
        lemma_work_of_moves_positive(plan, index, upto - 1);
    }
}

/// The backlog of a stack is not negative.
proof fn lemma_backlog_positive(stack: Seq<Plan>, index: Seq<Seq<Seq<i32>>>)
    ensures
        backlog(stack, index) >= 0,
    decreases stack.len(),
{
    if stack.len() > 0 {
        lemma_work_positive(stack.last(), index);
        lemma_backlog_positive(stack.drop_last(), index);
    }
}

/// A stack whose bottom plan is closed drains into at least that plan, and
/// that plan comes last.
proof fn lemma_drain_ends_with_bottom(stack: Seq<Plan>, index: Seq<Seq<Seq<i32>>>)
    requires
        stack.len() > 0,
        closed(stack[0]),
    ensures
        drain(stack, index).len() >= 1,
        drain(stack, index).last() == stack[0],
    decreases stack.len(),
{
    if stack.len() > 1 {
        lemma_drain_ends_with_bottom(stack.drop_last(), index);
        assert(stack.drop_last()[0] == stack[0]);
    } else {
        assert(stack.last() == stack[0]);
        assert(drain(stack.drop_last(), index) =~= Seq::<Plan>::empty());
    }
}

/// The search always finds a plan, and the last plan that it finds is the
/// one that does nothing but wait.
pub proof fn lemma_search_finds_waiting(s: State, index: Seq<Seq<Seq<i32>>>)
    ensures
        search(s, index).len() >= 1,
        search(s, index).last() == opening(s, Action::Wait),
{
    lemma_legal_actions(s, index, Action::Wait);
    let stack = openings(s, index, legal_actions(s, index).len() as int);
    assert(stack[0] == opening(s, Action::Wait));
    assert(opening(s, Action::Wait).actions.last() == Action::Wait);
    lemma_drain_ends_with_bottom(stack, index);
}

/// The state reached from `s` by making the moves `actions` one after the
/// other.
pub open spec fn replay(s: State, actions: Seq<Action>) -> State
    decreases actions.len(),
{
    if actions.len() == 0 {
        s
    } else {
        step(replay(s, actions.drop_last()), actions.last())
    }
}

/// The state in which the move at position `k` of `actions` is made when
/// the moves are made one after the other from `s`.
pub open spec fn state_before(s: State, actions: Seq<Action>, k: int) -> State {
    replay(s, actions.take(k))
}

/// `plan` is a plan for a day that starts in the state `s`: it holds at
/// least one move; every move is open to me in the state in which it is
/// made; no move but the last is `Wait`; its state is the one that its moves
/// lead to from `s`; and its length counts the moves after the first.
pub open spec fn is_plan_from(plan: Plan, s: State, index: Seq<Seq<Seq<i32>>>) -> bool {
    &&& plan.actions.len() >= 1
    &&& plan.length == plan.actions.len() - 1
    &&& plan.state == replay(s, plan.actions)
    &&& forall|k: int|
        0 <= k < plan.actions.len() ==> legal(
            #[trigger] state_before(s, plan.actions, k),
            index,
            plan.actions[k],
        )
    &&& forall|k: int| 0 <= k < plan.actions.len() - 1 ==> #[trigger] plan.actions[k] != Action::Wait
}

/// Making one more move after `actions` leads to the state that the move
/// leads to from the state reached by `actions`.
pub proof fn lemma_replay_push(s: State, actions: Seq<Action>, action: Action)
    ensures
        replay(s, actions.push(action)) == step(replay(s, actions), action),
{
    assert(actions.push(action).drop_last() =~= actions);
    assert(actions.push(action).last() == action);
}

/// A plan for the day, not yet closed, stays one when a move open in its
/// state is added.
proof fn lemma_follow_is_plan(plan: Plan, s: State, index: Seq<Seq<Seq<i32>>>, action: Action)
    requires
        is_plan_from(plan, s, index),
        !closed(plan),
        legal(plan.state, index, action),
    ensures
        is_plan_from(follow(plan, action), s, index),
{
    let before = plan.actions;
    let after = before.push(action);
    let n = before.len() as int;
    lemma_replay_push(s, before, action);
    assert(follow(plan, action).actions == after);
    assert(follow(plan, action).state == replay(s, after));
    assert forall|k: int| 0 <= k < after.len() implies legal(
        #[trigger] state_before(s, after, k),
        index,
        after[k],
    ) by {
        if k < n {
            assert(after.take(k) =~= before.take(k));
            assert(after[k] == before[k]);
            assert(legal(state_before(s, before, k), index, before[k]));
        } else {
            assert(after.take(k) =~= before);
            assert(after[k] == action);
        }
    }
    assert forall|k: int| 0 <= k < after.len() - 1 implies #[trigger] after[k] != Action::Wait by {
        assert(after[k] == before[k]);
        if k < n - 1 {
            assert(before[k] != Action::Wait);
        } else {
            assert(before.last() == before[k]);
        }
    }
}

/// What the search derives from a plan for the day are closed plans for the
/// day, none with more than three moves after the first unless the plan is
/// that long itself.
proof fn lemma_outcomes_are_plans(plan: Plan, s: State, index: Seq<Seq<Seq<i32>>>)
    requires
        is_plan_from(plan, s, index),
    ensures
        (forall|k: int|
            0 <= k < outcomes(plan, index).len() ==> {
                let found = #[trigger] outcomes(plan, index)[k];
                &&& is_plan_from(found, s, index)
                &&& closed(found)
                &&& found.length <= 3 || found.length <= plan.length + 1
            }),
    decreases 3 - plan.length, 0int,
{
    let found_all = outcomes(plan, index);
    if closed(plan) {
        assert(found_all[0] == plan);
    } else if plan.length > 1 {
        lemma_follow_is_plan(plan, s, index, Action::Wait);
        assert(follow(plan, Action::Wait).actions.last() == Action::Wait);
        assert(found_all[0] == follow(plan, Action::Wait));
    } else {
        lemma_outcomes_of_moves_are_plans(
            plan,
            s,
            index,
            legal_actions(plan.state, index).len() as int,
        );
        assert(found_all == outcomes_of_moves(
            plan,
            index,
            legal_actions(plan.state, index).len() as int,
        ));
    }
}

/// What the search derives from a plan through its first `upto` moves are
/// closed plans for the day.
proof fn lemma_outcomes_of_moves_are_plans(
    plan: Plan,
    s: State,
    index: Seq<Seq<Seq<i32>>>,
    upto: int,
)
    requires
        is_plan_from(plan, s, index),
        !closed(plan),
        upto <= legal_actions(plan.state, index).len(),
    ensures
        (forall|k: int|
            0 <= k < outcomes_of_moves(plan, index, upto).len() ==> {
                let found = #[trigger] outcomes_of_moves(plan, index, upto)[k];
                &&& is_plan_from(found, s, index)
                &&& closed(found)
                &&& found.length <= 3
            }),
    decreases 2 - plan.length, upto,
{
    if upto > 0 && plan.length <= 1 {
        let action = legal_actions(plan.state, index)[upto - 1];
        let next = follow(plan, action);
        assert(legal_actions(plan.state, index).contains(action));
        lemma_legal_actions(plan.state, index, action);
        lemma_follow_is_plan(plan, s, index, action);
        lemma_outcomes_are_plans(next, s, index);
        lemma_outcomes_of_moves_are_plans(plan, s, index, upto - 1);
        let first = outcomes(next, index);
        let rest = outcomes_of_moves(plan, index, upto - 1);
        assert forall|k: int| 0 <= k < (first + rest).len() implies {
            let found = #[trigger] (first + rest)[k];
            &&& is_plan_from(found, s, index)
            &&& closed(found)
            &&& found.length <= 3
        } by {
            if k < first.len() {
                assert((first + rest)[k] == first[k]);
            } else {
                assert((first + rest)[k] == rest[k - first.len()]);
            }
        }
    }
}

/// What the search derives from a stack of plans for the day are closed
/// plans for the day.
proof fn lemma_drain_are_plans(stack: Seq<Plan>, s: State, index: Seq<Seq<Seq<i32>>>)
    requires
        forall|i: int|
            0 <= i < stack.len() ==> is_plan_from(#[trigger] stack[i], s, index) && stack[i].length
                <= 2,
    ensures
        (forall|k: int|
            0 <= k < drain(stack, index).len() ==> {
                let found = #[trigger] drain(stack, index)[k];
                &&& is_plan_from(found, s, index)
                &&& closed(found)
                &&& found.length <= 3
            }),
    decreases stack.len(),
{
    if stack.len() > 0 {
        lemma_outcomes_are_plans(stack.last(), s, index);
        lemma_drain_are_plans(stack.drop_last(), s, index);
        let first = outcomes(stack.last(), index);
        let rest = drain(stack.drop_last(), index);
        assert forall|k: int| 0 <= k < (first + rest).len() implies {
            let found = #[trigger] (first + rest)[k];
            &&& is_plan_from(found, s, index)
            &&& closed(found)
            &&& found.length <= 3
        } by {
            if k < first.len() {
                assert((first + rest)[k] == first[k]);
            } else {
                assert((first + rest)[k] == rest[k - first.len()]);
            }
        }
    }
}

/// Every plan that the search finds is a closed plan for the day that
/// starts in `s`: a sequence of at most four moves, each open to me when it
/// is made, of which the last and only the last is `Wait`, together with
/// the state that the moves lead to.
pub proof fn lemma_search_finds_plans(s: State, index: Seq<Seq<Seq<i32>>>)
    ensures
        (forall|k: int|
            0 <= k < search(s, index).len() ==> {
                let found = #[trigger] search(s, index)[k];
                &&& is_plan_from(found, s, index)
                &&& closed(found)
                &&& found.actions.len() <= 4
            }),
{
    let moves = legal_actions(s, index);
    let stack = openings(s, index, moves.len() as int);
    assert forall|i: int| 0 <= i < stack.len() implies is_plan_from(#[trigger] stack[i], s, index)
        && stack[i].length <= 2 by {
        let action = moves[i];
        let plan = stack[i];
        assert(moves.contains(action));
        lemma_legal_actions(s, index, action);
        assert(plan.actions.drop_last() =~= Seq::<Action>::empty());
        assert(replay(s, Seq::<Action>::empty()) == s);
        assert(replay(s, plan.actions) == step(s, action));
        assert forall|k: int| 0 <= k < plan.actions.len() implies legal(
            #[trigger] state_before(s, plan.actions, k),
            index,
            plan.actions[k],
        ) by {
            assert(plan.actions.take(0) =~= Seq::<Action>::empty());
        }
    }
    lemma_drain_are_plans(stack, s, index);
}

/// Room for one more harvest than needed is room enough, before and after
/// a gain that is nothing or the yield of one harvest.
proof fn lemma_room_shrinks(score: int, low: int, high: int, harvests: int, gain: int)
    requires
        harvests >= 0,
        low <= high,
        i32::MIN <= score <= i32::MAX,
        i32::MIN <= score + (harvests + 1) * low,
        score + (harvests + 1) * high <= i32::MAX,
        gain == 0 || low <= gain <= high,
    ensures
        i32::MIN <= score + gain <= i32::MAX,
        i32::MIN <= score + gain + harvests * low,
        score + gain + harvests * high <= i32::MAX,
{
    assert((harvests + 1) * low == harvests * low + low) by (nonlinear_arith);
    assert((harvests + 1) * high == harvests * high + high) by (nonlinear_arith);
    assert(low >= 0 ==> harvests * low >= 0) by (nonlinear_arith)
        requires
            harvests >= 0,
    ;
    assert(low < 0 ==> harvests * low <= 0) by (nonlinear_arith)
        requires
            harvests >= 0,
    ;
    assert(high >= 0 ==> harvests * high >= 0) by (nonlinear_arith)
        requires
            harvests >= 0,
    ;
    assert(high < 0 ==> harvests * high <= 0) by (nonlinear_arith)
        requires
            harvests >= 0,
    ;
}

/// Ending the day in a well-formed state whose energy leaves room for a
/// day's income can be simulated.
proof fn lemma_wait_fits(s: State)
    requires
        s.wf(),
        s.representable(),
        s.sunpoints <= i32::MAX - 111,
    ensures
        step(s, Action::Wait).wf(),
        step(s, Action::Wait).representable(),
{
    lemma_state_income_bounds(s);
    lemma_step_keeps_wf(s, Action::Wait);
}

/// A move other than `Wait` that is open to me can be simulated. It leaves
/// the nutrient pool as it is, does not raise my energy, and uses at most
/// one harvest of the room that the score has.
proof fn lemma_move_fits(s: State, index: Seq<Seq<Seq<i32>>>, action: Action, harvests: int)
    requires
        s.wf(),
        s.representable(),
        legal(s, index, action),
        action != Action::Wait,
        harvests >= 0,
        score_room(s, harvests + 1),
    ensures
        applicable(s, action),
        step(s, action).wf(),
        step(s, action).representable(),
        step(s, action).nutrients == s.nutrients,
        step(s, action).sunpoints <= s.sunpoints,
        score_room(step(s, action), harvests),
{
    match action {
        Action::Wait => {},
        Action::Grow(target) => {
            let i = choose|i: int|
                0 <= i < s.my_trees.len() && (#[trigger] s.my_trees[i]).cell_index == target && can_grow(
                    s,
                    s.my_trees[i],
                );
            lemma_unit_is_unique(s, i);
            lemma_grow_cost_bounds(s.my_trees[i].size + 1, s.my_trees);
            lemma_room_shrinks(s.score, s.nutrients - 2, s.nutrients + 4, harvests, 0);
        },
        Action::Complete(target) => {
            let i = choose|i: int|
                0 <= i < s.my_trees.len() && (#[trigger] s.my_trees[i]).cell_index == target
                    && can_harvest(s, s.my_trees[i]);
            lemma_unit_is_unique(s, i);
            assert(valid_tree(s.my_trees[i], s.cells));
            assert(valid_cell(
                s.cells[s.my_trees[i].cell_index as int],
                s.my_trees[i].cell_index as int,
            ));
            let gain = harvest_score(s.nutrients, s.my_trees[i].cell);
            lemma_room_shrinks(s.score, s.nutrients - 2, s.nutrients + 4, harvests, gain);
        },
        Action::Seed(source, target) => {
            let i = choose|i: int|
                0 <= i < s.my_trees.len() && (#[trigger] s.my_trees[i]).cell_index == source
                    && can_plant(s.my_trees[i]) && row_of(
                    index,
                    s.my_trees[i],
                ).contains(target);
            lemma_unit_is_unique(s, i);
            lemma_room_shrinks(s.score, s.nutrients - 2, s.nutrients + 4, harvests, 0);
        },
    }
    lemma_step_keeps_wf(s, action);
}

/// Tells whether the search can start from `game_state`.
pub fn is_searchable(game_state: &GameState) -> (ok: bool)
    ensures
        ok == searchable(game_state@),
{
    if !game_state.is_well_formed() {
        return false;
    }
    let score: i64 = game_state.score as i64;
    let nutrients: i64 = game_state.nutrients as i64;
    game_state.sunpoints <= i32::MAX - 111 && i32::MIN as i64 <= score + 3 * (nutrients - 2)
        && score + 3 * (nutrients + 4) <= i32::MAX as i64
}

/// Derives the plan that extends `plan` by `action`.
fn extend(plan: &ListOfActionsForDay, action: Action) -> (next: ListOfActionsForDay)
    requires
        plan.game_state.wf(),
        applicable(plan.game_state@, action),
        step(plan.game_state@, action).representable(),
        plan.length < i32::MAX,
    ensures
        next@ == follow(plan@, action),
        next.game_state.wf(),
{
    let mut actions: Vec<Action> = copy_of(&plan.actions);
    actions.push(action);
    ListOfActionsForDay {
        game_state: simulate_action(&plan.game_state, action),
        actions,
        length: plan.length + 1,
    }
}

/// Every sequence of moves that I can make from `game_state` before the
/// day ends, each with the state that it leads to, in the order in which a
/// depth-first search over a stack finds them. A sequence ends with the
/// first `Wait`; one that holds three other moves is ended by a `Wait`.
/// `seedable_cells` is the planting index of the board.
pub fn get_possible_actions_for_day(
    game_state: &GameState,
    seedable_cells: &Vec<Vec<Vec<i32>>>,
) -> (plans: Vec<ListOfActionsForDay>)
    requires
        searchable(game_state@),
        valid_index(seedable_cells.deep_view()),
    ensures
        plan_views(plans@) == search(game_state@, seedable_cells.deep_view()),
        plans.len() >= 1,
        plans[plans.len() - 1]@ == opening(game_state@, Action::Wait),
        forall|i: int|
            0 <= i < plans.len() ==> closed(#[trigger] plans[i]@) && is_plan_from(
                plans[i]@,
                game_state@,
                seedable_cells.deep_view(),
            ) && plans[i].actions.len() <= 4,
        forall|i: int| 0 <= i < plans.len() ==> (#[trigger] plans[i]).game_state.wf(),
{
    let ghost start = game_state@;
    let ghost index = seedable_cells.deep_view();
    let mut done: Vec<ListOfActionsForDay> = Vec::new();
    let mut stack: Vec<ListOfActionsForDay> = Vec::new();
    let first: Vec<Action> = get_possible_actions(game_state, seedable_cells);
    let mut i: usize = 0;
    while i < first.len()
        invariant
            i <= first.len(),
            start == game_state@,
            index == seedable_cells.deep_view(),
            searchable(start),
            valid_index(index),
            first@ == legal_actions(start, index),
            plan_views(stack@) == openings(start, index, i as int),
            forall|k: int| 0 <= k < stack.len() ==> ready(#[trigger] stack[k]@, start),
        decreases first.len() - i,
    {
        let action: Action = first[i];
        let ghost before = stack@;
        proof {
            lemma_legal_actions(start, index, action);
            assert(first@.contains(action));
            if action == Action::Wait {
                lemma_wait_fits(start);
            } else {
                lemma_move_fits(start, index, action, 2);
            }
        }
        let mut actions: Vec<Action> = Vec::new();
        actions.push(action);
        let plan = ListOfActionsForDay {
            game_state: simulate_action(game_state, action),
            actions,
            length: 0,
        };
        proof {
            assert(plan@.actions =~= seq![action]);
            assert(plan@ == opening(start, action));
            assert(plan@.actions.last() == action);
        }
        stack.push(plan);
        proof {
            assert(plan_views(stack@) =~= plan_views(before).push(plan@));
            assert(openings(start, index, i + 1) =~= openings(start, index, i as int).push(
                opening(start, first@[i as int]),
            ));
            assert forall|k: int| 0 <= k < stack.len() implies ready(#[trigger] stack[k]@, start) by {
                if k < before.len() {
                    assert(stack[k] == before[k]);
                }
            }
        }
        i += 1;
    }
    proof {
        assert(plan_views(done@) =~= Seq::<Plan>::empty());
        assert(plan_views(done@) + drain(plan_views(stack@), index) =~= search(start, index));
        lemma_backlog_positive(plan_views(stack@), index);
    }
    while stack.len() > 0
        invariant
            start == game_state@,
            index == seedable_cells.deep_view(),
            searchable(start),
            valid_index(index),
            forall|k: int| 0 <= k < stack.len() ==> ready(#[trigger] stack[k]@, start),
            forall|k: int| 0 <= k < done.len() ==> closed(#[trigger] done[k]@),
            forall|k: int| 0 <= k < done.len() ==> (#[trigger] done[k]).game_state.wf(),
            plan_views(done@) + drain(plan_views(stack@), index) == search(start, index),
            backlog(plan_views(stack@), index) >= 0,
        decreases backlog(plan_views(stack@), index),
    {
        let ghost stack_before = stack@;
        let ghost done_before = done@;
        let visiting: ListOfActionsForDay = stack.pop().unwrap();
        let ghost rest = plan_views(stack@);
        let ghost plan = visiting@;
        proof {
            assert(visiting == stack_before[stack_before.len() - 1]);
            assert(ready(plan, start));
            assert(plan_views(stack_before).last() == plan);
            assert(plan_views(stack_before).drop_last() =~= rest);
            assert(drain(plan_views(stack_before), index) == outcomes(plan, index) + drain(
                rest,
                index,
            ));
            assert(backlog(plan_views(stack_before), index) == work(plan, index) + backlog(
                rest,
                index,
            ));
            lemma_backlog_positive(rest, index);
            assert forall|k: int| 0 <= k < stack.len() implies ready(#[trigger] stack[k]@, start) by {
                assert(stack[k] == stack_before[k]);
            }
        }
        let last: Action = visiting.actions[visiting.actions.len() - 1];
        if last == Action::Wait {
            done.push(visiting);
            proof {
                assert(plan_views(done@) =~= plan_views(done_before).push(plan));
                assert(plan_views(done@) + drain(rest, index) =~= plan_views(done_before) + (
                outcomes(plan, index) + drain(rest, index)));
                assert forall|k: int| 0 <= k < done.len() implies closed(#[trigger] done[k]@)
                    && done[k].game_state.wf() by {
                    if k < done_before.len() {
                        assert(done[k] == done_before[k]);
                    }
                }
            }
        } else if visiting.length > DEPTH_CAP {
            proof {
                lemma_wait_fits(plan.state);
            }
            let ended: ListOfActionsForDay = extend(&visiting, Action::Wait);
            done.push(ended);
            proof {
                assert(ended@.actions.last() == Action::Wait);
                assert(plan_views(done@) =~= plan_views(done_before).push(ended@));
                assert(plan_views(done@) + drain(rest, index) =~= plan_views(done_before) + (
                outcomes(plan, index) + drain(rest, index)));
                assert forall|k: int| 0 <= k < done.len() implies closed(#[trigger] done[k]@)
                    && done[k].game_state.wf() by {
                    if k < done_before.len() {
                        assert(done[k] == done_before[k]);
                    }
                }
            }
        } else {
            let moves: Vec<Action> = get_possible_actions(&visiting.game_state, seedable_cells);
            let mut j: usize = 0;
            proof {
                assert(outcomes_of_moves(plan, index, 0) + drain(rest, index) =~= drain(rest, index));
            }
            while j < moves.len()
                invariant
                    j <= moves.len(),
                    start == game_state@,
                    index == seedable_cells.deep_view(),
                    searchable(start),
                    valid_index(index),
                    plan == visiting@,
                    ready(plan, start),
                    !closed(plan),
                    plan.length <= 1,
                    moves@ == legal_actions(plan.state, index),
                    forall|k: int| 0 <= k < stack.len() ==> ready(#[trigger] stack[k]@, start),
                    drain(plan_views(stack@), index) == outcomes_of_moves(plan, index, j as int)
                        + drain(rest, index),
                    backlog(plan_views(stack@), index) == work_of_moves(plan, index, j as int)
                        + backlog(rest, index),
                decreases moves.len() - j,
            {
                let action: Action = moves[j];
                let ghost before = stack@;
                proof {
                    lemma_legal_actions(plan.state, index, action);
                    assert(moves@.contains(action));
                    if action == Action::Wait {
                        lemma_wait_fits(plan.state);
                    } else {
                        lemma_move_fits(plan.state, index, action, 1 - plan.length);
                    }
                }
                let next: ListOfActionsForDay = extend(&visiting, action);
                proof {
                    assert(next@.actions.last() == action);
                    assert(ready(next@, start));
                }
                stack.push(next);
                proof {
                    let views = plan_views(stack@);
                    assert(views =~= plan_views(before).push(next@));
                    assert(views.last() == next@);
                    assert(views.drop_last() =~= plan_views(before));
                    assert(drain(views, index) == outcomes(next@, index) + drain(
                        plan_views(before),
                        index,
                    ));
                    assert(outcomes(next@, index) + (outcomes_of_moves(plan, index, j as int)
                        + drain(rest, index)) =~= (outcomes(next@, index) + outcomes_of_moves(
                        plan,
                        index,
                        j as int,
                    )) + drain(rest, index));
                    assert forall|k: int| 0 <= k < stack.len() implies ready(
                        #[trigger] stack[k]@,
                        start,
                    ) by {
                        if k < before.len() {
                            assert(stack[k] == before[k]);
                        }
                    }
                }
                j += 1;
            }
            proof {
                lemma_work_of_moves_positive(plan, index, moves.len() as int);
            }
        }
    }
    proof {
        assert(drain(plan_views(stack@), index) =~= Seq::<Plan>::empty());
        assert(plan_views(done@) + Seq::<Plan>::empty() =~= plan_views(done@));
        lemma_search_finds_waiting(start, index);
        lemma_search_finds_plans(start, index);
        assert(plan_views(done@)[done.len() - 1] == done[done.len() - 1]@);
        assert forall|i: int| 0 <= i < done.len() implies is_plan_from(
            (#[trigger] done[i])@,
            start,
            index,
        ) && done[i].actions.len() <= 4 by {
            assert(plan_views(done@)[i] == done[i]@);
            assert(search(start, index)[i] == done[i]@);
        }
    }
    done
}

} // verus!
