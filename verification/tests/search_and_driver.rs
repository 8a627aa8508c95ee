use grove_planner::actions::get_possible_actions;
use grove_planner::board::Cell;
use grove_planner::driver::{choose_action, get_next_action, select_plan};
use grove_planner::income::{
    get_estimated_sunpoints, get_estimated_sunpoints_for_enemy, get_richness_score,
};
use grove_planner::input::{game_state_of, is_set, tree_from_record, InitialInput, TurnInput};
use grove_planner::order::action_to_order;
use grove_planner::reach::get_seedable_cells;
use grove_planner::search::{get_possible_actions_for_day, is_searchable, ListOfActionsForDay};
use grove_planner::simulate::simulate_action;
use grove_planner::state::{Action, GameState, Tree};

const STEPS: [(i32, i32, i32); 6] =
    [(1, -1, 0), (1, 0, -1), (0, 1, -1), (-1, 1, 0), (-1, 0, 1), (0, -1, 1)];

fn board() -> Vec<Cell> {
    let mut places: Vec<(i32, i32, i32)> = vec![(0, 0, 0)];
    let mut at = STEPS[0];
    for distance in 1..=3 {
        for side in 0..6 {
            for _ in 0..distance {
                places.push(at);
                let step = STEPS[(side + 2) % 6];
                at = (at.0 + step.0, at.1 + step.1, at.2 + step.2);
            }
        }
        at = (at.0 + STEPS[0].0, at.1 + STEPS[0].1, at.2 + STEPS[0].2);
    }
    let mut cells = Vec::new();
    for (i, place) in places.iter().enumerate() {
        let ring = (place.0.abs() + place.1.abs() + place.2.abs()) / 2;
        let mut neighbours = [-1; 6];
        for (d, step) in STEPS.iter().enumerate() {
            let next = (place.0 + step.0, place.1 + step.1, place.2 + step.2);
            if let Some(j) = places.iter().position(|other| *other == next) {
                neighbours[d] = j as i32;
            }
        }
        let richness = if ring <= 1 { 3 } else if ring == 2 { 2 } else { 1 };
        cells.push(Cell { index: i as i32, richness, neighbours });
    }
    cells
}

fn mine(cells: &Vec<Cell>, cell: i32, size: i32) -> Tree {
    Tree { cell_index: cell, size, is_mine: true, is_dormant: false, cell: cells[cell as usize] }
}

fn theirs(cells: &Vec<Cell>, cell: i32, size: i32) -> Tree {
    Tree { cell_index: cell, size, is_mine: false, is_dormant: false, cell: cells[cell as usize] }
}

fn state(day: i32, sunpoints: i32, my_trees: Vec<Tree>, opponent_trees: Vec<Tree>) -> GameState {
    GameState {
        cells: board(),
        day,
        score: 0,
        nutrients: 20,
        sunpoints,
        my_trees,
        opponent_trees,
        opponent_score: 0,
    }
}

fn centre_state() -> GameState {
    let cells = board();
    state(5, 10, vec![mine(&cells, 0, 3), mine(&cells, 1, 1)], vec![theirs(&cells, 7, 2)])
}

fn mixed_state() -> GameState {
    let cells = board();
    state(
        3,
        20,
        vec![mine(&cells, 22, 1), mine(&cells, 31, 2), mine(&cells, 5, 3), mine(&cells, 17, 0)],
        vec![theirs(&cells, 7, 2), theirs(&cells, 12, 3)],
    )
}

/// The value of a state: the score weighs more and the income less as the
/// game goes on; soil and stored energy break ties.
fn evaluate(state: &GameState) -> f32 {
    let mut my_total = 0.0f32;
    let mut their_total = 0.0f32;
    for ahead in 1..=6 {
        my_total += get_estimated_sunpoints(state, ahead)
            .iter()
            .map(|gathered| *gathered as f32 / ahead as f32)
            .fold(0.0, |a, b| a + b);
        their_total += get_estimated_sunpoints_for_enemy(state, ahead)
            .iter()
            .map(|gathered| *gathered as f32 / ahead as f32)
            .fold(0.0, |a, b| a + b);
    }
    let my_rate = my_total / 6.0;
    let their_rate = their_total / 6.0;
    let completion = (state.day as f32 / 23.0).powf(3.0);
    let score_value = (1.0 + state.score as f32).powf(completion);
    let my_value = (1.0 + my_rate).powf(1.0 - completion);
    let their_value = (1.0 + their_rate).powf(1.0 - completion);
    let sun_value = my_value - their_value * (1.0 - completion);
    score_value * sun_value
        + get_richness_score(state) as f32 / 10000.0
        + state.sunpoints as f32 / 1000.0
}

/// An integer that orders values as `<` orders them; none for a value that
/// is not a number or lies below every finite number.
fn rank(value: f32) -> Option<i64> {
    if value.is_nan() || value < f32::MIN {
        return None;
    }
    let bits = value.to_bits();
    let magnitude = (bits & 0x7fff_ffff) as i64;
    Some(if bits >> 31 == 1 { -magnitude } else { magnitude })
}

fn plan(actions: Vec<Action>) -> ListOfActionsForDay {
    let length = actions.len() as i32 - 1;
    ListOfActionsForDay { game_state: state(0, 0, Vec::new(), Vec::new()), actions, length }
}

#[test]
fn search_from_an_idle_state_finds_the_waiting_plan_only() {
    let cells = board();
    let index = get_seedable_cells(&cells);
    let start = state(0, 0, vec![mine(&cells, 30, 0)], Vec::new());
    let plans = get_possible_actions_for_day(&start, &index);
    assert_eq!(plans.len(), 1);
    assert_eq!(plans[0].actions, vec![Action::Wait]);
    assert_eq!(plans[0].length, 0);
    assert_eq!(plans[0].game_state, simulate_action(&start, Action::Wait));
    assert_eq!(plans[0].game_state.day, 1);
}

#[test]
fn search_lists_plans_in_the_order_of_the_stack() {
    let cells = board();
    let index = get_seedable_cells(&cells);
    let start = state(2, 3, vec![mine(&cells, 0, 1)], Vec::new());
    let plans = get_possible_actions_for_day(&start, &index);
    let found: Vec<Vec<Action>> = plans.iter().map(|plan| plan.actions.clone()).collect();
    assert_eq!(
        found,
        vec![
            vec![Action::Seed(0, 6), Action::Wait],
            vec![Action::Seed(0, 5), Action::Wait],
            vec![Action::Seed(0, 4), Action::Wait],
            vec![Action::Seed(0, 3), Action::Wait],
            vec![Action::Seed(0, 2), Action::Wait],
            vec![Action::Seed(0, 1), Action::Wait],
            vec![Action::Grow(0), Action::Wait],
            vec![Action::Wait],
        ]
    );
    let energy: Vec<i32> = plans.iter().map(|plan| plan.game_state.sunpoints).collect();
    assert_eq!(energy, vec![4, 4, 4, 4, 4, 4, 2, 4]);
    let lengths: Vec<i32> = plans.iter().map(|plan| plan.length).collect();
    assert_eq!(lengths, vec![1, 1, 1, 1, 1, 1, 1, 0]);
    assert!(plans.iter().all(|plan| plan.game_state.day == 3));
    assert_eq!(plans[6].game_state.my_trees, vec![mine(&cells, 0, 2)]);
    assert_eq!(
        plans[0].game_state.my_trees,
        vec![
            mine(&cells, 0, 1),
            Tree { cell_index: 6, size: 0, is_mine: true, is_dormant: false, cell: cells[6] }
        ]
    );
}

#[test]
fn search_closes_a_plan_after_three_moves() {
    let index = get_seedable_cells(&board());
    let plans = get_possible_actions_for_day(&mixed_state(), &index);
    assert_eq!(plans.len(), 55);
    assert_eq!(
        plans[0].actions,
        vec![Action::Complete(5), Action::Grow(31), Action::Grow(22), Action::Wait]
    );
    assert_eq!(plans[0].length, 3);
    assert_eq!(plans[0].game_state.sunpoints, 11);
    assert_eq!(plans[0].game_state.score, 24);
    assert_eq!(plans[0].game_state.day, 4);
    assert_eq!(plans[1].actions, vec![Action::Complete(5), Action::Grow(31), Action::Wait]);
    assert_eq!(plans[1].length, 2);
    assert_eq!(plans[1].game_state.sunpoints, 13);
    assert_eq!(
        plans[2].actions,
        vec![Action::Complete(5), Action::Grow(22), Action::Grow(17), Action::Wait]
    );
    assert_eq!(plans[2].game_state.sunpoints, 15);
    assert_eq!(
        plans[43].actions,
        vec![Action::Grow(22), Action::Grow(17), Action::Seed(31, 14), Action::Wait]
    );
    assert_eq!(plans[43].game_state.sunpoints, 20);
    assert_eq!(plans[43].game_state.my_trees.len(), 5);
    assert_eq!(plans[53].actions, vec![Action::Grow(22), Action::Wait]);
    assert_eq!(plans[53].game_state.sunpoints, 21);
    assert_eq!(plans[54].actions, vec![Action::Wait]);
    assert_eq!(plans[54].game_state.sunpoints, 24);
    assert_eq!(plans.iter().filter(|plan| plan.actions.len() == 4).count(), 44);
    assert_eq!(plans.iter().filter(|plan| plan.actions.len() == 3).count(), 7);
    assert_eq!(plans.iter().filter(|plan| plan.actions.len() == 2).count(), 3);
    assert_eq!(plans.iter().filter(|plan| plan.actions.len() == 1).count(), 1);
}

#[test]
fn search_always_ends_with_the_waiting_plan() {
    let index = get_seedable_cells(&board());
    for start in [centre_state(), mixed_state(), state(23, 0, Vec::new(), Vec::new())] {
        let plans = get_possible_actions_for_day(&start, &index);
        assert!(!plans.is_empty());
        let last = &plans[plans.len() - 1];
        assert_eq!(last.actions, vec![Action::Wait]);
        assert_eq!(last.game_state, simulate_action(&start, Action::Wait));
    }
}

#[test]
fn every_plan_ends_with_its_only_wait_and_leads_to_its_state() {
    let index = get_seedable_cells(&board());
    let start = centre_state();
    let plans = get_possible_actions_for_day(&start, &index);
    assert_eq!(plans.len(), 120);
    for plan in plans.iter() {
        assert!(plan.actions.len() <= 4);
        assert_eq!(plan.length, plan.actions.len() as i32 - 1);
        assert_eq!(*plan.actions.last().unwrap(), Action::Wait);
        assert!(plan.actions[..plan.actions.len() - 1].iter().all(|a| *a != Action::Wait));
        let mut reached = start.clone();
        for action in plan.actions.iter() {
            assert!(get_possible_actions(&reached, &index).contains(action));
            reached = simulate_action(&reached, *action);
        }
        assert_eq!(reached, plan.game_state);
        assert!(plan.game_state.is_well_formed());
        assert_eq!(plan.game_state.day, 6);
    }
    assert_eq!(plans[0].actions, vec![Action::Seed(1, 18), Action::Complete(0), Action::Wait]);
    assert_eq!(plans[0].game_state.sunpoints, 7);
    assert_eq!(plans[0].game_state.score, 24);
    assert_eq!(plans[1].actions, vec![Action::Seed(1, 18), Action::Wait]);
    assert_eq!(plans[117].actions, vec![Action::Complete(0), Action::Grow(1), Action::Wait]);
    assert_eq!(plans[117].game_state.sunpoints, 5);
    assert_eq!(plans[118].actions, vec![Action::Complete(0), Action::Wait]);
}

#[test]
fn search_leaves_the_given_state_alone() {
    let index = get_seedable_cells(&board());
    let start = mixed_state();
    let _ = get_possible_actions_for_day(&start, &index);
    assert_eq!(start, mixed_state());
}

#[test]
fn states_without_room_cannot_be_searched() {
    assert!(is_searchable(&centre_state()));
    let mut malformed = centre_state();
    malformed.day = 24;
    assert!(!is_searchable(&malformed));
    let mut rich = centre_state();
    rich.sunpoints = i32::MAX - 111;
    assert!(is_searchable(&rich));
    rich.sunpoints = i32::MAX - 110;
    assert!(!is_searchable(&rich));
    let mut high = centre_state();
    high.score = i32::MAX - 72;
    assert!(is_searchable(&high));
    high.score = i32::MAX - 71;
    assert!(!is_searchable(&high));
    let mut low = centre_state();
    low.score = i32::MIN;
    assert!(is_searchable(&low));
    low.nutrients = 1;
    assert!(!is_searchable(&low));
    low.nutrients = 2;
    assert!(is_searchable(&low));
}

#[test]
fn highest_rank_wins() {
    assert_eq!(select_plan(&vec![Some(1), Some(7), Some(3)]), Some(1));
    assert_eq!(select_plan(&vec![Some(-1), Some(-7), Some(-3)]), Some(0));
    assert_eq!(select_plan(&vec![Some(4)]), Some(0));
    assert_eq!(select_plan(&vec![Some(i64::MIN), Some(i64::MAX)]), Some(1));
}

#[test]
fn last_of_equal_ranks_wins() {
    assert_eq!(select_plan(&vec![Some(7), Some(7), Some(3)]), Some(1));
    assert_eq!(select_plan(&vec![Some(2), Some(2), Some(2)]), Some(2));
    assert_eq!(select_plan(&vec![Some(9), Some(1), Some(9), Some(1)]), Some(2));
    assert_eq!(select_plan(&vec![Some(i64::MIN), Some(i64::MIN)]), Some(1));
}

#[test]
fn entries_without_a_rank_never_win() {
    assert_eq!(select_plan(&Vec::new()), None);
    assert_eq!(select_plan(&vec![None, None]), None);
    assert_eq!(select_plan(&vec![None, Some(i64::MIN), None]), Some(1));
    assert_eq!(select_plan(&vec![Some(3), None, Some(3), None]), Some(2));
    assert_eq!(select_plan(&vec![Some(0), None]), Some(0));
}

#[test]
fn first_move_of_the_winning_plan_is_chosen() {
    let plans = vec![
        plan(vec![Action::Grow(3), Action::Wait]),
        plan(vec![Action::Seed(1, 2), Action::Complete(4), Action::Wait]),
        plan(vec![Action::Wait]),
    ];
    assert_eq!(choose_action(&plans, &vec![Some(5), Some(9), Some(1)]), Action::Seed(1, 2));
    assert_eq!(choose_action(&plans, &vec![Some(5), Some(5), Some(1)]), Action::Seed(1, 2));
    assert_eq!(choose_action(&plans, &vec![Some(5), None, Some(1)]), Action::Grow(3));
    assert_eq!(choose_action(&plans, &vec![Some(5), Some(5), Some(5)]), Action::Wait);
    assert_eq!(choose_action(&plans, &vec![None, None, None]), Action::Wait);
    assert_eq!(choose_action(&Vec::new(), &Vec::new()), Action::Wait);
    let no_wait = vec![plan(vec![Action::Grow(3)])];
    assert_eq!(choose_action(&no_wait, &vec![None]), Action::Wait);
    assert_eq!(choose_action(&no_wait, &vec![Some(0)]), Action::Grow(3));
}

#[test]
fn ranks_order_values_as_numbers() {
    let values = [f32::MIN, -2.5, -0.0, 0.0, 1.0e-30, 1.0, 25.0, f32::MAX, f32::INFINITY];
    for pair in values.windows(2) {
        assert!(rank(pair[0]) <= rank(pair[1]));
        assert_eq!(rank(pair[0]) == rank(pair[1]), pair[0] == pair[1]);
    }
    assert_eq!(rank(f32::NAN), None);
    assert_eq!(rank(f32::NEG_INFINITY), None);
    assert!(rank(f32::MIN).is_some());
}

#[test]
fn driver_waits_when_nothing_else_is_open() {
    let cells = board();
    let index = get_seedable_cells(&cells);
    let start = state(0, 0, vec![mine(&cells, 30, 0)], Vec::new());
    let action = get_next_action(start, &index, |state: &GameState| rank(evaluate(state)));
    assert_eq!(action, Action::Wait);
    assert_eq!(action_to_order(action), "WAIT");
}

#[test]
fn driver_harvests_late_in_the_game() {
    let cells = board();
    let index = get_seedable_cells(&cells);
    let start = state(22, 4, vec![mine(&cells, 0, 3)], Vec::new());
    let harvested = simulate_action(&simulate_action(&start, Action::Complete(0)), Action::Wait);
    let waited = simulate_action(&start, Action::Wait);
    assert_eq!(harvested.score, 24);
    assert_eq!(harvested.day, 23);
    assert!(evaluate(&harvested) > evaluate(&waited));
    assert_eq!(evaluate(&harvested), 25.0);
    let plans = get_possible_actions_for_day(&start, &index);
    assert_eq!(plans.len(), 38);
    assert_eq!(plans[36].actions, vec![Action::Complete(0), Action::Wait]);
    for (i, plan) in plans.iter().enumerate() {
        if i != 36 {
            assert!(evaluate(&plan.game_state) < evaluate(&plans[36].game_state));
        }
    }
    let action = get_next_action(start, &index, |state: &GameState| rank(evaluate(state)));
    assert_eq!(action, Action::Complete(0));
    assert_eq!(action_to_order(action), "COMPLETE 0");
}

#[test]
fn driver_keeps_growing_early_in_the_game() {
    let index = get_seedable_cells(&board());
    let start = mixed_state();
    let plans = get_possible_actions_for_day(&start, &index);
    let ranks: Vec<Option<i64>> = plans.iter().map(|plan| rank(evaluate(&plan.game_state))).collect();
    let best = select_plan(&ranks).unwrap();
    let action = get_next_action(start, &index, |state: &GameState| rank(evaluate(state)));
    assert_eq!(action, plans[best].actions[0]);
    assert_eq!(action, choose_action(&plans, &ranks));
    for (i, value) in ranks.iter().enumerate() {
        assert!(*value <= ranks[best]);
        if i > best {
            assert!(*value < ranks[best]);
        }
    }
}

#[test]
fn driver_follows_the_evaluator() {
    let index = get_seedable_cells(&board());
    let by_energy =
        get_next_action(mixed_state(), &index, |state: &GameState| Some(state.sunpoints as i64));
    assert_eq!(by_energy, Action::Wait);
    let by_score_then_energy = get_next_action(mixed_state(), &index, |state: &GameState| {
        Some(state.score as i64 * 1000 + state.sunpoints as i64)
    });
    assert_eq!(by_score_then_energy, Action::Complete(5));
    let by_grown_then_energy = get_next_action(mixed_state(), &index, |state: &GameState| {
        let grown = state.my_trees.iter().filter(|tree| tree.size == 3).count() as i64;
        Some(grown * 1000 + state.sunpoints as i64)
    });
    assert_eq!(by_grown_then_energy, Action::Grow(31));
    let by_units = get_next_action(mixed_state(), &index, |state: &GameState| {
        Some(state.my_trees.len() as i64 * 1000 + state.sunpoints as i64)
    });
    assert_eq!(by_units, Action::Grow(22));
}

#[test]
fn driver_breaks_ties_towards_the_plan_found_last() {
    let index = get_seedable_cells(&board());
    let indifferent = get_next_action(mixed_state(), &index, |_: &GameState| Some(0));
    assert_eq!(indifferent, Action::Wait);
    let unranked = get_next_action(mixed_state(), &index, |_: &GameState| None);
    assert_eq!(unranked, Action::Wait);
    let harvest_or_nothing = get_next_action(mixed_state(), &index, |state: &GameState| {
        if state.score > 0 {
            Some(1)
        } else {
            None
        }
    });
    assert_eq!(harvest_or_nothing, Action::Grow(22));
}

#[test]
fn orders_are_written_in_the_wire_format() {
    assert_eq!(action_to_order(Action::Wait), "WAIT");
    assert_eq!(action_to_order(Action::Grow(5)), "GROW 5");
    assert_eq!(action_to_order(Action::Seed(12, 30)), "SEED 12 30");
    assert_eq!(action_to_order(Action::Complete(36)), "COMPLETE 36");
}

#[test]
fn orders_write_every_integer_in_decimal() {
    assert_eq!(action_to_order(Action::Grow(0)), "GROW 0");
    assert_eq!(action_to_order(Action::Grow(9)), "GROW 9");
    assert_eq!(action_to_order(Action::Grow(10)), "GROW 10");
    assert_eq!(action_to_order(Action::Grow(1234567890)), "GROW 1234567890");
    assert_eq!(action_to_order(Action::Grow(-1)), "GROW -1");
    assert_eq!(action_to_order(Action::Complete(i32::MAX)), "COMPLETE 2147483647");
    assert_eq!(action_to_order(Action::Complete(i32::MIN)), "COMPLETE -2147483648");
    assert_eq!(action_to_order(Action::Seed(-40, 105)), "SEED -40 105");
    for cell in -50..50 {
        assert_eq!(action_to_order(Action::Seed(cell, cell * 7)), format!("SEED {} {}", cell, cell * 7));
    }
}

#[test]
fn flags_are_set_by_one_only() {
    assert!(is_set(1));
    assert!(!is_set(0));
    assert!(!is_set(2));
    assert!(!is_set(-1));
}

#[test]
fn units_are_built_from_their_records() {
    let cells = board();
    assert_eq!(
        tree_from_record(7, 2, 1, 0, &cells),
        Tree { cell_index: 7, size: 2, is_mine: true, is_dormant: false, cell: cells[7] }
    );
    assert_eq!(
        tree_from_record(36, 0, 0, 1, &cells),
        Tree { cell_index: 36, size: 0, is_mine: false, is_dormant: true, cell: cells[36] }
    );
    assert_eq!(tree_from_record(0, 9, 5, -1, &cells), Tree {
        cell_index: 0,
        size: 9,
        is_mine: false,
        is_dormant: false,
        cell: cells[0]
    });
}

#[test]
fn units_are_filed_by_owner_and_states_built_from_inputs() {
    let cells = board();
    let initial = InitialInput { number_of_cells: 37, cells: cells.clone() };
    let mut turn = TurnInput {
        day: 3,
        nutrients: 20,
        sunpoints: 20,
        score: 0,
        opponent_sunpoints: 11,
        opponent_score: 0,
        opponent_is_waiting: false,
        my_trees: Vec::new(),
        opponent_trees: Vec::new(),
        possible_actions: vec!["WAIT".to_string()],
    };
    for (cell, size, is_mine) in [(22, 1, 1), (7, 2, 0), (31, 2, 1), (5, 3, 1), (12, 3, 0), (17, 0, 1)] {
        turn.add_tree(tree_from_record(cell, size, is_mine, 0, &cells));
    }
    assert_eq!(turn.my_trees, mixed_state().my_trees);
    assert_eq!(turn.opponent_trees, mixed_state().opponent_trees);
    assert_eq!(turn.possible_actions, vec!["WAIT".to_string()]);
    assert_eq!(turn.opponent_sunpoints, 11);
    assert_eq!(game_state_of(&initial, &turn), mixed_state());
    turn.score = 8;
    turn.opponent_score = 9;
    turn.day = 4;
    let built = game_state_of(&initial, &turn);
    assert_eq!((built.score, built.opponent_score, built.day), (8, 9, 4));
}
