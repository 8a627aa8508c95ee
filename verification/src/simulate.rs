//! The transition simulator: what a state becomes when I make a move.

use crate::board::{valid_cell, Cell};
use crate::cost::{
    base_cost, count_of_size, get_sun_cost_to_grow, grow_cost, harvest_score,
    lemma_grow_cost_bounds, HARVEST_COST,
};
use crate::income::{all_trees_of, get_sunpoint_rate};
use crate::state::{
    lemma_wf_unit_count, occupied, valid_tree, Action, GameState, State, Tree, LAST_DAY,
};
use vstd::prelude::*;

verus! {

/// The index of the first unit of `trees`, from index `from` on, that
/// stands on `cell`; the length of `trees` when there is none.
pub open spec fn find_unit(trees: Seq<Tree>, cell: int, from: int) -> int
    decreases trees.len() - from,
{
    if from < 0 || from >= trees.len() {
        trees.len() as int
    } else if trees[from].cell_index == cell {
        from
    } else {
        find_unit(trees, cell, from + 1)
    }
}

/// The index of the first unit of `trees` that stands on `cell`; the
/// length of `trees` when there is none.
pub open spec fn unit_on(trees: Seq<Tree>, cell: int) -> int {
    find_unit(trees, cell, 0)
}

/// Some unit of `trees` stands on `cell`.
pub open spec fn has_unit(trees: Seq<Tree>, cell: int) -> bool {
    unit_on(trees, cell) < trees.len()
}

/// The unit `tree` after a night: no longer dormant.
pub open spec fn awake(tree: Tree) -> Tree {
    Tree { is_dormant: false, ..tree }
}

/// The unit `tree` after it has acted: dormant.
pub open spec fn asleep(tree: Tree) -> Tree {
    Tree { is_dormant: true, ..tree }
}

/// The unit `tree` grown by one size, dormant.
pub open spec fn grown(tree: Tree) -> Tree {
    Tree { size: (tree.size + 1) as i32, is_dormant: true, ..tree }
}

/// A seed of mine, just planted on the cell `cell` of the board.
pub open spec fn seed_on(cells: Seq<Cell>, cell: int) -> Tree {
    Tree { cell_index: cell as i32, size: 0, is_mine: true, is_dormant: true, cell: cells[cell] }
}

/// The action can be carried out in the state: the unit that acts exists,
/// a unit that grows is not fully grown, and a seed goes to a free cell of
/// the board.
pub open spec fn applicable(s: State, action: Action) -> bool {
    match action {
        Action::Wait => true,
        Action::Grow(target) => has_unit(s.my_trees, target as int) && s.my_trees[unit_on(
            s.my_trees,
            target as int,
        )].size < 3,
        Action::Complete(target) => has_unit(s.my_trees, target as int),
        Action::Seed(source, target) => has_unit(s.my_trees, source as int) && 0 <= target < 37
            && !occupied(s.all_trees(), target as int),
    }
}

/// The state that follows `s` when I make the move `action`.
///
/// - `Wait` ends the day: my units wake up, I gather the income of the next
///   day, and the day advances unless it is the last.
/// - `Grow` makes the unit one size larger and dormant, and costs the price
///   of the new size, counted over my units as they were.
/// - `Complete` removes the unit, adds its harvest to my score and costs
///   the harvest price.
/// - `Seed` appends a dormant seed on the target cell after my units and
///   makes the planting unit dormant; it costs nothing.
///
/// Nothing else changes; in particular no unit of my opponent does.
pub open spec fn step(s: State, action: Action) -> State {
    match action {
        Action::Wait => State {
            my_trees: s.my_trees.map_values(|tree: Tree| awake(tree)),
            sunpoints: s.sunpoints + s.income(),
            day: if s.day < LAST_DAY {
                s.day + 1
            } else {
                s.day
            },
            ..s
        },
        Action::Grow(target) => {
            let at = unit_on(s.my_trees, target as int);
            State {
                my_trees: s.my_trees.update(at, grown(s.my_trees[at])),
                sunpoints: s.sunpoints - grow_cost(s.my_trees[at].size + 1, s.my_trees),
                ..s
            }
        },
        Action::Complete(target) => {
            let at = unit_on(s.my_trees, target as int);
            State {
                my_trees: s.my_trees.remove(at),
                score: s.score + harvest_score(s.nutrients, s.my_trees[at].cell),
                sunpoints: s.sunpoints - HARVEST_COST,
                ..s
            }
        },
        Action::Seed(source, target) => {
            let at = unit_on(s.my_trees, source as int);
            State {
                my_trees: s.my_trees.update(at, asleep(s.my_trees[at])).push(
                    seed_on(s.cells, target as int),
                ),
                ..s
            }
        },
    }
}

/// `find_unit` returns the first unit on the cell at or after `from`.
proof fn lemma_find_unit(trees: Seq<Tree>, cell: int, from: int)
    requires
        0 <= from <= trees.len(),
    ensures
        from <= find_unit(trees, cell, from) <= trees.len(),
        find_unit(trees, cell, from) < trees.len() ==> trees[find_unit(
            trees,
            cell,
            from,
        )].cell_index == cell,
        forall|j: int| from <= j < find_unit(trees, cell, from) ==> (#[trigger] trees[j]).cell_index != cell,
    decreases trees.len() - from,
{
    if from < trees.len() && trees[from].cell_index != cell {
        lemma_find_unit(trees, cell, from + 1);
    }
}

/// A cell has a unit exactly when it is occupied, and `unit_on` then gives
/// the first unit on it.
proof fn lemma_unit_on(trees: Seq<Tree>, cell: int)
    ensures
        has_unit(trees, cell) <==> occupied(trees, cell),
        0 <= unit_on(trees, cell) <= trees.len(),
        has_unit(trees, cell) ==> trees[unit_on(trees, cell)].cell_index == cell,
        forall|j: int| 0 <= j < unit_on(trees, cell) ==> (#[trigger] trees[j]).cell_index != cell,
{
    lemma_find_unit(trees, cell, 0);
    if has_unit(trees, cell) {
        assert(trees[unit_on(trees, cell)].cell_index == cell);
    }
    if occupied(trees, cell) {
        let i = choose|i: int| 0 <= i < trees.len() && (#[trigger] trees[i]).cell_index == cell;
        if unit_on(trees, cell) > i {
            assert(trees[i].cell_index != cell);
        }
    }
}

/// A move that can be carried out leads from a well-formed state to a
/// well-formed state.
pub proof fn lemma_step_keeps_wf(s: State, action: Action)
    requires
        s.wf(),
        applicable(s, action),
    ensures
        step(s, action).wf(),
{
    let next = step(s, action);
    let mine = s.my_trees;
    let n = mine.len() as int;
    match action {
        Action::Wait => {
            assert forall|i: int| 0 <= i < next.my_trees.len() implies valid_tree(
                #[trigger] next.my_trees[i],
                next.cells,
            ) by {
                assert(valid_tree(mine[i], s.cells));
            }
            assert forall|i: int, j: int| 0 <= i < j < next.all_trees().len() implies (
            #[trigger] next.all_trees()[i]).cell_index != (#[trigger] next.all_trees()[j]).cell_index by {
                assert(next.all_trees()[i].cell_index == s.all_trees()[i].cell_index);
                assert(next.all_trees()[j].cell_index == s.all_trees()[j].cell_index);
            }
        },
        Action::Grow(target) => {
            lemma_unit_on(mine, target as int);
            let at = unit_on(mine, target as int);
            assert(valid_tree(mine[at], s.cells));
            assert forall|i: int| 0 <= i < next.my_trees.len() implies valid_tree(
                #[trigger] next.my_trees[i],
                next.cells,
            ) by {
                assert(valid_tree(mine[i], s.cells));
            }
            assert forall|i: int, j: int| 0 <= i < j < next.all_trees().len() implies (
            #[trigger] next.all_trees()[i]).cell_index != (#[trigger] next.all_trees()[j]).cell_index by {
                assert(next.all_trees()[i].cell_index == s.all_trees()[i].cell_index);
                assert(next.all_trees()[j].cell_index == s.all_trees()[j].cell_index);
            }
        },
        Action::Complete(target) => {
            lemma_unit_on(mine, target as int);
            let at = unit_on(mine, target as int);
            assert forall|i: int| 0 <= i < next.my_trees.len() implies valid_tree(
                #[trigger] next.my_trees[i],
                next.cells,
            ) by {
                if i < at {
                    assert(valid_tree(mine[i], s.cells));
                } else {
                    assert(valid_tree(mine[i + 1], s.cells));
                }
            }
            assert forall|i: int, j: int| 0 <= i < j < next.all_trees().len() implies (
            #[trigger] next.all_trees()[i]).cell_index != (#[trigger] next.all_trees()[j]).cell_index by {
                let a = if i < at {
                    i
                } else {
                    i + 1
                };
                let b = if j < at {
                    j
                } else {
                    j + 1
                };
                assert(next.all_trees()[i] == s.all_trees()[a]);
                assert(next.all_trees()[j] == s.all_trees()[b]);
                assert(s.all_trees()[a].cell_index != s.all_trees()[b].cell_index);
            }
        },
        Action::Seed(source, target) => {
            lemma_unit_on(mine, source as int);
            let at = unit_on(mine, source as int);
            assert(valid_cell(s.cells[target as int], target as int));
            assert forall|i: int| 0 <= i < next.my_trees.len() implies valid_tree(
                #[trigger] next.my_trees[i],
                next.cells,
            ) by {
                if i < n {
                    assert(valid_tree(mine[i], s.cells));
                }
            }
            assert forall|i: int, j: int| 0 <= i < j < next.all_trees().len() implies (
            #[trigger] next.all_trees()[i]).cell_index != (#[trigger] next.all_trees()[j]).cell_index by {
                // positions in the old list of all units; the seed sits at `n`
                if i != n && j != n {
                    let a = if i < n {
                        i
                    } else {
                        i - 1
                    };
                    let b = if j < n {
                        j
                    } else {
                        j - 1
                    };
                    assert(next.all_trees()[i].cell_index == s.all_trees()[a].cell_index);
                    assert(next.all_trees()[j].cell_index == s.all_trees()[b].cell_index);
                    assert(s.all_trees()[a].cell_index != s.all_trees()[b].cell_index);
                } else if i == n {
                    assert(next.all_trees()[j].cell_index == s.all_trees()[j - 1].cell_index);
                } else {
                    assert(next.all_trees()[i].cell_index == s.all_trees()[i].cell_index);
                }
            }
        },
    }
}

/// In a well-formed state the unit of mine on a cell is the first and only
/// one there.
pub proof fn lemma_unit_is_unique(s: State, i: int)
    requires
        s.wf(),
        0 <= i < s.my_trees.len(),
    ensures
        unit_on(s.my_trees, s.my_trees[i].cell_index as int) == i,
{
    let cell = s.my_trees[i].cell_index as int;
    lemma_unit_on(s.my_trees, cell);
    let at = unit_on(s.my_trees, cell);
    if at < i {
        assert(s.all_trees()[at] == s.my_trees[at]);
        assert(s.all_trees()[i] == s.my_trees[i]);
        assert(s.all_trees()[at].cell_index != s.all_trees()[i].cell_index);
    }
}

/// Growing a unit costs the fixed price of its new size, which is 1 for
/// size 1, 3 for size 2 and 7 for size 3, plus the number of my units that
/// had that size before the growth. The unit becomes one size larger and
/// dormant; no other unit and no other counter changes.
pub proof fn lemma_grow_changes_one_unit(s: State, target: i32)
    requires
        applicable(s, Action::Grow(target)),
    ensures
        ({
            let at = unit_on(s.my_trees, target as int);
            let next = step(s, Action::Grow(target));
            let new_size = s.my_trees[at].size + 1;
            &&& 0 <= at < s.my_trees.len()
            &&& s.my_trees[at].cell_index == target
            &&& next.sunpoints == s.sunpoints - (base_cost(new_size) + count_of_size(
                s.my_trees,
                new_size,
                s.my_trees.len() as int,
            ))
            &&& base_cost(1) == 1 && base_cost(2) == 3 && base_cost(3) == 7
            &&& next.my_trees.len() == s.my_trees.len()
            &&& next.my_trees[at] == grown(s.my_trees[at])
            &&& next.my_trees[at].size == new_size && next.my_trees[at].is_dormant
            &&& forall|j: int|
                0 <= j < s.my_trees.len() && j != at ==> #[trigger] next.my_trees[j] == s.my_trees[j]
            &&& next.opponent_trees == s.opponent_trees
            &&& next.score == s.score
            &&& next.day == s.day
            &&& next.nutrients == s.nutrients
        }),
{
    lemma_unit_on(s.my_trees, target as int);
}

/// Harvesting a fully grown, awake unit of mine while I hold the harvest
/// price removes exactly that unit, leaves no unit of mine on its cell, and
/// adds the nutrient pool plus twice the fertility of its cell above 1 to
/// my score: more than before whenever that sum is positive.
pub proof fn lemma_harvest_removes_and_scores(s: State, i: int)
    requires
        s.wf(),
        0 <= i < s.my_trees.len(),
        s.my_trees[i].size == 3,
        !s.my_trees[i].is_dormant,
        s.sunpoints >= 4,
    ensures
        ({
            let unit = s.my_trees[i];
            let next = step(s, Action::Complete(unit.cell_index));
            let gain = s.nutrients + 2 * (s.cells[unit.cell_index as int].richness - 1);
            &&& applicable(s, Action::Complete(unit.cell_index))
            &&& next.my_trees == s.my_trees.remove(i)
            &&& next.my_trees.len() == s.my_trees.len() - 1
            &&& !occupied(next.my_trees, unit.cell_index as int)
            &&& next.score == s.score + gain
            &&& gain > 0 ==> next.score > s.score
            &&& next.sunpoints == s.sunpoints - 4
            &&& next.opponent_trees == s.opponent_trees
        }),
{
    let unit = s.my_trees[i];
    let cell = unit.cell_index as int;
    lemma_unit_is_unique(s, i);
    assert(valid_tree(unit, s.cells));
    let left = s.my_trees.remove(i);
    if occupied(left, cell) {
        let j = choose|j: int| 0 <= j < left.len() && (#[trigger] left[j]).cell_index == cell;
        let k = if j < i {
            j
        } else {
            j + 1
        };
        assert(left[j] == s.my_trees[k]);
        lemma_unit_is_unique(s, k);
    }
}

/// The day never runs backwards and never passes the last day: a move
/// leaves it or advances it by one, and ending the day again and again
/// stops at day 23.
pub proof fn lemma_day_is_capped(s: State, action: Action)
    requires
        s.wf(),
    ensures
        s.day <= step(s, action).day <= 23,
        step(s, action).day <= s.day + 1,
        step(step(s, Action::Wait), Action::Wait).day <= 23,
        step(s, Action::Wait).day <= step(step(s, Action::Wait), Action::Wait).day,
        s.day == 23 ==> step(s, Action::Wait).day == 23,
{
}

/// The index of the first unit of `trees` that stands on `cell`.
pub fn position_of(trees: &Vec<Tree>, cell: i32) -> (at: usize)
    ensures
        at == unit_on(trees@, cell as int),
        at <= trees.len(),
{
    let mut at: usize = 0;
    while at < trees.len() && trees[at].cell_index != cell
        invariant
            at <= trees.len(),
            find_unit(trees@, cell as int, at as int) == unit_on(trees@, cell as int),
        decreases trees.len() - at,
    {
        at += 1;
    }
    at
}

/// Tells whether `action` can be simulated in `game_state`: whether it can
/// be carried out and leads to a state whose counters fit their machine
/// integers.
pub fn can_simulate(game_state: &GameState, action: Action) -> (ok: bool)
    requires
        game_state.wf(),
    ensures
        ok == (applicable(game_state@, action) && step(game_state@, action).representable()),
{
    proof {
        lemma_wf_unit_count(game_state@);
    }
    match action {
        Action::Wait => {
            let income: i32 = get_sunpoint_rate(game_state);
            game_state.sunpoints as i64 + income as i64 <= i32::MAX as i64
        },
        Action::Grow(target) => {
            let at: usize = position_of(&game_state.my_trees, target);
            if at >= game_state.my_trees.len() {
                return false;
            }
            let tree: Tree = game_state.my_trees[at];
            if tree.size >= 3 {
                return false;
            }
            proof {
                assert(valid_tree(game_state.my_trees@[at as int], game_state.cells@));
                lemma_grow_cost_bounds(tree.size + 1, game_state.my_trees@);
            }
            let cost: i32 = get_sun_cost_to_grow(tree.size + 1, &game_state.my_trees);
            game_state.sunpoints as i64 - cost as i64 >= i32::MIN as i64
        },
        Action::Complete(target) => {
            let at: usize = position_of(&game_state.my_trees, target);
            if at >= game_state.my_trees.len() {
                return false;
            }
            let tree: Tree = game_state.my_trees[at];
            proof {
                assert(valid_tree(game_state.my_trees@[at as int], game_state.cells@));
                assert(valid_cell(
                    game_state.cells@[tree.cell_index as int],
                    tree.cell_index as int,
                ));
            }
            let bonus: i64 = 2 * (tree.cell.richness as i64 - 1);
            let score: i64 = game_state.score as i64 + game_state.nutrients as i64 + bonus;
            i32::MIN as i64 <= score && score <= i32::MAX as i64 && game_state.sunpoints as i64
                - 4 >= i32::MIN as i64
        },
        Action::Seed(source, target) => {
            let at: usize = position_of(&game_state.my_trees, source);
            if at >= game_state.my_trees.len() || target < 0 || target >= 37 {
                return false;
            }
            let all: Vec<Tree> = all_trees_of(game_state);
            proof {
                lemma_unit_on(all@, target as int);
            }
            position_of(&all, target) >= all.len()
        },
    }
}

/// Wakes every unit of `trees`.
fn wake_all(trees: &mut Vec<Tree>)
    ensures
        final(trees)@ == old(trees)@.map_values(|tree: Tree| awake(tree)),
{
    let mut i: usize = 0;
    while i < trees.len()
        invariant
            i <= trees.len(),
            trees.len() == old(trees).len(),
            forall|k: int| 0 <= k < i ==> #[trigger] trees@[k] == awake(old(trees)@[k]),
            forall|k: int| i <= k < trees.len() ==> #[trigger] trees@[k] == old(trees)@[k],
        decreases trees.len() - i,
    {
        let tree: Tree = trees[i];
        trees.set(
            i,
            Tree {
                cell_index: tree.cell_index,
                size: tree.size,
                is_mine: tree.is_mine,
                is_dormant: false,
                cell: tree.cell,
            },
        );
        i += 1;
    }
    assert(trees@ =~= old(trees)@.map_values(|tree: Tree| awake(tree)));
}

/// The state that follows `game_state` when I make the move `action`. The
/// given state is left as it is; the result shares nothing with it.
pub fn simulate_action(game_state: &GameState, action: Action) -> (next: GameState)
    requires
        game_state.wf(),
        applicable(game_state@, action),
        step(game_state@, action).representable(),
    ensures
        next@ == step(game_state@, action),
        next.wf(),
{
    let mut next: GameState = game_state.clone();
    proof {
        lemma_step_keeps_wf(game_state@, action);
        lemma_wf_unit_count(game_state@);
    }
    match action {
        Action::Wait => {
            let income: i32 = get_sunpoint_rate(game_state);
            wake_all(&mut next.my_trees);
            next.sunpoints = next.sunpoints + income;
            if next.day < LAST_DAY {
                next.day = next.day + 1;
            }
        },
        Action::Grow(target) => {
            let at: usize = position_of(&next.my_trees, target);
            let tree: Tree = next.my_trees[at];
            proof {
                assert(valid_tree(game_state.my_trees@[at as int], game_state.cells@));
                lemma_grow_cost_bounds(tree.size + 1, game_state.my_trees@);
            }
            let cost: i32 = get_sun_cost_to_grow(tree.size + 1, &game_state.my_trees);
            next.my_trees.set(
                at,
                Tree {
                    cell_index: tree.cell_index,
                    size: tree.size + 1,
                    is_mine: tree.is_mine,
                    is_dormant: true,
                    cell: tree.cell,
                },
            );
            next.sunpoints = next.sunpoints - cost;
        },
        Action::Seed(source, target) => {
            let at: usize = position_of(&next.my_trees, source);
            let tree: Tree = next.my_trees[at];
            next.my_trees.set(
                at,
                Tree {
                    cell_index: tree.cell_index,
                    size: tree.size,
                    is_mine: tree.is_mine,
                    is_dormant: true,
                    cell: tree.cell,
                },
            );
            let ground: Cell = next.cells[target as usize];
            next.my_trees.push(
                Tree { cell_index: target, size: 0, is_mine: true, is_dormant: true, cell: ground },
            );
        },
        Action::Complete(target) => {
            let at: usize = position_of(&next.my_trees, target);
            let tree: Tree = next.my_trees[at];
            proof {
                assert(valid_tree(game_state.my_trees@[at as int], game_state.cells@));
                assert(valid_cell(
                    game_state.cells@[tree.cell_index as int],
                    tree.cell_index as int,
                ));
            }
            let bonus: i64 = 2 * (tree.cell.richness as i64 - 1);
            next.score = (next.score as i64 + game_state.nutrients as i64 + bonus) as i32;
            next.my_trees.remove(at);
            next.sunpoints = next.sunpoints - HARVEST_COST;
        },
    }
    next
}

} // verus!
