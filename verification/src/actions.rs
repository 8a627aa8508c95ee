//! The action generator: the moves that are open to me in a state.

use crate::cost::{
    count_of_size, count_trees_of_size, get_sun_cost_to_grow, grow_cost, lemma_grow_cost_bounds,
    HARVEST_COST,
};
use crate::income::{all_trees_of, lemma_all_trees_valid};
use crate::reach::valid_index;
use crate::state::{
    lemma_wf_unit_count, occupied, valid_tree, valid_trees, Action, GameState, State, Tree, MAX_SIZE,
};
use vstd::prelude::*;

verus! {

/// A unit is not grown to size 1 while I own this many units of size 1.
pub const SIZE_1_CAP: usize = 1;

/// A unit is not grown to size 2 while I own this many units of size 2.
pub const SIZE_2_CAP: usize = 2;

/// The sequences `part(0)`, ..., `part(upto - 1)` one after the other.
pub open spec fn joined<T>(part: spec_fn(int) -> Seq<T>, upto: int) -> Seq<T>
    decreases upto,
{
    if upto <= 0 {
        Seq::empty()
    } else {
        joined(part, upto - 1) + part(upto - 1)
    }
}

/// A value occurs in joined sequences exactly when it occurs in one of
/// them.
proof fn lemma_joined_contains<T>(part: spec_fn(int) -> Seq<T>, upto: int, x: T)
    ensures
        joined(part, upto).contains(x) <==> exists|i: int| 0 <= i < upto && (#[trigger] part(i)).contains(x),
    decreases upto,
{
    if upto > 0 {
        lemma_joined_contains(part, upto - 1, x);
        let before = joined(part, upto - 1);
        let last = part(upto - 1);
        if joined(part, upto).contains(x) {
            let k = choose|k: int| 0 <= k < (before + last).len() && (before + last)[k] == x;
            if k < before.len() {
                assert(before[k] == x);
                let i = choose|i: int| 0 <= i < upto - 1 && (#[trigger] part(i)).contains(x);
                assert(0 <= i < upto && part(i).contains(x));
            } else {
                assert(last[k - before.len()] == x);
                assert(part(upto - 1).contains(x));
            }
        }
        if exists|i: int| 0 <= i < upto && (#[trigger] part(i)).contains(x) {
            let i = choose|i: int| 0 <= i < upto && (#[trigger] part(i)).contains(x);
            if i < upto - 1 {
                assert(before.contains(x));
                let k = choose|k: int| 0 <= k < before.len() && before[k] == x;
                assert((before + last)[k] == x);
            } else {
                let k = choose|k: int| 0 <= k < last.len() && last[k] == x;
                assert((before + last)[before.len() + k] == x);
            }
        }
    }
}

/// I can harvest `tree`: it is awake and fully grown, and I can pay for the
/// harvest.
pub open spec fn can_harvest(s: State, tree: Tree) -> bool {
    !tree.is_dormant && tree.size == MAX_SIZE && s.sunpoints >= HARVEST_COST
}

/// I may grow `tree`: it is awake and not fully grown, I can pay the price
/// of its next size, and I do not own too many units of that size: none of
/// size 1 for a seed, fewer than two of size 2 for a unit of size 1.
pub open spec fn can_grow(s: State, tree: Tree) -> bool {
    &&& !tree.is_dormant
    &&& tree.size < MAX_SIZE
    &&& grow_cost(tree.size + 1, s.my_trees) <= s.sunpoints
    &&& !(tree.size == 0 && count_of_size(s.my_trees, 1, s.my_trees.len() as int) >= SIZE_1_CAP)
    &&& !(tree.size == 1 && count_of_size(s.my_trees, 2, s.my_trees.len() as int) >= SIZE_2_CAP)
}

/// `tree` can plant: it is awake and larger than a seed.
pub open spec fn can_plant(tree: Tree) -> bool {
    tree.size > 0 && !tree.is_dormant
}

/// A seed can go to `cell`: it is a fertile cell of the board on which no
/// unit stands.
pub open spec fn usable(s: State, cell: int) -> bool {
    &&& 0 <= cell < 37
    &&& s.cells[cell].richness != 0
    &&& !occupied(s.all_trees(), cell)
}

/// I own no seed.
pub open spec fn no_seed(s: State) -> bool {
    count_of_size(s.my_trees, 0, s.my_trees.len() as int) == 0
}

/// The harvest and the growth of `tree`, as far as each is open to me, in
/// this order.
pub open spec fn growth_moves(s: State, tree: Tree) -> Seq<Action> {
    (if can_harvest(s, tree) {
        seq![Action::Complete(tree.cell_index)]
    } else {
        Seq::empty()
    }) + (if can_grow(s, tree) {
        seq![Action::Grow(tree.cell_index)]
    } else {
        Seq::empty()
    })
}

/// The moves that plant from `source` on the `k`-th cell of `row`: one if
/// a seed can go there, none otherwise.
pub open spec fn seed_move(s: State, row: Seq<i32>, source: i32, k: int) -> Seq<Action> {
    if usable(s, row[k] as int) {
        seq![Action::Seed(source, row[k])]
    } else {
        Seq::empty()
    }
}

/// The planting list that `index` holds for `tree`.
pub open spec fn row_of(index: Seq<Seq<Seq<i32>>>, tree: Tree) -> Seq<i32> {
    index[tree.cell_index as int][tree.size - 1]
}

/// The plantings open to `tree`: one for each cell of its planting list to
/// which a seed can go, in the order of the list.
pub open spec fn seed_moves(s: State, index: Seq<Seq<Seq<i32>>>, tree: Tree) -> Seq<Action> {
    if can_plant(tree) {
        joined(
            |k: int| seed_move(s, row_of(index, tree), tree.cell_index, k),
            row_of(index, tree).len() as int,
        )
    } else {
        Seq::empty()
    }
}

/// The harvests and growths open to my first `upto` units, unit by unit.
pub open spec fn growth_moves_upto(s: State, upto: int) -> Seq<Action> {
    joined(|i: int| growth_moves(s, s.my_trees[i]), upto)
}

/// The plantings open to my first `upto` units, unit by unit.
pub open spec fn seed_moves_upto(s: State, index: Seq<Seq<Seq<i32>>>, upto: int) -> Seq<Action> {
    joined(|i: int| seed_moves(s, index, s.my_trees[i]), upto)
}

/// The moves open to me in the state `s`, in the order in which they are
/// tried: `Wait`; then, for each of my units in turn, its harvest and its
/// growth; then, if I own no seed, for each of my units in turn its
/// plantings.
pub open spec fn legal_actions(s: State, index: Seq<Seq<Seq<i32>>>) -> Seq<Action> {
    seq![Action::Wait] + growth_moves_upto(s, s.my_trees.len() as int) + (if no_seed(s) {
        seed_moves_upto(s, index, s.my_trees.len() as int)
    } else {
        Seq::empty()
    })
}

/// The rule that says when a move is open to me in the state `s`:
///
/// - `Wait` always is;
/// - `Complete` is for a unit of mine that I can harvest;
/// - `Grow` is for a unit of mine that I may grow;
/// - `Seed` is, while I own no seed, from a unit of mine that can plant to
///   a cell of its planting list to which a seed can go.
pub open spec fn legal(s: State, index: Seq<Seq<Seq<i32>>>, action: Action) -> bool {
    match action {
        Action::Wait => true,
        Action::Complete(target) => exists|i: int|
            0 <= i < s.my_trees.len() && (#[trigger] s.my_trees[i]).cell_index == target
                && can_harvest(s, s.my_trees[i]),
        Action::Grow(target) => exists|i: int|
            0 <= i < s.my_trees.len() && (#[trigger] s.my_trees[i]).cell_index == target && can_grow(
                s,
                s.my_trees[i],
            ),
        Action::Seed(source, target) => no_seed(s) && usable(s, target as int) && exists|i: int|
            0 <= i < s.my_trees.len() && (#[trigger] s.my_trees[i]).cell_index == source
                && can_plant(s.my_trees[i]) && row_of(index, s.my_trees[i]).contains(target),
    }
}

/// A value occurs in two sequences put together exactly when it occurs in
/// one of them.
proof fn lemma_concat_contains<T>(a: Seq<T>, b: Seq<T>, x: T)
    ensures
        (a + b).contains(x) <==> a.contains(x) || b.contains(x),
{
    if (a + b).contains(x) {
        let k = choose|k: int| 0 <= k < (a + b).len() && (a + b)[k] == x;
        if k < a.len() {
            assert(a[k] == x);
        } else {
            assert(b[k - a.len()] == x);
        }
    }
    if a.contains(x) {
        let k = choose|k: int| 0 <= k < a.len() && a[k] == x;
        assert((a + b)[k] == x);
    }
    if b.contains(x) {
        let k = choose|k: int| 0 <= k < b.len() && b[k] == x;
        assert((a + b)[a.len() + k] == x);
    }
}

/// The plantings listed for a unit are those that go from it to a cell of
/// its planting list to which a seed can go.
proof fn lemma_seed_moves(s: State, index: Seq<Seq<Seq<i32>>>, tree: Tree, action: Action)
    ensures
        seed_moves(s, index, tree).contains(action) <==> can_plant(tree) && exists|k: int|
            0 <= k < row_of(index, tree).len() && usable(s, #[trigger] row_of(index, tree)[k] as int)
                && action == Action::Seed(tree.cell_index, row_of(index, tree)[k]),
{
    let row = row_of(index, tree);
    let part = |k: int| seed_move(s, row_of(index, tree), tree.cell_index, k);
    lemma_joined_contains(part, row.len() as int, action);
    if seed_moves(s, index, tree).contains(action) {
        let k = choose|k: int| 0 <= k < row.len() && (#[trigger] part(k)).contains(action);
        assert(part(k) == seed_move(s, row, tree.cell_index, k));
        assert(usable(s, row[k] as int) && action == Action::Seed(tree.cell_index, row[k]));
    }
    if can_plant(tree) && exists|k: int|
        0 <= k < row.len() && usable(s, #[trigger] row[k] as int) && action == Action::Seed(
            tree.cell_index,
            row[k],
        ) {
        let k = choose|k: int|
            0 <= k < row.len() && usable(s, #[trigger] row[k] as int) && action == Action::Seed(
                tree.cell_index,
                row[k],
            );
        assert(part(k) == seq![action]);
        assert(part(k)[0] == action);
        assert(0 <= k < row.len() && part(k).contains(action));
    }
}

/// The generator lists exactly the moves that the rule opens to me: a move
/// occurs in `legal_actions` if and only if it is `legal`.
pub proof fn lemma_legal_actions(s: State, index: Seq<Seq<Seq<i32>>>, action: Action)
    ensures
        legal_actions(s, index).contains(action) <==> legal(s, index, action),
        legal_actions(s, index).len() >= 1,
        legal_actions(s, index)[0] == Action::Wait,
{
    let n = s.my_trees.len() as int;
    let head = seq![Action::Wait];
    let growths = growth_moves_upto(s, n);
    let seeds = if no_seed(s) {
        seed_moves_upto(s, index, n)
    } else {
        Seq::empty()
    };
    lemma_concat_contains(head + growths, seeds, action);
    lemma_concat_contains(head, growths, action);
    assert(head[0] == Action::Wait);
    assert(head.contains(action) <==> action == Action::Wait) by {
        if head.contains(action) {
            let k = choose|k: int| 0 <= k < head.len() && head[k] == action;
        }
    }
    let growth_part = |i: int| growth_moves(s, s.my_trees[i]);
    lemma_joined_contains(growth_part, n, action);
    assert(growths.contains(action) <==> (action is Complete || action is Grow) && legal(
        s,
        index,
        action,
    )) by {
        if growths.contains(action) {
            let i = choose|i: int| 0 <= i < n && (#[trigger] growth_part(i)).contains(action);
            let moves = growth_moves(s, s.my_trees[i]);
            let k = choose|k: int| 0 <= k < moves.len() && moves[k] == action;
            assert(s.my_trees[i].cell_index == s.my_trees[i].cell_index);
        }
        if (action is Complete || action is Grow) && legal(s, index, action) {
            match action {
                Action::Complete(target) => {
                    let i = choose|i: int|
                        0 <= i < n && (#[trigger] s.my_trees[i]).cell_index == target && can_harvest(
                            s,
                            s.my_trees[i],
                        );
                    assert(growth_part(i)[0] == action);
                    assert(0 <= i < n && growth_part(i).contains(action));
                },
                Action::Grow(target) => {
                    let i = choose|i: int|
                        0 <= i < n && (#[trigger] s.my_trees[i]).cell_index == target && can_grow(
                            s,
                            s.my_trees[i],
                        );
                    let moves = growth_part(i);
                    assert(moves[moves.len() - 1] == action);
                    assert(0 <= i < n && growth_part(i).contains(action));
                },
                _ => {},
            }
        }
    }
    let seed_part = |i: int| seed_moves(s, index, s.my_trees[i]);
    lemma_joined_contains(seed_part, n, action);
    assert(seeds.contains(action) <==> action is Seed && legal(s, index, action)) by {
        if seeds.contains(action) {
            let i = choose|i: int| 0 <= i < n && (#[trigger] seed_part(i)).contains(action);
            lemma_seed_moves(s, index, s.my_trees[i], action);
            let row = row_of(index, s.my_trees[i]);
            let k = choose|k: int|
                0 <= k < row.len() && usable(s, #[trigger] row[k] as int) && action == Action::Seed(
                    s.my_trees[i].cell_index,
                    row[k],
                );
            assert(row.contains(row[k]));
            assert(s.my_trees[i].cell_index == s.my_trees[i].cell_index);
        }
        if action is Seed && legal(s, index, action) {
            match action {
                Action::Seed(source, target) => {
                    let i = choose|i: int|
                        0 <= i < n && (#[trigger] s.my_trees[i]).cell_index == source && can_plant(
                            s.my_trees[i],
                        ) && row_of(index, s.my_trees[i]).contains(target);
                    let row = row_of(index, s.my_trees[i]);
                    let k = choose|k: int| 0 <= k < row.len() && row[k] == target;
                    assert(usable(s, row[k] as int));
                    lemma_seed_moves(s, index, s.my_trees[i], action);
                    assert(0 <= i < n && seed_part(i).contains(action));
                },
                _ => {},
            }
        }
    }
}

/// The table of the cells to which no seed can go.
fn unusable_cells(game_state: &GameState) -> (taken: [bool; 37])
    requires
        game_state.wf(),
    ensures
        forall|c: int| 0 <= c < 37 ==> (#[trigger] taken[c] <==> !usable(game_state@, c)),
{
    let mut taken: [bool; 37] = [false; 37];
    let mut c: usize = 0;
    while c < 37
        invariant
            c <= 37,
            game_state.wf(),
            forall|b: int| 0 <= b < c ==> (#[trigger] taken[b] <==> game_state.cells@[b].richness == 0),
            forall|b: int| c <= b < 37 ==> !(#[trigger] taken[b]),
        decreases 37 - c,
    {
        if game_state.cells[c].richness == 0 {
            taken[c] = true;
        }
        c += 1;
    }
    let all: Vec<Tree> = all_trees_of(game_state);
    proof {
        lemma_all_trees_valid(game_state@);
    }
    let mut i: usize = 0;
    while i < all.len()
        invariant
            i <= all.len(),
            game_state.wf(),
            all@ == game_state@.all_trees(),
            valid_trees(all@, game_state.cells@),
            forall|b: int|
                0 <= b < 37 ==> (#[trigger] taken[b] <==> game_state.cells@[b].richness == 0 || occupied(
                    all@.take(i as int),
                    b,
                )),
        decreases all.len() - i,
    {
        let ghost seen = all@.take(i as int);
        let ghost next = all@.take(i + 1);
        assert(valid_tree(all@[i as int], game_state.cells@));
        let place: usize = all[i].cell_index as usize;
        taken[place] = true;
        proof {
            assert(next =~= seen.push(all@[i as int]));
            assert forall|b: int| 0 <= b < 37 implies (#[trigger] taken[b] <==> game_state.cells@[b].richness
                == 0 || occupied(next, b)) by {
                if occupied(seen, b) {
                    let j = choose|j: int| 0 <= j < seen.len() && (#[trigger] seen[j]).cell_index == b;
                    assert(next[j].cell_index == b);
                }
                if b == place {
                    assert(next[i as int].cell_index == b);
                }
                if occupied(next, b) && b != place {
                    let j = choose|j: int| 0 <= j < next.len() && (#[trigger] next[j]).cell_index == b;
                    assert(seen[j].cell_index == b);
                }
            }
        }
        i += 1;
    }
    assert(all@.take(all.len() as int) =~= all@);
    taken
}

/// The moves open to me in `game_state`, in the order in which they are
/// tried. `seedable_cells` is the planting index of the board.
pub fn get_possible_actions(game_state: &GameState, seedable_cells: &Vec<Vec<Vec<i32>>>) -> (out: Vec<
    Action,
>)
    requires
        game_state.wf(),
        valid_index(seedable_cells.deep_view()),
    ensures
        out@ == legal_actions(game_state@, seedable_cells.deep_view()),
{
    let ghost s = game_state@;
    let ghost index = seedable_cells.deep_view();
    let seeds: usize = count_trees_of_size(&game_state.my_trees, 0);
    let small: usize = count_trees_of_size(&game_state.my_trees, 1);
    let medium: usize = count_trees_of_size(&game_state.my_trees, 2);
    let mut out: Vec<Action> = Vec::new();
    out.push(Action::Wait);
    proof {
        lemma_wf_unit_count(s);
    }
    let mut i: usize = 0;
    while i < game_state.my_trees.len()
        invariant
            i <= game_state.my_trees.len(),
            game_state.wf(),
            s == game_state@,
            game_state.my_trees.len() <= 37,
            small == count_of_size(s.my_trees, 1, s.my_trees.len() as int),
            medium == count_of_size(s.my_trees, 2, s.my_trees.len() as int),
            out@ == seq![Action::Wait] + growth_moves_upto(s, i as int),
        decreases game_state.my_trees.len() - i,
    {
        let tree: Tree = game_state.my_trees[i];
        let ghost before = out@;
        proof {
            assert(valid_tree(s.my_trees[i as int], s.cells));
            lemma_grow_cost_bounds(tree.size + 1, s.my_trees);
        }
        if !tree.is_dormant {
            if tree.size == MAX_SIZE && game_state.sunpoints >= HARVEST_COST {
                out.push(Action::Complete(tree.cell_index));
            }
            if tree.size < MAX_SIZE && get_sun_cost_to_grow(tree.size + 1, &game_state.my_trees)
                <= game_state.sunpoints && !(tree.size == 0 && small >= SIZE_1_CAP) && !(tree.size
                == 1 && medium >= SIZE_2_CAP) {
                out.push(Action::Grow(tree.cell_index));
            }
        }
        proof {
            assert(out@ =~= before + growth_moves(s, tree));
            assert(before + growth_moves(s, tree) =~= seq![Action::Wait] + (growth_moves_upto(
                s,
                i as int,
            ) + growth_moves(s, tree)));
        }
        i += 1;
    }
    if seeds == 0 {
        let taken: [bool; 37] = unusable_cells(game_state);
        let ghost head = out@;
        let mut j: usize = 0;
        while j < game_state.my_trees.len()
            invariant
                j <= game_state.my_trees.len(),
                game_state.wf(),
                s == game_state@,
                index == seedable_cells.deep_view(),
                valid_index(index),
                forall|c: int| 0 <= c < 37 ==> (#[trigger] taken[c] <==> !usable(s, c)),
                out@ == head + seed_moves_upto(s, index, j as int),
            decreases game_state.my_trees.len() - j,
        {
            let tree: Tree = game_state.my_trees[j];
            let ghost before = out@;
            assert(valid_tree(s.my_trees[j as int], s.cells));
            if tree.size > 0 && !tree.is_dormant {
                proof {
                    assert(index.len() == seedable_cells@.len());
                    assert(index[tree.cell_index as int]
                        == seedable_cells@[tree.cell_index as int].deep_view());
                    assert(index[tree.cell_index as int].len()
                        == seedable_cells@[tree.cell_index as int]@.len());
                }
                let row: &Vec<i32> = &seedable_cells[tree.cell_index as usize][(tree.size
                    - 1) as usize];
                let ghost cells_of_row = row_of(index, tree);
                proof {
                    assert(index[tree.cell_index as int] == seedable_cells@[tree.cell_index as int].deep_view());
                    assert(index[tree.cell_index as int][tree.size - 1]
                        == seedable_cells@[tree.cell_index as int]@[tree.size - 1].deep_view());
                    assert(row.deep_view() =~= row@);
                    assert(cells_of_row == row@);
                }
                let mut k: usize = 0;
                while k < row.len()
                    invariant
                        k <= row.len(),
                        cells_of_row == row@,
                        cells_of_row == row_of(index, tree),
                        valid_index(index),
                        0 <= tree.cell_index < 37,
                        1 <= tree.size <= 3,
                        forall|c: int| 0 <= c < 37 ==> (#[trigger] taken[c] <==> !usable(s, c)),
                        out@ == before + joined(
                            |m: int| seed_move(s, row_of(index, tree), tree.cell_index, m),
                            k as int,
                        ),
                    decreases row.len() - k,
                {
                    let target: i32 = row[k];
                    let ghost sofar = out@;
                    assert(0 <= index[tree.cell_index as int][tree.size - 1][k as int] < 37);
                    if !taken[target as usize] {
                        out.push(Action::Seed(tree.cell_index, target));
                    }
                    proof {
                        let part = |m: int| seed_move(s, row_of(index, tree), tree.cell_index, m);
                        assert(out@ =~= sofar + part(k as int));
                        assert(sofar + part(k as int) =~= before + (joined(part, k as int) + part(
                            k as int,
                        )));
                    }
                    k += 1;
                }
            }
            proof {
                assert(out@ =~= before + seed_moves(s, index, tree));
                assert(before + seed_moves(s, index, tree) =~= head + (seed_moves_upto(
                    s,
                    index,
                    j as int,
                ) + seed_moves(s, index, tree)));
            }
            j += 1;
        }
    }
    proof {
        assert(out@ =~= legal_actions(s, index));
    }
    out
}

} // verus!
