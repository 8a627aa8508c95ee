//! Units, actions and the game state, with the mathematical view of a state
//! that every contract of this library speaks of.

use crate::board::{is_valid_board, valid_board, Cell};
use vstd::prelude::*;
use vstd::set_lib::{lemma_int_range, lemma_len_subset, set_int_range};

verus! {

/// Size of a fully grown unit.
pub const MAX_SIZE: i32 = 3;

/// The last day of a game. The day counter never passes it.
pub const LAST_DAY: i32 = 23;

/// A unit standing on a cell. `cell` is a copy of the board cell at
/// `cell_index`.
#[derive(Clone, Copy, Debug, PartialEq, Eq)]
pub struct Tree {
    pub cell_index: i32,
    pub size: i32,
    pub is_mine: bool,
    pub is_dormant: bool,
    pub cell: Cell,
}

/// One move of a player.
#[derive(Clone, Copy, Debug, PartialEq, Eq, Structural)]
pub enum Action {
    /// End the day.
    Wait,
    /// Grow the unit on the given cell by one size.
    Grow(i32),
    /// Harvest the unit on the given cell.
    Complete(i32),
    /// Plant a seed from the unit on the first cell onto the second cell.
    Seed(i32, i32),
}

/// A snapshot of the game.
#[derive(Debug, PartialEq, Eq)]
pub struct GameState {
    pub cells: Vec<Cell>,
    pub day: i32,
    pub score: i32,
    pub nutrients: i32,
    pub sunpoints: i32,
    pub my_trees: Vec<Tree>,
    pub opponent_trees: Vec<Tree>,
    pub opponent_score: i32,
}

/// The mathematical value of a game state: unbounded integers and
/// sequences.
pub struct State {
    pub cells: Seq<Cell>,
    pub day: int,
    pub score: int,
    pub nutrients: int,
    pub sunpoints: int,
    pub my_trees: Seq<Tree>,
    pub opponent_trees: Seq<Tree>,
    pub opponent_score: int,
}

impl View for GameState {
    type V = State;

    open spec fn view(&self) -> State {
        State {
            cells: self.cells@,
            day: self.day as int,
            score: self.score as int,
            nutrients: self.nutrients as int,
            sunpoints: self.sunpoints as int,
            my_trees: self.my_trees@,
            opponent_trees: self.opponent_trees@,
            opponent_score: self.opponent_score as int,
        }
    }
}

/// A unit is valid on a board when it stands on one of its cells, has a
/// size between 0 and 3, and carries a faithful copy of its cell.
pub open spec fn valid_tree(tree: Tree, cells: Seq<Cell>) -> bool {
    &&& 0 <= tree.cell_index < 37
    &&& 0 <= tree.size <= MAX_SIZE
    &&& tree.cell == cells[tree.cell_index as int]
}

/// Every unit of `trees` is valid on the board.
pub open spec fn valid_trees(trees: Seq<Tree>, cells: Seq<Cell>) -> bool {
    forall|i: int| 0 <= i < trees.len() ==> valid_tree(#[trigger] trees[i], cells)
}

/// No two units of `trees` stand on the same cell.
pub open spec fn distinct_cells(trees: Seq<Tree>) -> bool {
    forall|i: int, j: int|
        0 <= i < j < trees.len() ==> (#[trigger] trees[i]).cell_index != (#[trigger] trees[j]).cell_index
}

/// Some unit of `trees` stands on `cell`.
pub open spec fn occupied(trees: Seq<Tree>, cell: int) -> bool {
    exists|i: int| 0 <= i < trees.len() && (#[trigger] trees[i]).cell_index == cell
}

impl State {
    /// All units on the board, mine first.
    pub open spec fn all_trees(self) -> Seq<Tree> {
        self.my_trees + self.opponent_trees
    }

    /// A well-formed state has a valid board, a day between 0 and the last
    /// day, valid units, and at most one unit on each cell.
    pub open spec fn wf(self) -> bool {
        &&& valid_board(self.cells)
        &&& 0 <= self.day <= LAST_DAY
        &&& valid_trees(self.my_trees, self.cells)
        &&& valid_trees(self.opponent_trees, self.cells)
        &&& distinct_cells(self.all_trees())
    }

    /// Every counter of the state fits the machine integers of `GameState`.
    pub open spec fn representable(self) -> bool {
        &&& i32::MIN <= self.day <= i32::MAX
        &&& i32::MIN <= self.score <= i32::MAX
        &&& i32::MIN <= self.nutrients <= i32::MAX
        &&& i32::MIN <= self.sunpoints <= i32::MAX
        &&& i32::MIN <= self.opponent_score <= i32::MAX
    }
}

/// Units that stand on distinct cells of the board number at most 37.
proof fn lemma_distinct_cells_bound(trees: Seq<Tree>)
    requires
        distinct_cells(trees),
        forall|i: int| 0 <= i < trees.len() ==> 0 <= (#[trigger] trees[i]).cell_index < 37,
    ensures
        trees.len() <= 37,
{
    let places = trees.map_values(|t: Tree| t.cell_index as int);
    assert(places.no_duplicates()) by {
        assert forall|i: int, j: int|
            0 <= i < places.len() && 0 <= j < places.len() && i != j implies places[i]
            != places[j] by {
            if i < j {
                assert(trees[i].cell_index != trees[j].cell_index);
            } else {
                assert(trees[j].cell_index != trees[i].cell_index);
            }
        }
    }
    places.unique_seq_to_set();
    lemma_int_range(0, 37);
    assert(places.to_set().subset_of(set_int_range(0, 37))) by {
        assert forall|c: int| places.to_set().contains(c) implies set_int_range(0, 37).contains(
            c,
        ) by {
            let i = choose|i: int| 0 <= i < places.len() && places[i] == c;
            assert(0 <= trees[i].cell_index < 37);
        }
    }
    lemma_len_subset(places.to_set(), set_int_range(0, 37));
}

/// In a well-formed state I own at most 37 units, and so does my opponent.
pub proof fn lemma_wf_unit_count(s: State)
    requires
        s.wf(),
    ensures
        s.my_trees.len() + s.opponent_trees.len() <= 37,
{
    let all = s.all_trees();
    assert forall|i: int| 0 <= i < all.len() implies 0 <= (#[trigger] all[i]).cell_index < 37 by {
        if i < s.my_trees.len() {
            assert(valid_tree(s.my_trees[i], s.cells));
        } else {
            assert(valid_tree(s.opponent_trees[i - s.my_trees.len()], s.cells));
        }
    }
    lemma_distinct_cells_bound(all);
}

/// Copies a list of plain values.
pub fn copy_of<T: Copy>(items: &Vec<T>) -> (out: Vec<T>)
    ensures
        out@ == items@,
{
    let mut out: Vec<T> = Vec::new();
    let mut i: usize = 0;
    while i < items.len()
        invariant
            i <= items.len(),
            out@ == items@.take(i as int),
        decreases items.len() - i,
    {
        out.push(items[i]);
        assert(items@.take(i + 1) =~= items@.take(i as int).push(items@[i as int]));
        i += 1;
    }
    assert(items@.take(items.len() as int) =~= items@);
    out
}

impl Clone for GameState {
    /// The copy shares nothing with the state it is taken from and has the
    /// same value.
    fn clone(&self) -> (copy: GameState)
        ensures
            copy@ == self@,
    {
        GameState {
            cells: copy_of(&self.cells),
            day: self.day,
            score: self.score,
            nutrients: self.nutrients,
            sunpoints: self.sunpoints,
            my_trees: copy_of(&self.my_trees),
            opponent_trees: copy_of(&self.opponent_trees),
            opponent_score: self.opponent_score,
        }
    }
}

/// Tells whether two cells hold the same values.
pub fn same_cell(a: &Cell, b: &Cell) -> (same: bool)
    ensures
        same == (*a == *b),
{
    if a.index != b.index || a.richness != b.richness {
        return false;
    }
    let mut d: usize = 0;
    while d < 6
        invariant
            d <= 6,
            forall|e: int| 0 <= e < d ==> a.neighbours[e] == b.neighbours[e],
        decreases 6 - d,
    {
        if a.neighbours[d] != b.neighbours[d] {
            return false;
        }
        d += 1;
    }
    assert(a.neighbours =~= b.neighbours);
    true
}

/// Tells whether `tree` is a valid unit on the board `cells`.
pub fn is_valid_tree(tree: &Tree, cells: &Vec<Cell>) -> (ok: bool)
    requires
        cells.len() == 37,
    ensures
        ok == valid_tree(*tree, cells@),
{
    if tree.cell_index < 0 || tree.cell_index >= 37 {
        return false;
    }
    if tree.size < 0 || tree.size > MAX_SIZE {
        return false;
    }
    same_cell(&tree.cell, &cells[tree.cell_index as usize])
}

/// Tells whether every unit of `trees` is valid on the board `cells`.
pub fn are_valid_trees(trees: &Vec<Tree>, cells: &Vec<Cell>) -> (ok: bool)
    requires
        cells.len() == 37,
    ensures
        ok == valid_trees(trees@, cells@),
{
    let mut i: usize = 0;
    while i < trees.len()
        invariant
            i <= trees.len(),
            cells.len() == 37,
            forall|j: int| 0 <= j < i ==> valid_tree(#[trigger] trees[j], cells@),
        decreases trees.len() - i,
    {
        if !is_valid_tree(&trees[i], cells) {
            return false;
        }
        i += 1;
    }
    true
}

/// Marks the cells of `trees` in `taken`. Returns `false` as soon as a unit
/// stands on a cell that is marked already.
fn mark_cells(trees: &Vec<Tree>, taken: &mut [bool; 37], Ghost(before): Ghost<Seq<Tree>>) -> (ok:
    bool)
    requires
        forall|i: int| 0 <= i < trees.len() ==> 0 <= (#[trigger] trees[i]).cell_index < 37,
        distinct_cells(before),
        forall|c: int| 0 <= c < 37 ==> (#[trigger] old(taken)[c] <==> occupied(before, c)),
    ensures
        ok == distinct_cells(before + trees@),
        ok ==> forall|c: int|
            0 <= c < 37 ==> (#[trigger] final(taken)[c] <==> occupied(before + trees@, c)),
{
    let mut i: usize = 0;
    while i < trees.len()
        invariant
            i <= trees.len(),
            forall|k: int| 0 <= k < trees.len() ==> 0 <= (#[trigger] trees[k]).cell_index < 37,
            distinct_cells(before + trees@.take(i as int)),
            forall|c: int|
                0 <= c < 37 ==> (#[trigger] taken[c] <==> occupied(
                    before + trees@.take(i as int),
                    c,
                )),
        decreases trees.len() - i,
    {
        let ghost seen = before + trees@.take(i as int);
        let ghost next = before + trees@.take(i + 1);
        let place: usize = trees[i].cell_index as usize;
        assert(next =~= seen.push(trees@[i as int]));
        if taken[place] {
            proof {
                let j = choose|j: int| 0 <= j < seen.len() && seen[j].cell_index == place;
                let whole = before + trees@;
                assert(whole[j] == seen[j]);
                assert(whole[before.len() + i] == trees@[i as int]);
                assert(whole[j].cell_index == whole[before.len() + i].cell_index);
            }
            return false;
        }
        taken[place] = true;
        proof {
            assert forall|a: int, b: int| 0 <= a < b < next.len() implies (#[trigger] next[a]).cell_index
                != (#[trigger] next[b]).cell_index by {
                if b < seen.len() {
                    assert(seen[a].cell_index != seen[b].cell_index);
                } else {
                    assert(next[a] == seen[a]);
                    if seen[a].cell_index == place {
                        assert(occupied(seen, place as int));
                    }
                }
            }
            assert forall|c: int| 0 <= c < 37 implies (#[trigger] taken[c] <==> occupied(next, c)) by {
                if occupied(seen, c) {
                    let j = choose|j: int| 0 <= j < seen.len() && seen[j].cell_index == c;
                    assert(next[j].cell_index == c);
                }
                if c == place {
                    assert(next[seen.len() as int].cell_index == c);
                }
                if occupied(next, c) && c != place {
                    let j = choose|j: int| 0 <= j < next.len() && next[j].cell_index == c;
                    assert(seen[j].cell_index == c);
                }
            }
        }
        i += 1;
    }
    assert(trees@.take(trees.len() as int) =~= trees@);
    true
}

impl GameState {
    /// The state is well formed: see [`State::wf`].
    pub open spec fn wf(&self) -> bool {
        self@.wf()
    }

    /// Tells whether the state is well formed.
    pub fn is_well_formed(&self) -> (ok: bool)
        ensures
            ok == self.wf(),
    {
        if !is_valid_board(&self.cells) {
            return false;
        }
        if self.day < 0 || self.day > LAST_DAY {
            return false;
        }
        if !are_valid_trees(&self.my_trees, &self.cells) {
            return false;
        }
        if !are_valid_trees(&self.opponent_trees, &self.cells) {
            return false;
        }
        let mut taken: [bool; 37] = [false; 37];
        let ghost none = Seq::<Tree>::empty();
        assert(none + self.my_trees@ =~= self.my_trees@);
        if !mark_cells(&self.my_trees, &mut taken, Ghost(none)) {
            proof {
                let all = self@.all_trees();
                if distinct_cells(all) {
                    assert forall|i: int, j: int| 0 <= i < j < self.my_trees@.len() implies (
                    #[trigger] self.my_trees@[i]).cell_index != (#[trigger] self.my_trees@[j]).cell_index by {
                        assert(all[i].cell_index != all[j].cell_index);
                    }
                }
            }
            return false;
        }
        mark_cells(&self.opponent_trees, &mut taken, Ghost(self.my_trees@))
    }
}

} // verus!
