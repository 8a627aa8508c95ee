//! What the engine is told: the board once, and the situation every turn.

use crate::board::Cell;
use crate::state::{copy_of, GameState, State, Tree};
use vstd::prelude::*;

verus! {

/// The board as announced at the start of a game.
#[derive(Debug)]
pub struct InitialInput {
    pub number_of_cells: i32,
    pub cells: Vec<Cell>,
}

/// The situation as announced at the start of a turn.
#[derive(Debug)]
pub struct TurnInput {
    pub day: i32,
    pub nutrients: i32,
    pub sunpoints: i32,
    pub score: i32,
    pub opponent_sunpoints: i32,
    pub opponent_score: i32,
    pub opponent_is_waiting: bool,
    pub my_trees: Vec<Tree>,
    pub opponent_trees: Vec<Tree>,
    pub possible_actions: Vec<String>,
}

/// Reads a flag that is announced as a number: 1 means yes, anything else
/// no.
pub fn is_set(flag: i32) -> (set: bool)
    ensures
        set == (flag == 1),
{
    flag == 1
}

/// The unit announced by the record `(cell_index, size, is_mine,
/// is_dormant)`, with a copy of its cell taken from `cells`.
pub fn tree_from_record(
    cell_index: i32,
    size: i32,
    is_mine: i32,
    is_dormant: i32,
    cells: &Vec<Cell>,
) -> (tree: Tree)
    requires
        0 <= cell_index < cells.len(),
    ensures
        tree == (Tree {
            cell_index,
            size,
            is_mine: is_mine == 1,
            is_dormant: is_dormant == 1,
            cell: cells[cell_index as int],
        }),
{
    Tree {
        cell_index,
        size,
        is_mine: is_set(is_mine),
        is_dormant: is_set(is_dormant),
        cell: cells[cell_index as usize],
    }
}

impl TurnInput {
    /// Files `tree` with my units or with my opponent's, after those filed
    /// before.
    pub fn add_tree(&mut self, tree: Tree)
        ensures
            final(self).my_trees@ == if tree.is_mine {
                old(self).my_trees@.push(tree)
            } else {
                old(self).my_trees@
            },
            final(self).opponent_trees@ == if tree.is_mine {
                old(self).opponent_trees@
            } else {
                old(self).opponent_trees@.push(tree)
            },
            final(self).day == old(self).day,
            final(self).nutrients == old(self).nutrients,
            final(self).sunpoints == old(self).sunpoints,
            final(self).score == old(self).score,
            final(self).opponent_sunpoints == old(self).opponent_sunpoints,
            final(self).opponent_score == old(self).opponent_score,
            final(self).opponent_is_waiting == old(self).opponent_is_waiting,
            final(self).possible_actions == old(self).possible_actions,
    {
        if tree.is_mine {
            self.my_trees.push(tree);
        } else {
            self.opponent_trees.push(tree);
        }
    }
}

/// The game state that a turn starts from: the board of `initial` with the
/// counters and units of `turn`.
pub fn game_state_of(initial: &InitialInput, turn: &TurnInput) -> (game_state: GameState)
    ensures
        game_state@ == (State {
            cells: initial.cells@,
            day: turn.day as int,
            score: turn.score as int,
            nutrients: turn.nutrients as int,
            sunpoints: turn.sunpoints as int,
            my_trees: turn.my_trees@,
            opponent_trees: turn.opponent_trees@,
            opponent_score: turn.opponent_score as int,
        }),
{
    GameState {
        cells: copy_of(&initial.cells),
        day: turn.day,
        score: turn.score,
        nutrients: turn.nutrients,
        sunpoints: turn.sunpoints,
        my_trees: copy_of(&turn.my_trees),
        opponent_trees: copy_of(&turn.opponent_trees),
        opponent_score: turn.opponent_score,
    }
}

} // verus!
