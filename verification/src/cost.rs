//! Prices and rewards: what growing a unit costs and what a harvest yields.

use crate::board::Cell;
use crate::state::Tree;
use vstd::prelude::*;

verus! {

/// Energy paid for a harvest.
pub const HARVEST_COST: i32 = 4;

/// The fixed part of the price of growing a unit to `size`.
pub open spec fn base_cost(size: int) -> int {
    if size == 1 {
        1
    } else if size == 2 {
        3
    } else if size == 3 {
        7
    } else {
        0
    }
}

/// How many of the first `upto` units of `trees` have size `size`.
pub open spec fn count_of_size(trees: Seq<Tree>, size: int, upto: int) -> int
    decreases upto,
{
    if upto <= 0 {
        0
    } else {
        count_of_size(trees, size, upto - 1) + if trees[upto - 1].size == size {
            1int
        } else {
            0int
        }
    }
}

/// The price of growing a unit to `new_size`: the fixed part plus the number
/// of units of `trees` that have that size already.
pub open spec fn grow_cost(new_size: int, trees: Seq<Tree>) -> int {
    count_of_size(trees, new_size, trees.len() as int) + base_cost(new_size)
}

/// The energy needed to bring a unit of size `from_size` to full size one
/// step at a time, each step priced against the same `trees`, and then to
/// harvest it.
pub open spec fn completion_cost(from_size: int, trees: Seq<Tree>) -> int
    decreases 3 - from_size,
{
    if from_size >= 3 {
        HARVEST_COST as int
    } else {
        grow_cost(from_size + 1, trees) + completion_cost(from_size + 1, trees)
    }
}

/// The score gained by harvesting a unit on `cell` while the nutrient pool
/// holds `nutrients`.
pub open spec fn harvest_score(nutrients: int, cell: Cell) -> int {
    nutrients + 2 * (cell.richness - 1)
}

/// A count of units lies between 0 and the number of units counted.
proof fn lemma_count_bounds(trees: Seq<Tree>, size: int, upto: int)
    ensures
        0 <= count_of_size(trees, size, upto),
        count_of_size(trees, size, upto) <= if upto < 0 { 0 } else { upto },
    decreases upto,
{
    if upto > 0 {
        lemma_count_bounds(trees, size, upto - 1);
    }
}

/// The price of a growth step is at least its fixed part.
pub proof fn lemma_grow_cost_bounds(new_size: int, trees: Seq<Tree>)
    ensures
        base_cost(new_size) <= grow_cost(new_size, trees) <= base_cost(new_size) + trees.len(),
        0 <= base_cost(new_size) <= 7,
{
    lemma_count_bounds(trees, new_size, trees.len() as int);
}

/// Counts the units of `trees` that have size `size`.
pub fn count_trees_of_size(trees: &Vec<Tree>, size: i32) -> (count: usize)
    ensures
        count == count_of_size(trees@, size as int, trees.len() as int),
{
    let mut count: usize = 0;
    let mut i: usize = 0;
    while i < trees.len()
        invariant
            i <= trees.len(),
            count <= i,
            count == count_of_size(trees@, size as int, i as int),
        decreases trees.len() - i,
    {
        if trees[i].size == size {
            count += 1;
        }
        i += 1;
    }
    count
}

/// The price of growing one of my units to `new_size`, given all my units as
/// they stand before the growth.
pub fn get_sun_cost_to_grow(new_size: i32, my_trees: &Vec<Tree>) -> (cost: i32)
    requires
        0 <= new_size <= 3,
        grow_cost(new_size as int, my_trees@) <= i32::MAX,
    ensures
        cost == grow_cost(new_size as int, my_trees@),
{
    let count: usize = count_trees_of_size(my_trees, new_size);
    let base: i32 = if new_size == 1 {
        1
    } else if new_size == 2 {
        3
    } else if new_size == 3 {
        7
    } else {
        0
    };
    count as i32 + base
}

/// The energy needed to grow a unit of size `from_size` to full size and
/// harvest it, every growth step priced against `my_trees` as they stand.
pub fn get_sun_cost_to_completion_from_size(from_size: i32, my_trees: &Vec<Tree>) -> (cost: i32)
    requires
        -1 <= from_size,
        completion_cost(from_size as int, my_trees@) <= i32::MAX,
    ensures
        cost == completion_cost(from_size as int, my_trees@),
{
    let mut current_size: i32 = from_size;
    let mut current_cost: i32 = 0;
    while current_size < 3
        invariant
            -1 <= current_size,
            0 <= current_cost,
            current_cost + completion_cost(current_size as int, my_trees@) == completion_cost(
                from_size as int,
                my_trees@,
            ),
            completion_cost(from_size as int, my_trees@) <= i32::MAX,
        decreases 3 - current_size,
    {
        current_size += 1;
        proof {
            lemma_grow_cost_bounds(current_size as int, my_trees@);
            lemma_completion_cost_positive(current_size as int, my_trees@);
        }
        current_cost += get_sun_cost_to_grow(current_size, my_trees);
    }
    current_cost + HARVEST_COST
}

/// The energy needed to grow `target_tree` to full size and harvest it.
pub fn get_sun_cost_to_completion(target_tree: &Tree, my_trees: &Vec<Tree>) -> (cost: i32)
    requires
        -1 <= target_tree.size,
        completion_cost(target_tree.size as int, my_trees@) <= i32::MAX,
    ensures
        cost == completion_cost(target_tree.size as int, my_trees@),
{
    get_sun_cost_to_completion_from_size(target_tree.size, my_trees)
}

/// Bringing a unit to harvest costs at least the harvest itself.
proof fn lemma_completion_cost_positive(from_size: int, trees: Seq<Tree>)
    ensures
        completion_cost(from_size, trees) >= 4,
    decreases 3 - from_size,
{
    if from_size < 3 {
        lemma_grow_cost_bounds(from_size + 1, trees);
        lemma_completion_cost_positive(from_size + 1, trees);
    }
}

/// The score gained by harvesting a unit on `cell` while the nutrient pool
/// holds `nutrients`.
pub fn get_score_for_cell(nutrients: i32, cell: &Cell) -> (score: i32)
    requires
        i32::MIN <= harvest_score(nutrients as int, *cell) <= i32::MAX,
    ensures
        score == harvest_score(nutrients as int, *cell),
{
    let bonus: i64 = 2 * (cell.richness as i64 - 1);
    (nutrients as i64 + bonus) as i32
}

} // verus!
