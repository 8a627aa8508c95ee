//! The static board: 37 cells, their fertility and their six directional
//! neighbour slots.

use vstd::prelude::*;

verus! {

/// Number of cells on the board.
pub const BOARD_CELLS: usize = 37;

/// Number of directions in which a cell has a neighbour slot.
pub const DIRECTIONS: usize = 6;

/// Marks a neighbour slot that points off the board.
pub const NO_CELL: i32 = -1;

/// Highest fertility rank of a cell.
pub const MAX_RICHNESS: i32 = 3;

/// One cell of the board. `neighbours[d]` is the index of the cell next to
/// this one in direction `d`, or `NO_CELL` at the edge of the board.
#[derive(Clone, Copy, Debug, PartialEq, Eq)]
pub struct Cell {
    pub index: i32,
    pub richness: i32,
    pub neighbours: [i32; 6],
}

/// A cell stored at position `at` is valid when it carries that index, a
/// fertility rank between 0 and 3, and neighbour slots that each hold
/// `NO_CELL` or a cell index.
pub open spec fn valid_cell(cell: Cell, at: int) -> bool {
    &&& cell.index == at
    &&& 0 <= cell.richness <= 3
    &&& forall|d: int| 0 <= d < 6 ==> -1 <= #[trigger] cell.neighbours[d] < 37
}

/// A valid board has 37 valid cells, each stored at its own index.
pub open spec fn valid_board(cells: Seq<Cell>) -> bool {
    &&& cells.len() == 37
    &&& forall|i: int| 0 <= i < 37 ==> valid_cell(#[trigger] cells[i], i)
}

/// The content of the neighbour slot of cell `from` in direction `dir`.
pub open spec fn neighbour_of(cells: Seq<Cell>, from: int, dir: int) -> int {
    cells[from].neighbours[dir] as int
}

/// The cells met when walking from `first` in direction `dir`, `first`
/// included, for at most `len` cells. The walk ends early at the edge of
/// the board.
pub open spec fn ray(cells: Seq<Cell>, first: int, dir: int, len: int) -> Seq<i32>
    decreases len,
{
    if len <= 0 || !(0 <= first < cells.len()) {
        Seq::empty()
    } else {
        seq![first as i32] + ray(cells, neighbour_of(cells, first, dir), dir, len - 1)
    }
}

/// A ray holds at most `len` cells, and each of them is a cell of the board.
pub proof fn lemma_ray_bounds(cells: Seq<Cell>, first: int, dir: int, len: int)
    requires
        valid_board(cells),
        0 <= dir < 6,
    ensures
        ray(cells, first, dir, len).len() <= if len < 0 { 0 } else { len },
        forall|k: int|
            0 <= k < ray(cells, first, dir, len).len() ==> 0 <= #[trigger] ray(
                cells,
                first,
                dir,
                len,
            )[k] < 37,
    decreases len,
{
    if len > 0 && 0 <= first < cells.len() {
        let next = neighbour_of(cells, first, dir);
        lemma_ray_bounds(cells, next, dir, len - 1);
        let tail = ray(cells, next, dir, len - 1);
        assert forall|k: int| 0 <= k < ray(cells, first, dir, len).len() implies 0 <= #[trigger] ray(
            cells,
            first,
            dir,
            len,
        )[k] < 37 by {
            if k > 0 {
                assert(ray(cells, first, dir, len)[k] == tail[k - 1]);
            }
        }
    }
}

/// Tells whether `cell` is a valid cell for position `at`.
pub fn is_valid_cell(cell: &Cell, at: usize) -> (ok: bool)
    ensures
        ok == valid_cell(*cell, at as int),
{
    if cell.index < 0 || cell.index as usize != at {
        return false;
    }
    if cell.richness < 0 || cell.richness > MAX_RICHNESS {
        return false;
    }
    let mut d: usize = 0;
    while d < DIRECTIONS
        invariant
            d <= 6,
            forall|e: int| 0 <= e < d ==> -1 <= #[trigger] cell.neighbours[e] < 37,
        decreases 6 - d,
    {
        if cell.neighbours[d] < NO_CELL || cell.neighbours[d] >= BOARD_CELLS as i32 {
            return false;
        }
        d += 1;
    }
    true
}

/// Tells whether `cells` is a valid board.
pub fn is_valid_board(cells: &Vec<Cell>) -> (ok: bool)
    ensures
        ok == valid_board(cells@),
{
    if cells.len() != BOARD_CELLS {
        return false;
    }
    let mut i: usize = 0;
    while i < BOARD_CELLS
        invariant
            i <= 37,
            cells.len() == 37,
            forall|j: int| 0 <= j < i ==> valid_cell(#[trigger] cells[j], j),
        decreases 37 - i,
    {
        if !is_valid_cell(&cells[i], i) {
            return false;
        }
        i += 1;
    }
    true
}

/// Walks from `first` in direction `direction` and collects the cells met,
/// `first` included, stopping after `len` cells or at the edge of the board.
pub fn cells_along(cells: &Vec<Cell>, first: i32, direction: usize, len: i32) -> (out: Vec<i32>)
    requires
        valid_board(cells@),
        -1 <= first < 37,
        direction < 6,
    ensures
        out@ == ray(cells@, first as int, direction as int, len as int),
{
    let mut out: Vec<i32> = Vec::new();
    let mut current: i32 = first;
    let mut left: i32 = len;
    while left > 0 && current != NO_CELL
        invariant
            valid_board(cells@),
            -1 <= current < 37,
            direction < 6,
            out@ + ray(cells@, current as int, direction as int, left as int) == ray(
                cells@,
                first as int,
                direction as int,
                len as int,
            ),
        decreases left,
    {
        let ghost before = out@;
        let ghost here = current as int;
        out.push(current);
        assert(valid_cell(cells@[here], here));
        current = cells[current as usize].neighbours[direction];
        left -= 1;
        assert(before + (seq![here as i32] + ray(
            cells@,
            current as int,
            direction as int,
            left as int,
        )) =~= out@ + ray(cells@, current as int, direction as int, left as int));
    }
    assert(ray(cells@, current as int, direction as int, left as int) =~= Seq::<i32>::empty());
    assert(out@ + Seq::<i32>::empty() =~= out@);
    out
}

} // verus!
