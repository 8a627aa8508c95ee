//! Planting range: the cells that a unit can reach with a seed, and the
//! index that holds them for every cell and every size.

use crate::board::{neighbour_of, valid_board, valid_cell, Cell};
use crate::state::{valid_tree, Tree};
use vstd::prelude::*;

verus! {

/// `to` lies next to the cell `from` in some direction.
pub open spec fn adjacent(cells: Seq<Cell>, from: int, to: int) -> bool {
    0 <= from < cells.len() && exists|d: int| 0 <= d < 6 && #[trigger] neighbour_of(cells, from, d) == to
}

/// A walk of at least one and at most `steps` steps, each from a cell to
/// one next to it, leads from `from` to `to`.
pub open spec fn within(cells: Seq<Cell>, from: int, to: int, steps: int) -> bool
    decreases steps,
{
    steps >= 1 && (adjacent(cells, from, to) || exists|via: int|
        0 <= via < 37 && within(cells, from, via, steps - 1) && #[trigger] adjacent(cells, via, to))
}

/// The planting range of a unit of size `size`: one step for a seed, as
/// many steps as its size otherwise.
pub open spec fn planting_range(size: int) -> int {
    if size < 1 {
        1
    } else {
        size
    }
}

/// A unit of size `size` on the cell `origin` can plant on `target`: the
/// target is another cell of the board and lies within the unit's planting
/// range.
pub open spec fn seedable(cells: Seq<Cell>, origin: int, size: int, target: int) -> bool {
    &&& 0 <= target < 37
    &&& target != origin
    &&& within(cells, origin, target, planting_range(size))
}

/// `list` holds, in ascending order and each once, exactly the cells on
/// which a unit of size `size` on `origin` can plant.
pub open spec fn is_planting_list(list: Seq<i32>, cells: Seq<Cell>, origin: int, size: int) -> bool {
    &&& forall|i: int, j: int| 0 <= i < j < list.len() ==> list[i] < list[j]
    &&& forall|k: int| 0 <= k < list.len() ==> seedable(cells, origin, size, #[trigger] list[k] as int)
    &&& forall|c: int| seedable(cells, origin, size, c) ==> list.contains(c as i32)
}

/// The shape that the planting index must have to be read safely: one entry
/// per cell, each with one list per size from 1 to 3, each list holding
/// cell indices.
pub open spec fn valid_index(index: Seq<Seq<Seq<i32>>>) -> bool {
    &&& index.len() == 37
    &&& forall|c: int| 0 <= c < 37 ==> (#[trigger] index[c]).len() == 3
    &&& forall|c: int, s: int, k: int|
        0 <= c < 37 && 0 <= s < 3 && 0 <= k < index[c][s].len() ==> 0 <= #[trigger] index[c][s][k] < 37
}

/// The index holds, for every cell and every size from 1 to 3, the planting
/// list of a unit of that size on that cell.
pub open spec fn is_planting_index(index: Seq<Seq<Seq<i32>>>, cells: Seq<Cell>) -> bool {
    &&& index.len() == 37
    &&& forall|c: int| 0 <= c < 37 ==> (#[trigger] index[c]).len() == 3
    &&& forall|c: int, s: int|
        0 <= c < 37 && 0 <= s < 3 ==> is_planting_list(#[trigger] index[c][s], cells, c, s + 1)
}

/// What a longer walk reaches includes what a shorter walk reaches.
pub proof fn lemma_within_longer(cells: Seq<Cell>, from: int, to: int, steps: int, more: int)
    requires
        within(cells, from, to, steps),
        steps <= more,
    ensures
        within(cells, from, to, more),
    decreases steps,
{
    if !adjacent(cells, from, to) {
        let via = choose|via: int|
            0 <= via < 37 && within(cells, from, via, steps - 1) && #[trigger] adjacent(
                cells,
                via,
                to,
            );
        lemma_within_longer(cells, from, via, steps - 1, more - 1);
    }
}

/// Once one more step reaches no new cell, no number of further steps does.
pub proof fn lemma_within_saturated(cells: Seq<Cell>, origin: int, level: int, to: int, steps: int)
    requires
        level >= 1,
        forall|c: int|
            0 <= c < 37 && c != origin && #[trigger] within(cells, origin, c, level + 1) ==> within(
                cells,
                origin,
                c,
                level,
            ),
        0 <= to < 37,
        to != origin,
        within(cells, origin, to, steps),
    ensures
        within(cells, origin, to, level),
    decreases steps,
{
    if adjacent(cells, origin, to) {
        assert(within(cells, origin, to, 1));
        lemma_within_longer(cells, origin, to, 1, level);
    } else {
        let via = choose|via: int|
            0 <= via < 37 && within(cells, origin, via, steps - 1) && #[trigger] adjacent(
                cells,
                via,
                to,
            );
        assert(via != origin);
        lemma_within_saturated(cells, origin, level, via, steps - 1);
        assert(within(cells, origin, to, level + 1));
    }
}

/// A planting index has the shape that reading it safely requires.
pub proof fn lemma_planting_index_valid(index: Seq<Seq<Seq<i32>>>, cells: Seq<Cell>)
    requires
        is_planting_index(index, cells),
    ensures
        valid_index(index),
{
    assert forall|c: int, s: int, k: int|
        0 <= c < 37 && 0 <= s < 3 && 0 <= k < index[c][s].len() implies 0 <= #[trigger] index[c][s][k]
        < 37 by {
        assert(is_planting_list(index[c][s], cells, c, s + 1));
        assert(seedable(cells, c, s + 1, index[c][s][k] as int));
    }
}

/// No planting list of a planting index holds the cell that it belongs to.
pub proof fn lemma_index_excludes_origin(index: Seq<Seq<Seq<i32>>>, cells: Seq<Cell>, cell: int, size: int)
    requires
        is_planting_index(index, cells),
        0 <= cell < 37,
        1 <= size <= 3,
    ensures
        !index[cell][size - 1].contains(cell as i32),
{
    let list = index[cell][size - 1];
    assert(is_planting_list(list, cells, cell, (size - 1) + 1));
    if list.contains(cell as i32) {
        let k = choose|k: int| 0 <= k < list.len() && list[k] == cell as i32;
        assert(seedable(cells, cell, size, list[k] as int));
    }
}

/// Tells whether `index` has the shape that reading it safely requires.
pub fn is_valid_index(index: &Vec<Vec<Vec<i32>>>) -> (ok: bool)
    ensures
        ok == valid_index(index.deep_view()),
{
    let ghost deep = index.deep_view();
    if index.len() != 37 {
        return false;
    }
    let mut c: usize = 0;
    while c < 37
        invariant
            c <= 37,
            index.len() == 37,
            deep == index.deep_view(),
            forall|b: int| 0 <= b < c ==> (#[trigger] deep[b]).len() == 3,
            forall|b: int, s: int, k: int|
                0 <= b < c && 0 <= s < 3 && 0 <= k < deep[b][s].len() ==> 0 <= #[trigger] deep[b][s][k]
                    < 37,
        decreases 37 - c,
    {
        assert(deep[c as int] == index@[c as int].deep_view());
        if index[c].len() != 3 {
            return false;
        }
        let mut s: usize = 0;
        while s < 3
            invariant
                s <= 3,
                c < 37,
                index.len() == 37,
                index@[c as int].len() == 3,
                deep == index.deep_view(),
                deep[c as int] == index@[c as int].deep_view(),
                forall|r: int, k: int|
                    0 <= r < s && 0 <= k < deep[c as int][r].len() ==> 0 <= #[trigger] deep[c as int][r][k]
                        < 37,
            decreases 3 - s,
        {
            let list: &Vec<i32> = &index[c][s];
            assert(deep[c as int][s as int] == index@[c as int]@[s as int].deep_view());
            assert(list.deep_view() =~= list@);
            let mut k: usize = 0;
            while k < list.len()
                invariant
                    k <= list.len(),
                    c < 37,
                    s < 3,
                    deep == index.deep_view(),
                    deep.len() == 37,
                    deep[c as int].len() == 3,
                    list@ == deep[c as int][s as int],
                    forall|m: int| 0 <= m < k ==> 0 <= #[trigger] list@[m] < 37,
                decreases list.len() - k,
            {
                if list[k] < 0 || list[k] >= 37 {
                    assert(!(0 <= deep[c as int][s as int][k as int] < 37));
                    return false;
                }
                k += 1;
            }
            s += 1;
        }
        c += 1;
    }
    true
}

/// The marks in `reached` tell, for every cell but `origin`, whether a walk
/// of at most `level` steps leads to it from `origin`. A mark is the number
/// of the round that set it, 0 where the cell is not reached.
spec fn marks_match(reached: [i32; 37], cells: Seq<Cell>, origin: int, level: int) -> bool {
    forall|c: int|
        0 <= c < 37 ==> 0 <= #[trigger] reached[c] <= level && (reached[c] != 0 <==> c != origin
            && within(cells, origin, c, level))
}

/// Every neighbour slot that comes before slot `dir` of cell `cell`, and
/// belongs to a cell that `before` marks, leads off the board, to `origin`
/// or to a cell that `reached` marks.
spec fn spread_until(
    reached: [i32; 37],
    before: [i32; 37],
    cells: Seq<Cell>,
    origin: int,
    cell: int,
    dir: int,
) -> bool {
    forall|u: int, d: int|
        0 <= u < 37 && 0 <= d < 6 && (u < cell || (u == cell && d < dir)) && before[u] != 0 ==> {
            let v = #[trigger] neighbour_of(cells, u, d);
            v == -1 || v == origin || reached[v] != 0
        }
}

/// Marks the cells next to `origin`.
fn mark_first_ring(cells: &Vec<Cell>, origin: usize) -> (reached: [i32; 37])
    requires
        valid_board(cells@),
        origin < 37,
    ensures
        marks_match(reached, cells@, origin as int, 1),
{
    let mut reached: [i32; 37] = [0; 37];
    let here: Cell = cells[origin];
    assert(valid_cell(cells@[origin as int], origin as int));
    let mut d: usize = 0;
    while d < 6
        invariant
            d <= 6,
            origin < 37,
            valid_board(cells@),
            here == cells@[origin as int],
            forall|c: int|
                0 <= c < 37 ==> 0 <= #[trigger] reached[c] <= 1 && (reached[c] != 0 <==> c != origin
                    && exists|e: int| 0 <= e < d && #[trigger] neighbour_of(cells@, origin as int, e) == c),
        decreases 6 - d,
    {
        let next: i32 = here.neighbours[d];
        if next != -1 && next as usize != origin {
            reached[next as usize] = 1;
        }
        proof {
            assert(neighbour_of(cells@, origin as int, d as int) == next);
            assert forall|c: int| 0 <= c < 37 implies (reached[c] != 0 <==> c != origin
                && exists|e: int|
                0 <= e < d + 1 && #[trigger] neighbour_of(cells@, origin as int, e) == c) by {
                if reached[c] != 0 {
                    if c == next {
                        assert(neighbour_of(cells@, origin as int, d as int) == c);
                    } else {
                        let e = choose|e: int|
                            0 <= e < d && #[trigger] neighbour_of(cells@, origin as int, e) == c;
                        assert(0 <= e < d + 1 && neighbour_of(cells@, origin as int, e) == c);
                    }
                }
            }
        }
        d += 1;
    }
    proof {
        assert forall|c: int| 0 <= c < 37 implies (reached[c] != 0 <==> c != origin && within(
            cells@,
            origin as int,
            c,
            1,
        )) by {
            assert(!exists|via: int|
                0 <= via < 37 && within(cells@, origin as int, via, 0) && #[trigger] adjacent(
                    cells@,
                    via,
                    c,
                ));
        }
    }
    reached
}

/// One round of the search: marks, with `level + 1`, every unmarked cell
/// other than `origin` that lies next to a marked cell. Tells whether it
/// marked any.
fn spread(reached: &mut [i32; 37], cells: &Vec<Cell>, origin: usize, level: i32) -> (changed: bool)
    requires
        valid_board(cells@),
        origin < 37,
        1 <= level < i32::MAX,
        marks_match(*old(reached), cells@, origin as int, level as int),
    ensures
        marks_match(*final(reached), cells@, origin as int, level + 1),
        !changed ==> *final(reached) == *old(reached),
{
    let ghost before = *reached;
    let mut changed: bool = false;
    let mut u: usize = 0;
    while u < 37
        invariant
            u <= 37,
            valid_board(cells@),
            origin < 37,
            1 <= level < i32::MAX,
            marks_match(before, cells@, origin as int, level as int),
            forall|c: int|
                0 <= c < 37 ==> (before[c] != 0 ==> #[trigger] reached[c] == before[c]) && (before[c]
                    == 0 ==> reached[c] == 0 || (reached[c] == level + 1 && c != origin && within(
                    cells@,
                    origin as int,
                    c,
                    level + 1,
                ))),
            spread_until(*reached, before, cells@, origin as int, u as int, 0),
            !changed ==> *reached == before,
        decreases 37 - u,
    {
        let mark: i32 = reached[u];
        if mark != 0 && mark <= level {
            let here: Cell = cells[u];
            assert(valid_cell(cells@[u as int], u as int));
            assert(before[u as int] != 0);
            let mut d: usize = 0;
            while d < 6
                invariant
                    d <= 6,
                    u < 37,
                    valid_board(cells@),
                    origin < 37,
                    1 <= level < i32::MAX,
                    here == cells@[u as int],
                    before[u as int] != 0,
                    marks_match(before, cells@, origin as int, level as int),
                    forall|c: int|
                        0 <= c < 37 ==> (before[c] != 0 ==> #[trigger] reached[c] == before[c]) && (
                        before[c] == 0 ==> reached[c] == 0 || (reached[c] == level + 1 && c != origin
                            && within(cells@, origin as int, c, level + 1))),
                    spread_until(*reached, before, cells@, origin as int, u as int, d as int),
                    !changed ==> *reached == before,
                decreases 6 - d,
            {
                let next: i32 = here.neighbours[d];
                assert(neighbour_of(cells@, u as int, d as int) == next);
                if next != -1 && next as usize != origin && reached[next as usize] == 0 {
                    proof {
                        assert(adjacent(cells@, u as int, next as int));
                        assert(within(cells@, origin as int, u as int, level as int));
                    }
                    reached[next as usize] = level + 1;
                    changed = true;
                    assert(before[next as int] == 0);
                }
                d += 1;
            }
        } else {
            assert(before[u as int] == 0) by {
                if before[u as int] != 0 {
                    assert(reached[u as int] == before[u as int]);
                }
            }
        }
        u += 1;
    }
    proof {
        assert forall|c: int| 0 <= c < 37 implies 0 <= #[trigger] reached[c] <= level + 1 && (
        reached[c] != 0 <==> c != origin && within(cells@, origin as int, c, level + 1)) by {
            if before[c] != 0 {
                lemma_within_longer(cells@, origin as int, c, level as int, level + 1);
            }
            if c != origin && within(cells@, origin as int, c, level + 1) {
                if adjacent(cells@, origin as int, c) {
                    assert(within(cells@, origin as int, c, 1));
                    lemma_within_longer(cells@, origin as int, c, 1, level as int);
                } else {
                    let via = choose|via: int|
                        0 <= via < 37 && within(cells@, origin as int, via, level as int)
                            && #[trigger] adjacent(cells@, via, c);
                    assert(via != origin);
                    assert(before[via] != 0);
                    let d = choose|d: int| 0 <= d < 6 && #[trigger] neighbour_of(cells@, via, d) == c;
                    assert(neighbour_of(cells@, via, d) == c);
                }
            }
        }
    }
    changed
}

/// The cells on which a unit of size `tree_size` standing on `tree_cell`
/// can plant, in ascending order: every other cell that a walk of at most
/// `tree_size` steps reaches, and for a seed the cells next to it.
pub fn get_seedable_cells_for_cell_and_size(tree_cell: usize, tree_size: i32, cells: &Vec<Cell>) -> (out:
    Vec<i32>)
    requires
        valid_board(cells@),
        tree_cell < 37,
    ensures
        is_planting_list(out@, cells@, tree_cell as int, tree_size as int),
        !out@.contains(tree_cell as i32),
{
    let mut reached: [i32; 37] = mark_first_ring(cells, tree_cell);
    let mut level: i32 = 1;
    let mut saturated: bool = false;
    while level < tree_size && !saturated
        invariant
            valid_board(cells@),
            tree_cell < 37,
            1 <= level <= planting_range(tree_size as int),
            marks_match(reached, cells@, tree_cell as int, level as int),
            saturated ==> marks_match(reached, cells@, tree_cell as int, level + 1),
        decreases tree_size - level + if saturated { 0int } else { 1int },
    {
        let changed: bool = spread(&mut reached, cells, tree_cell, level);
        if changed {
            level += 1;
        } else {
            saturated = true;
        }
    }
    let ghost range = planting_range(tree_size as int);
    proof {
        assert forall|c: int| 0 <= c < 37 implies (#[trigger] reached[c] != 0 <==> seedable(
            cells@,
            tree_cell as int,
            tree_size as int,
            c,
        )) by {
            if saturated {
                assert forall|b: int|
                    0 <= b < 37 && b != tree_cell && #[trigger] within(
                        cells@,
                        tree_cell as int,
                        b,
                        level + 1,
                    ) implies within(cells@, tree_cell as int, b, level as int) by {
                    assert(reached[b] != 0);
                }
                if reached[c] != 0 {
                    lemma_within_longer(cells@, tree_cell as int, c, level as int, range);
                }
                if c != tree_cell && within(cells@, tree_cell as int, c, range) {
                    lemma_within_saturated(cells@, tree_cell as int, level as int, c, range);
                }
            }
        }
    }
    let mut out: Vec<i32> = Vec::new();
    let mut c: usize = 0;
    while c < 37
        invariant
            c <= 37,
            forall|i: int, j: int| 0 <= i < j < out.len() ==> out[i] < out[j],
            forall|k: int| 0 <= k < out.len() ==> 0 <= #[trigger] out[k] < c && reached[out[k] as int] != 0,
            forall|b: int| 0 <= b < c && reached[b] != 0 ==> out@.contains(b as i32),
        decreases 37 - c,
    {
        if reached[c] != 0 {
            let ghost earlier = out@;
            out.push(c as i32);
            proof {
                assert forall|b: int| 0 <= b < c + 1 && reached[b] != 0 implies out@.contains(
                    b as i32,
                ) by {
                    if b < c {
                        let k = choose|k: int| 0 <= k < earlier.len() && earlier[k] == b as i32;
                        assert(out@[k] == b as i32);
                    } else {
                        assert(out@[earlier.len() as int] == b as i32);
                    }
                }
            }
        }
        c += 1;
    }
    proof {
        if out@.contains(tree_cell as i32) {
            let k = choose|k: int| 0 <= k < out.len() && out[k] == tree_cell as i32;
            assert(reached[out[k] as int] != 0);
        }
        assert forall|k: int| 0 <= k < out.len() implies seedable(
            cells@,
            tree_cell as int,
            tree_size as int,
            #[trigger] out[k] as int,
        ) by {
            assert(reached[out[k] as int] != 0);
        }
        assert forall|b: int|
            seedable(cells@, tree_cell as int, tree_size as int, b) implies out@.contains(
            b as i32,
        ) by {
            assert(reached[b] != 0);
        }
    }
    out
}

/// The cells on which `tree` can plant, in ascending order.
pub fn get_tree_seedable_cells(tree: &Tree, cells: &Vec<Cell>) -> (out: Vec<i32>)
    requires
        valid_board(cells@),
        valid_tree(*tree, cells@),
    ensures
        is_planting_list(out@, cells@, tree.cell_index as int, tree.size as int),
        !out@.contains(tree.cell_index),
{
    get_seedable_cells_for_cell_and_size(tree.cell_index as usize, tree.size, cells)
}

/// Builds the planting index of a board: for every cell, the planting lists
/// of a unit of size 1, 2 and 3 on that cell.
pub fn get_seedable_cells(cells: &Vec<Cell>) -> (index: Vec<Vec<Vec<i32>>>)
    requires
        valid_board(cells@),
    ensures
        is_planting_index(index.deep_view(), cells@),
        valid_index(index.deep_view()),
{
    let mut index: Vec<Vec<Vec<i32>>> = Vec::new();
    let mut cell: usize = 0;
    while cell < 37
        invariant
            cell <= 37,
            valid_board(cells@),
            index.len() == cell,
            forall|c: int| 0 <= c < cell ==> (#[trigger] index@[c]).len() == 3,
            forall|c: int, s: int|
                0 <= c < cell && 0 <= s < 3 ==> is_planting_list(
                    (#[trigger] index@[c]@[s])@,
                    cells@,
                    c,
                    s + 1,
                ),
        decreases 37 - cell,
    {
        let mut lists: Vec<Vec<i32>> = Vec::new();
        let mut size: i32 = 1;
        while size <= 3
            invariant
                1 <= size <= 4,
                cell < 37,
                valid_board(cells@),
                lists.len() == size - 1,
                forall|s: int|
                    0 <= s < size - 1 ==> is_planting_list(
                        (#[trigger] lists@[s])@,
                        cells@,
                        cell as int,
                        s + 1,
                    ),
            decreases 4 - size,
        {
            lists.push(get_seedable_cells_for_cell_and_size(cell, size, cells));
            size += 1;
        }
        index.push(lists);
        cell += 1;
    }
    proof {
        let deep = index.deep_view();
        assert(deep.len() == 37);
        assert forall|c: int| 0 <= c < 37 implies (#[trigger] deep[c]).len() == 3 by {
            assert(deep[c] == index@[c].deep_view());
        }
        assert forall|c: int, s: int| 0 <= c < 37 && 0 <= s < 3 implies is_planting_list(
            #[trigger] deep[c][s],
            cells@,
            c,
            s + 1,
        ) by {
            assert(deep[c] == index@[c].deep_view());
            assert(deep[c][s] == index@[c]@[s].deep_view());
            assert(index@[c]@[s].deep_view() =~= index@[c]@[s]@);
        }
        lemma_planting_index_valid(deep, cells@);
    }
    index
}

} // verus!
