//! Shadows: which cells a unit darkens on a given day, and how dark every
//! cell of the field is.

use crate::board::{cells_along, lemma_ray_bounds, neighbour_of, ray, valid_board, valid_cell, Cell};
use crate::state::{valid_tree, valid_trees, Tree};
use vstd::prelude::*;

verus! {

/// Length and height of the shadow of a fully grown unit.
pub const FULL_SHADOW: i32 = 3;

/// How long and how tall the shadow of a unit is taken to be.
#[derive(Clone, Copy, Debug, PartialEq, Eq, Structural)]
pub enum Projection {
    /// As long and as tall as the unit's size.
    Actual,
    /// As long as the shadow of a fully grown unit, as tall as the unit's size.
    FullLength,
    /// As long and as tall as the shadow of a fully grown unit.
    FullGrown,
}

/// The direction in which shadows fall on `day`.
pub open spec fn shadow_direction(day: int) -> int {
    day % 6
}

/// The length of the shadow of `tree` under `projection`.
pub open spec fn shadow_len(projection: Projection, tree: Tree) -> int {
    match projection {
        Projection::Actual => tree.size as int,
        Projection::FullLength => 3,
        Projection::FullGrown => 3,
    }
}

/// The height of the shadow of `tree` under `projection`.
pub open spec fn shadow_top(projection: Projection, tree: Tree) -> int {
    match projection {
        Projection::Actual => tree.size as int,
        Projection::FullLength => tree.size as int,
        Projection::FullGrown => 3,
    }
}

/// The cells darkened by a shadow of length `len` that falls from the cell
/// `origin` in direction `dir`: the cells next to `origin` in that
/// direction, nearest first. `origin` itself is not among them.
pub open spec fn shadow_from(cells: Seq<Cell>, origin: int, dir: int, len: int) -> Seq<i32> {
    ray(cells, neighbour_of(cells, origin, dir), dir, len)
}

/// `tree` darkens `cell` when shadows fall in direction `dir`.
pub open spec fn darkens(
    projection: Projection,
    tree: Tree,
    cells: Seq<Cell>,
    dir: int,
    cell: int,
) -> bool {
    shadow_from(cells, tree.cell_index as int, dir, shadow_len(projection, tree)).contains(
        cell as i32,
    )
}

/// The height of the shadow that the first `upto` units of `trees` cast on
/// `cell`: the tallest shadow of a unit that darkens the cell, 0 when none
/// does.
pub open spec fn shade(
    projection: Projection,
    trees: Seq<Tree>,
    cells: Seq<Cell>,
    dir: int,
    cell: int,
    upto: int,
) -> int
    decreases upto,
{
    if upto <= 0 {
        0
    } else {
        let below = shade(projection, trees, cells, dir, cell, upto - 1);
        let tree = trees[upto - 1];
        if darkens(projection, tree, cells, dir, cell) && below < shadow_top(projection, tree) {
            shadow_top(projection, tree)
        } else {
            below
        }
    }
}

/// The height of the shadow on `cell` on `day`, every unit of `trees`
/// casting a shadow as long and as tall as its size.
pub open spec fn shadow_at(trees: Seq<Tree>, cells: Seq<Cell>, day: int, cell: int) -> int {
    shade(Projection::Actual, trees, cells, shadow_direction(day), cell, trees.len() as int)
}

/// Some cell of the board, were a fully grown unit standing on it, would
/// darken `cell`.
pub open spec fn in_reach_of_some_cell(cells: Seq<Cell>, dir: int, cell: int) -> bool {
    exists|origin: int|
        0 <= origin < 37 && (#[trigger] shadow_from(cells, origin, dir, 3)).contains(cell as i32)
}

/// The shade on `cell` when a unit of size 1 is imagined on every cell of
/// the board: 1 where the units that stand cast no shadow but a fully grown
/// unit on some cell would, `shade` elsewhere.
pub open spec fn with_imagined_units(shade: int, cells: Seq<Cell>, dir: int, cell: int) -> int {
    if shade < 1 && in_reach_of_some_cell(cells, dir, cell) {
        1
    } else {
        shade
    }
}

/// The shade on a cell is the greatest shadow height among the units that
/// darken it: it is at least 0 and at least the height of each such unit,
/// and where it is not 0 one of these units has exactly that height.
pub proof fn lemma_shade_is_tallest(
    projection: Projection,
    trees: Seq<Tree>,
    cells: Seq<Cell>,
    dir: int,
    cell: int,
    upto: int,
)
    requires
        0 <= upto <= trees.len(),
    ensures
        0 <= shade(projection, trees, cells, dir, cell, upto),
        forall|i: int|
            0 <= i < upto && darkens(projection, #[trigger] trees[i], cells, dir, cell)
                ==> shadow_top(projection, trees[i]) <= shade(
                projection,
                trees,
                cells,
                dir,
                cell,
                upto,
            ),
        shade(projection, trees, cells, dir, cell, upto) == 0 || exists|i: int|
            0 <= i < upto && darkens(projection, #[trigger] trees[i], cells, dir, cell)
                && shadow_top(projection, trees[i]) == shade(
                projection,
                trees,
                cells,
                dir,
                cell,
                upto,
            ),
    decreases upto,
{
    if upto > 0 {
        lemma_shade_is_tallest(projection, trees, cells, dir, cell, upto - 1);
        let below = shade(projection, trees, cells, dir, cell, upto - 1);
        let now = shade(projection, trees, cells, dir, cell, upto);
        let last = trees[upto - 1];
        if now != 0 {
            if now == below {
                let i = choose|i: int|
                    0 <= i < upto - 1 && darkens(projection, #[trigger] trees[i], cells, dir, cell)
                        && shadow_top(projection, trees[i]) == below;
                assert(0 <= i < upto && darkens(projection, trees[i], cells, dir, cell)
                    && shadow_top(projection, trees[i]) == now);
            } else {
                assert(darkens(projection, last, cells, dir, cell) && shadow_top(projection, last)
                    == now);
            }
        }
    }
}

/// The cells that a fully grown unit on `cell_index` would darken when
/// shadows fall in `direction`, nearest first.
pub fn get_maxed_out_tree_shadow_cells(cell_index: i32, cells: &Vec<Cell>, direction: usize) -> (out:
    Vec<i32>)
    requires
        valid_board(cells@),
        0 <= cell_index < 37,
        direction < 6,
    ensures
        out@ == shadow_from(cells@, cell_index as int, direction as int, 3),
{
    assert(valid_cell(cells@[cell_index as int], cell_index as int));
    let first: i32 = cells[cell_index as usize].neighbours[direction];
    cells_along(cells, first, direction, FULL_SHADOW)
}

/// The cells that `tree` darkens when shadows fall in `direction`, nearest
/// first: as many as its size, fewer at the edge of the board.
pub fn get_tree_shadow_cells(tree: &Tree, cells: &Vec<Cell>, direction: usize) -> (out: Vec<i32>)
    requires
        valid_board(cells@),
        valid_tree(*tree, cells@),
        direction < 6,
    ensures
        out@ == shadow_from(cells@, tree.cell_index as int, direction as int, tree.size as int),
{
    assert(valid_cell(cells@[tree.cell_index as int], tree.cell_index as int));
    let first: i32 = tree.cell.neighbours[direction];
    cells_along(cells, first, direction, tree.size)
}

/// Raises the entries of `shadows` at the cells of `darkened` to `top`.
fn raise(shadows: &mut [i32; 37], darkened: &Vec<i32>, top: i32)
    requires
        forall|k: int| 0 <= k < darkened.len() ==> 0 <= #[trigger] darkened[k] < 37,
    ensures
        forall|c: int|
            0 <= c < 37 ==> #[trigger] final(shadows)[c] == if darkened@.contains(c as i32) && old(
                shadows,
            )[c] < top {
                top
            } else {
                old(shadows)[c]
            },
{
    let mut k: usize = 0;
    while k < darkened.len()
        invariant
            k <= darkened.len(),
            forall|m: int| 0 <= m < darkened.len() ==> 0 <= #[trigger] darkened[m] < 37,
            forall|c: int|
                0 <= c < 37 ==> #[trigger] shadows[c] == if darkened@.take(k as int).contains(
                    c as i32,
                ) && old(shadows)[c] < top {
                    top
                } else {
                    old(shadows)[c]
                },
        decreases darkened.len() - k,
    {
        let at: usize = darkened[k] as usize;
        let ghost seen = darkened@.take(k as int);
        let ghost next = darkened@.take(k + 1);
        if shadows[at] < top {
            shadows[at] = top;
        }
        proof {
            assert(next =~= seen.push(darkened@[k as int]));
            assert forall|c: int| 0 <= c < 37 implies #[trigger] shadows[c] == if next.contains(
                c as i32,
            ) && old(shadows)[c] < top {
                top
            } else {
                old(shadows)[c]
            } by {
                if seen.contains(c as i32) {
                    let m = choose|m: int| 0 <= m < seen.len() && seen[m] == c as i32;
                    assert(next[m] == c as i32);
                }
                if c == at {
                    assert(next[k as int] == c as i32);
                }
                if next.contains(c as i32) && c != at {
                    let m = choose|m: int| 0 <= m < next.len() && next[m] == c as i32;
                    assert(seen[m] == c as i32);
                }
            }
        }
        k += 1;
    }
    assert(darkened@.take(darkened.len() as int) =~= darkened@);
}

/// The shade on every cell when shadows fall in `direction` and every unit
/// of `trees` casts a shadow under `projection`.
pub fn cast_shadows(
    trees: &Vec<Tree>,
    direction: usize,
    cells: &Vec<Cell>,
    projection: Projection,
) -> (shadows: [i32; 37])
    requires
        valid_board(cells@),
        valid_trees(trees@, cells@),
        direction < 6,
    ensures
        forall|c: int|
            0 <= c < 37 ==> #[trigger] shadows[c] == shade(
                projection,
                trees@,
                cells@,
                direction as int,
                c,
                trees.len() as int,
            ),
{
    let mut shadows: [i32; 37] = [0; 37];
    let mut i: usize = 0;
    while i < trees.len()
        invariant
            i <= trees.len(),
            valid_board(cells@),
            valid_trees(trees@, cells@),
            direction < 6,
            forall|c: int|
                0 <= c < 37 ==> #[trigger] shadows[c] == shade(
                    projection,
                    trees@,
                    cells@,
                    direction as int,
                    c,
                    i as int,
                ),
        decreases trees.len() - i,
    {
        let tree: Tree = trees[i];
        assert(valid_tree(trees@[i as int], cells@));
        let len: i32 = match projection {
            Projection::Actual => tree.size,
            Projection::FullLength => FULL_SHADOW,
            Projection::FullGrown => FULL_SHADOW,
        };
        let top: i32 = match projection {
            Projection::Actual => tree.size,
            Projection::FullLength => tree.size,
            Projection::FullGrown => FULL_SHADOW,
        };
        assert(valid_cell(cells@[tree.cell_index as int], tree.cell_index as int));
        let first: i32 = cells[tree.cell_index as usize].neighbours[direction];
        let darkened: Vec<i32> = cells_along(cells, first, direction, len);
        proof {
            lemma_ray_bounds(cells@, first as int, direction as int, len as int);
        }
        raise(&mut shadows, &darkened, top);
        i += 1;
    }
    shadows
}

/// The direction in which shadows fall on `day`.
pub fn direction_of(day: i32) -> (direction: usize)
    requires
        0 <= day,
    ensures
        direction == shadow_direction(day as int),
        direction < 6,
{
    (day % 6) as usize
}

/// The height of the shadow on every cell on `day`, every unit of `trees`
/// casting a shadow as long and as tall as its size.
pub fn get_shadows_in_field(trees: &Vec<Tree>, day: i32, cells: &Vec<Cell>) -> (shadows: [i32; 37])
    requires
        valid_board(cells@),
        valid_trees(trees@, cells@),
        0 <= day,
    ensures
        forall|c: int| 0 <= c < 37 ==> #[trigger] shadows[c] == shadow_at(trees@, cells@, day as int, c),
{
    cast_shadows(trees, direction_of(day), cells, Projection::Actual)
}

/// The height of the shadow on every cell on `day`, every unit of `trees`
/// taken to be fully grown: 3 on the cells within three steps of a unit in
/// the day's direction, 0 elsewhere.
pub fn get_maxed_out_shadows_in_field(trees: &Vec<Tree>, day: i32, cells: &Vec<Cell>) -> (shadows: [
    i32;
    37
])
    requires
        valid_board(cells@),
        valid_trees(trees@, cells@),
        0 <= day,
    ensures
        forall|c: int|
            0 <= c < 37 ==> #[trigger] shadows[c] == shade(
                Projection::FullGrown,
                trees@,
                cells@,
                shadow_direction(day as int),
                c,
                trees.len() as int,
            ),
{
    cast_shadows(trees, direction_of(day), cells, Projection::FullGrown)
}

/// The height of the shadow on every cell on `day`, every unit of `trees`
/// casting a shadow as tall as its size and as long as that of a fully
/// grown unit.
pub fn get_maxed_out_shadows_in_field_with_real_size(
    trees: &Vec<Tree>,
    day: i32,
    cells: &Vec<Cell>,
) -> (shadows: [i32; 37])
    requires
        valid_board(cells@),
        valid_trees(trees@, cells@),
        0 <= day,
    ensures
        forall|c: int|
            0 <= c < 37 ==> #[trigger] shadows[c] == shade(
                Projection::FullLength,
                trees@,
                cells@,
                shadow_direction(day as int),
                c,
                trees.len() as int,
            ),
{
    cast_shadows(trees, direction_of(day), cells, Projection::FullLength)
}

/// As [`get_maxed_out_shadows_in_field`], with a unit of size 1 imagined on
/// every cell of the board: a cell that no unit of `trees` darkens has
/// height 1 if it lies within three steps of any cell in the day's
/// direction.
pub fn get_maxed_out_shadows_in_field_with_simulated_trees(
    trees: &Vec<Tree>,
    day: i32,
    cells: &Vec<Cell>,
) -> (shadows: [i32; 37])
    requires
        valid_board(cells@),
        valid_trees(trees@, cells@),
        0 <= day,
    ensures
        forall|c: int|
            0 <= c < 37 ==> #[trigger] shadows[c] == with_imagined_units(
                shade(
                    Projection::FullGrown,
                    trees@,
                    cells@,
                    shadow_direction(day as int),
                    c,
                    trees.len() as int,
                ),
                cells@,
                shadow_direction(day as int),
                c,
            ),
{
    let direction: usize = direction_of(day);
    let plain: [i32; 37] = cast_shadows(trees, direction, cells, Projection::FullGrown);
    let mut shadows: [i32; 37] = plain;
    let mut origin: usize = 0;
    while origin < 37
        invariant
            origin <= 37,
            valid_board(cells@),
            direction < 6,
            forall|c: int|
                0 <= c < 37 ==> #[trigger] shadows[c] == if plain[c] < 1 && exists|o: int|
                    0 <= o < origin && (#[trigger] shadow_from(
                        cells@,
                        o,
                        direction as int,
                        3,
                    )).contains(c as i32) {
                    1
                } else {
                    plain[c]
                },
        decreases 37 - origin,
    {
        let darkened: Vec<i32> = get_maxed_out_tree_shadow_cells(origin as i32, cells, direction);
        let ghost before = shadows;
        proof {
            assert(valid_cell(cells@[origin as int], origin as int));
            lemma_ray_bounds(
                cells@,
                neighbour_of(cells@, origin as int, direction as int),
                direction as int,
                3,
            );
        }
        raise(&mut shadows, &darkened, 1);
        proof {
            assert forall|c: int| 0 <= c < 37 implies #[trigger] shadows[c] == if plain[c] < 1
                && exists|o: int|
                0 <= o < origin + 1 && (#[trigger] shadow_from(
                    cells@,
                    o,
                    direction as int,
                    3,
                )).contains(c as i32) {
                1
            } else {
                plain[c]
            } by {
                let here = shadow_from(cells@, origin as int, direction as int, 3);
                if exists|o: int|
                    0 <= o < origin && (#[trigger] shadow_from(
                        cells@,
                        o,
                        direction as int,
                        3,
                    )).contains(c as i32) {
                    let o = choose|o: int|
                        0 <= o < origin && (#[trigger] shadow_from(
                            cells@,
                            o,
                            direction as int,
                            3,
                        )).contains(c as i32);
                    assert(0 <= o < origin + 1 && shadow_from(
                        cells@,
                        o,
                        direction as int,
                        3,
                    ).contains(c as i32));
                }
                if here.contains(c as i32) {
                    assert(0 <= origin < origin + 1 && shadow_from(
                        cells@,
                        origin as int,
                        direction as int,
                        3,
                    ).contains(c as i32));
                }
            }
        }
        origin += 1;
    }
    shadows
}

} // verus!
