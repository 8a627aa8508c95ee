//! Income: the energy that units gather under the shadows of a day, and the
//! integer quantities on which a state is judged.

use crate::board::{valid_cell, Cell};
use crate::shadow::{
    cast_shadows, darkens, direction_of, lemma_shade_is_tallest, shade, shadow_direction,
    Projection,
};
use crate::state::{lemma_wf_unit_count, valid_tree, valid_trees, GameState, State, Tree};
use vstd::prelude::*;

verus! {

/// Added to the estimate of what each unit gathers, lit or not, so that a
/// state with more units is judged richer.
pub const PLANTING_INCENTIVE: i32 = 2;

/// Added to the fertility of the cell of each unit in the soil score.
pub const SOIL_BONUS: i32 = 3;

/// What a unit gathers in a day on which its cell lies under a shadow of
/// height `shade`: its size if it is taller than the shadow, nothing
/// otherwise.
pub open spec fn unit_income(tree: Tree, shade: int) -> int {
    if tree.size > shade {
        tree.size as int
    } else {
        0
    }
}

/// What the unit `tree` gathers on `day` among the units `all`.
pub open spec fn income_on(tree: Tree, all: Seq<Tree>, cells: Seq<Cell>, day: int) -> int {
    unit_income(
        tree,
        shade(
            Projection::Actual,
            all,
            cells,
            shadow_direction(day),
            tree.cell_index as int,
            all.len() as int,
        ),
    )
}

/// What the first `upto` units of `owned` gather on `day` among the units
/// `all`.
pub open spec fn income_of(owned: Seq<Tree>, all: Seq<Tree>, cells: Seq<Cell>, day: int, upto: int) -> int
    decreases upto,
{
    if upto <= 0 {
        0
    } else {
        income_of(owned, all, cells, day, upto - 1) + income_on(owned[upto - 1], all, cells, day)
    }
}

/// The sum of the fertility of the cells of the first `upto` units of
/// `owned`, each raised by `SOIL_BONUS`.
pub open spec fn soil_score(owned: Seq<Tree>, upto: int) -> int
    decreases upto,
{
    if upto <= 0 {
        0
    } else {
        soil_score(owned, upto - 1) + owned[upto - 1].cell.richness + SOIL_BONUS
    }
}

/// The estimate of what `tree` gathers `days_ahead` days from now if every
/// unit on the board were fully grown by then, the planting incentive
/// included.
pub open spec fn estimate_for(s: State, tree: Tree, days_ahead: int) -> int {
    unit_income(
        tree,
        shade(
            Projection::FullGrown,
            s.all_trees(),
            s.cells,
            shadow_direction(s.day + days_ahead),
            tree.cell_index as int,
            s.all_trees().len() as int,
        ),
    ) + PLANTING_INCENTIVE
}

impl State {
    /// The energy that my units gather on the day after this one.
    pub open spec fn income(self) -> int {
        income_of(self.my_trees, self.all_trees(), self.cells, self.day + 1, self.my_trees.len() as int)
    }
}

/// The income of valid units lies between nothing and three per unit.
proof fn lemma_income_bounds(owned: Seq<Tree>, all: Seq<Tree>, cells: Seq<Cell>, day: int, upto: int)
    requires
        0 <= upto <= owned.len(),
        valid_trees(owned, cells),
    ensures
        0 <= income_of(owned, all, cells, day, upto) <= 3 * upto,
    decreases upto,
{
    if upto > 0 {
        lemma_income_bounds(owned, all, cells, day, upto - 1);
        assert(valid_tree(owned[upto - 1], cells));
    }
}

/// In a well-formed state my income lies between 0 and 111.
pub proof fn lemma_state_income_bounds(s: State)
    requires
        s.wf(),
    ensures
        0 <= s.income() <= 111,
{
    lemma_wf_unit_count(s);
    lemma_income_bounds(s.my_trees, s.all_trees(), s.cells, s.day + 1, s.my_trees.len() as int);
}

/// A unit that stands in the shadow of a unit at least as tall gathers
/// nothing: where some unit of `all` darkens the cell of `tree` on `day`
/// and is at least as tall as `tree`, the income of `tree` is 0.
pub proof fn lemma_shaded_unit_gathers_nothing(
    tree: Tree,
    all: Seq<Tree>,
    cells: Seq<Cell>,
    day: int,
    by: int,
)
    requires
        0 <= by < all.len(),
        darkens(
            Projection::Actual,
            all[by],
            cells,
            shadow_direction(day),
            tree.cell_index as int,
        ),
        tree.size <= all[by].size,
    ensures
        income_on(tree, all, cells, day) == 0,
{
    lemma_shade_is_tallest(
        Projection::Actual,
        all,
        cells,
        shadow_direction(day),
        tree.cell_index as int,
        all.len() as int,
    );
}

/// All units of a state in one list, mine first.
pub fn all_trees_of(game_state: &GameState) -> (all: Vec<Tree>)
    ensures
        all@ == game_state@.all_trees(),
{
    let mut all: Vec<Tree> = Vec::new();
    let mut i: usize = 0;
    while i < game_state.my_trees.len()
        invariant
            i <= game_state.my_trees.len(),
            all@ == game_state.my_trees@.take(i as int),
        decreases game_state.my_trees.len() - i,
    {
        all.push(game_state.my_trees[i]);
        assert(game_state.my_trees@.take(i + 1) =~= game_state.my_trees@.take(i as int).push(
            game_state.my_trees@[i as int],
        ));
        i += 1;
    }
    assert(game_state.my_trees@.take(game_state.my_trees.len() as int) =~= game_state.my_trees@);
    let mut j: usize = 0;
    while j < game_state.opponent_trees.len()
        invariant
            j <= game_state.opponent_trees.len(),
            all@ == game_state.my_trees@ + game_state.opponent_trees@.take(j as int),
        decreases game_state.opponent_trees.len() - j,
    {
        all.push(game_state.opponent_trees[j]);
        assert(game_state.my_trees@ + game_state.opponent_trees@.take(j + 1) =~= (
        game_state.my_trees@ + game_state.opponent_trees@.take(j as int)).push(
            game_state.opponent_trees@[j as int],
        ));
        j += 1;
    }
    assert(game_state.opponent_trees@.take(game_state.opponent_trees.len() as int)
        =~= game_state.opponent_trees@);
    all
}

/// The units of a well-formed state, listed together, are valid.
pub proof fn lemma_all_trees_valid(s: State)
    requires
        s.wf(),
    ensures
        valid_trees(s.all_trees(), s.cells),
        s.all_trees().len() <= 37,
{
    lemma_wf_unit_count(s);
    let all = s.all_trees();
    assert forall|i: int| 0 <= i < all.len() implies valid_tree(#[trigger] all[i], s.cells) by {
        if i < s.my_trees.len() {
            assert(valid_tree(s.my_trees[i], s.cells));
        } else {
            assert(valid_tree(s.opponent_trees[i - s.my_trees.len()], s.cells));
        }
    }
}

/// What each unit of `owned` gathers under the shadows `shadows`, with
/// `bonus` on top, one entry per unit.
pub fn gather(owned: &Vec<Tree>, shadows: &[i32; 37], bonus: i32) -> (out: Vec<i32>)
    requires
        forall|i: int|
            0 <= i < owned.len() ==> 0 <= (#[trigger] owned[i]).cell_index < 37 && 0 <= owned[i].size
                <= 3,
        0 <= bonus <= i32::MAX - 3,
    ensures
        out.len() == owned.len(),
        forall|i: int|
            0 <= i < owned.len() ==> #[trigger] out[i] == unit_income(
                owned[i],
                shadows[owned[i].cell_index as int] as int,
            ) + bonus,
{
    let mut out: Vec<i32> = Vec::new();
    let mut i: usize = 0;
    while i < owned.len()
        invariant
            i <= owned.len(),
            out.len() == i,
            0 <= bonus <= i32::MAX - 3,
            forall|k: int|
                0 <= k < owned.len() ==> 0 <= (#[trigger] owned[k]).cell_index < 37 && 0
                    <= owned[k].size <= 3,
            forall|k: int|
                0 <= k < i ==> #[trigger] out[k] == unit_income(
                    owned[k],
                    shadows[owned[k].cell_index as int] as int,
                ) + bonus,
        decreases owned.len() - i,
    {
        let tree: Tree = owned[i];
        assert(0 <= owned[i as int].cell_index < 37);
        let lit: i32 = if tree.size > shadows[tree.cell_index as usize] {
            tree.size
        } else {
            0
        };
        out.push(lit + bonus);
        i += 1;
    }
    out
}

/// The energy that my units gather on the day after the state's day: each
/// unit that is taller than the shadow on its cell gathers its size.
pub fn get_sunpoint_rate(game_state: &GameState) -> (rate: i32)
    requires
        game_state.wf(),
    ensures
        rate == game_state@.income(),
        0 <= rate <= 111,
{
    let all: Vec<Tree> = all_trees_of(game_state);
    proof {
        lemma_all_trees_valid(game_state@);
        lemma_state_income_bounds(game_state@);
    }
    let direction: usize = direction_of(game_state.day + 1);
    let shadows: [i32; 37] = cast_shadows(&all, direction, &game_state.cells, Projection::Actual);
    let mut rate: i32 = 0;
    let mut i: usize = 0;
    while i < game_state.my_trees.len()
        invariant
            i <= game_state.my_trees.len(),
            game_state.wf(),
            all@ == game_state@.all_trees(),
            direction == shadow_direction(game_state.day + 1),
            forall|c: int|
                0 <= c < 37 ==> #[trigger] shadows[c] == shade(
                    Projection::Actual,
                    all@,
                    game_state.cells@,
                    direction as int,
                    c,
                    all.len() as int,
                ),
            rate == income_of(
                game_state.my_trees@,
                all@,
                game_state.cells@,
                game_state.day + 1,
                i as int,
            ),
        decreases game_state.my_trees.len() - i,
    {
        let tree: Tree = game_state.my_trees[i];
        proof {
            assert(valid_tree(game_state.my_trees@[i as int], game_state.cells@));
            lemma_income_bounds(
                game_state.my_trees@,
                all@,
                game_state.cells@,
                game_state.day + 1,
                i as int,
            );
            lemma_wf_unit_count(game_state@);
        }
        if tree.size > shadows[tree.cell_index as usize] {
            rate += tree.size;
        }
        i += 1;
    }
    rate
}

/// The soil score of my units: the fertility of the cell of each, raised
/// by `SOIL_BONUS`, summed.
pub fn get_richness_score(game_state: &GameState) -> (score: i32)
    requires
        game_state.wf(),
    ensures
        score == soil_score(game_state.my_trees@, game_state.my_trees.len() as int),
{
    let mut score: i32 = 0;
    let mut i: usize = 0;
    proof {
        lemma_wf_unit_count(game_state@);
    }
    while i < game_state.my_trees.len()
        invariant
            i <= game_state.my_trees.len(),
            game_state.my_trees.len() <= 37,
            game_state.wf(),
            0 <= score <= 6 * i,
            score == soil_score(game_state.my_trees@, i as int),
        decreases game_state.my_trees.len() - i,
    {
        let tree: Tree = game_state.my_trees[i];
        proof {
            assert(valid_tree(game_state.my_trees@[i as int], game_state.cells@));
            assert(valid_cell(
                game_state.cells@[tree.cell_index as int],
                tree.cell_index as int,
            ));
        }
        score += tree.cell.richness + SOIL_BONUS;
        i += 1;
    }
    score
}

/// An estimate of what each of my units gathers `days_ahead` days from now,
/// one entry per unit: its size if it is taller than a shadow of full
/// height cast by every unit within three steps against the light, nothing
/// otherwise, with `PLANTING_INCENTIVE` on top.
pub fn get_estimated_sunpoints(game_state: &GameState, days_ahead: i32) -> (out: Vec<i32>)
    requires
        game_state.wf(),
        0 <= days_ahead <= i32::MAX - 23,
    ensures
        out.len() == game_state.my_trees.len(),
        forall|i: int|
            0 <= i < out.len() ==> #[trigger] out[i] == estimate_for(
                game_state@,
                game_state.my_trees@[i],
                days_ahead as int,
            ),
{
    let all: Vec<Tree> = all_trees_of(game_state);
    proof {
        lemma_all_trees_valid(game_state@);
    }
    let direction: usize = direction_of(game_state.day + days_ahead);
    let shadows: [i32; 37] = cast_shadows(&all, direction, &game_state.cells, Projection::FullGrown);
    proof {
        assert forall|i: int| 0 <= i < game_state.my_trees.len() implies 0 <= (
        #[trigger] game_state.my_trees[i]).cell_index < 37 && 0 <= game_state.my_trees[i].size
            <= 3 by {
            assert(valid_tree(game_state.my_trees@[i], game_state.cells@));
        }
    }
    gather(&game_state.my_trees, &shadows, PLANTING_INCENTIVE)
}

/// What each unit of my opponent gathers `days_ahead` days from now if the
/// board stays as it is, one entry per unit.
pub fn get_estimated_sunpoints_for_enemy(game_state: &GameState, days_ahead: i32) -> (out: Vec<i32>)
    requires
        game_state.wf(),
        0 <= days_ahead <= i32::MAX - 23,
    ensures
        out.len() == game_state.opponent_trees.len(),
        forall|i: int|
            0 <= i < out.len() ==> #[trigger] out[i] == income_on(
                game_state.opponent_trees@[i],
                game_state@.all_trees(),
                game_state.cells@,
                game_state.day + days_ahead,
            ),
{
    let all: Vec<Tree> = all_trees_of(game_state);
    proof {
        lemma_all_trees_valid(game_state@);
    }
    let direction: usize = direction_of(game_state.day + days_ahead);
    let shadows: [i32; 37] = cast_shadows(&all, direction, &game_state.cells, Projection::Actual);
    proof {
        assert forall|i: int| 0 <= i < game_state.opponent_trees.len() implies 0 <= (
        #[trigger] game_state.opponent_trees[i]).cell_index < 37 && 0
            <= game_state.opponent_trees[i].size <= 3 by {
            assert(valid_tree(game_state.opponent_trees@[i], game_state.cells@));
        }
    }
    gather(&game_state.opponent_trees, &shadows, 0)
}

} // verus!
