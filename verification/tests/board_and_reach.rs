use grove_planner::board::{cells_along, is_valid_board, is_valid_cell, Cell};
use grove_planner::reach::{
    get_seedable_cells, get_seedable_cells_for_cell_and_size, get_tree_seedable_cells, is_valid_index,
};
use grove_planner::state::Tree;

const STEPS: [(i32, i32, i32); 6] =
    [(1, -1, 0), (1, 0, -1), (0, 1, -1), (-1, 1, 0), (-1, 0, 1), (0, -1, 1)];

/// The board of the game: cell 0 in the centre, then three rings, each
/// numbered from its cell in direction 0.
fn board() -> Vec<Cell> {
    let mut places: Vec<(i32, i32, i32)> = vec![(0, 0, 0)];
    let mut at = STEPS[0];
    for distance in 1..=3 {
        for side in 0..6 {
            for _ in 0..distance {
                places.push(at);
                let step = STEPS[(side + 2) % 6];
                at = (at.0 + step.0, at.1 + step.1, at.2 + step.2);
            }
        }
        at = (at.0 + STEPS[0].0, at.1 + STEPS[0].1, at.2 + STEPS[0].2);
    }
    let mut cells = Vec::new();
    for (i, place) in places.iter().enumerate() {
        let ring = (place.0.abs() + place.1.abs() + place.2.abs()) / 2;
        let mut neighbours = [-1; 6];
        for (d, step) in STEPS.iter().enumerate() {
            let next = (place.0 + step.0, place.1 + step.1, place.2 + step.2);
            if let Some(j) = places.iter().position(|other| *other == next) {
                neighbours[d] = j as i32;
            }
        }
        let richness = if ring <= 1 { 3 } else if ring == 2 { 2 } else { 1 };
        cells.push(Cell { index: i as i32, richness, neighbours });
    }
    cells
}

fn tree(cells: &Vec<Cell>, cell: i32, size: i32) -> Tree {
    Tree { cell_index: cell, size, is_mine: true, is_dormant: false, cell: cells[cell as usize] }
}

#[test]
fn board_has_the_expected_shape() {
    let cells = board();
    assert_eq!(cells.len(), 37);
    assert_eq!(cells[0].neighbours, [1, 2, 3, 4, 5, 6]);
    assert_eq!(cells[1].neighbours, [7, 8, 2, 0, 6, 18]);
    assert_eq!(cells[19].neighbours, [-1, -1, 20, 7, 36, -1]);
    assert_eq!(cells[36].neighbours, [-1, 19, 7, 18, 35, -1]);
    assert_eq!(cells[0].richness, 3);
    assert_eq!(cells[7].richness, 2);
    assert_eq!(cells[19].richness, 1);
    assert!(is_valid_board(&cells));
}

#[test]
fn board_with_too_few_cells_is_invalid() {
    let mut cells = board();
    cells.pop();
    assert!(!is_valid_board(&cells));
    assert!(!is_valid_board(&Vec::new()));
}

#[test]
fn board_with_a_misplaced_cell_is_invalid() {
    let mut cells = board();
    cells.swap(3, 4);
    assert!(!is_valid_board(&cells));
}

#[test]
fn board_with_a_neighbour_off_the_board_is_invalid() {
    let mut cells = board();
    cells[5].neighbours[2] = 37;
    assert!(!is_valid_board(&cells));
    cells[5].neighbours[2] = -2;
    assert!(!is_valid_board(&cells));
    cells[5].neighbours[2] = -1;
    assert!(is_valid_board(&cells));
}

#[test]
fn board_with_an_unknown_fertility_is_invalid() {
    let mut cells = board();
    cells[9].richness = 4;
    assert!(!is_valid_board(&cells));
    cells[9].richness = -1;
    assert!(!is_valid_board(&cells));
    cells[9].richness = 0;
    assert!(is_valid_board(&cells));
}

#[test]
fn cell_validity_depends_on_its_position() {
    let cells = board();
    assert!(is_valid_cell(&cells[12], 12));
    assert!(!is_valid_cell(&cells[12], 13));
    let negative = Cell { index: -1, richness: 1, neighbours: [-1; 6] };
    assert!(!is_valid_cell(&negative, 0));
    assert!(!is_valid_cell(&negative, usize::MAX));
}

#[test]
fn walk_stops_after_the_given_number_of_cells() {
    let cells = board();
    assert_eq!(cells_along(&cells, 1, 0, 3), vec![1, 7, 19]);
    assert_eq!(cells_along(&cells, 1, 0, 2), vec![1, 7]);
    assert_eq!(cells_along(&cells, 1, 0, 1), vec![1]);
    assert_eq!(cells_along(&cells, 28, 0, 6), vec![28, 13, 4, 0, 1, 7]);
}

#[test]
fn walk_stops_at_the_edge() {
    let cells = board();
    assert_eq!(cells_along(&cells, 7, 0, 3), vec![7, 19]);
    assert_eq!(cells_along(&cells, 19, 0, 3), vec![19]);
    assert_eq!(cells_along(&cells, -1, 0, 3), Vec::<i32>::new());
}

#[test]
fn walk_of_no_length_is_empty() {
    let cells = board();
    assert_eq!(cells_along(&cells, 0, 2, 0), Vec::<i32>::new());
    assert_eq!(cells_along(&cells, 0, 2, -5), Vec::<i32>::new());
}

#[test]
fn planting_range_of_the_centre() {
    let cells = board();
    assert_eq!(get_seedable_cells_for_cell_and_size(0, 1, &cells), vec![1, 2, 3, 4, 5, 6]);
    assert_eq!(get_seedable_cells_for_cell_and_size(0, 2, &cells), (1..=18).collect::<Vec<i32>>());
    assert_eq!(get_seedable_cells_for_cell_and_size(0, 3, &cells), (1..=36).collect::<Vec<i32>>());
}

#[test]
fn planting_range_of_a_corner() {
    let cells = board();
    assert_eq!(get_seedable_cells_for_cell_and_size(19, 1, &cells), vec![7, 20, 36]);
    assert_eq!(
        get_seedable_cells_for_cell_and_size(19, 2, &cells),
        vec![1, 7, 8, 18, 20, 21, 35, 36]
    );
    assert_eq!(
        get_seedable_cells_for_cell_and_size(19, 3, &cells),
        vec![0, 1, 2, 6, 7, 8, 9, 17, 18, 20, 21, 22, 34, 35, 36]
    );
    assert_eq!(
        get_seedable_cells_for_cell_and_size(25, 2, &cells),
        vec![3, 10, 11, 12, 23, 24, 26, 27]
    );
}

#[test]
fn planting_range_never_holds_the_origin() {
    let cells = board();
    for origin in 0..37usize {
        for size in -1..=5 {
            let list = get_seedable_cells_for_cell_and_size(origin, size, &cells);
            assert!(!list.contains(&(origin as i32)));
        }
    }
}

#[test]
fn planting_range_is_ascending_and_without_repeats() {
    let cells = board();
    for origin in 0..37usize {
        let list = get_seedable_cells_for_cell_and_size(origin, 3, &cells);
        for pair in list.windows(2) {
            assert!(pair[0] < pair[1]);
        }
    }
}

#[test]
fn planting_range_of_a_seed_is_one_step() {
    let cells = board();
    assert_eq!(get_seedable_cells_for_cell_and_size(0, 0, &cells), vec![1, 2, 3, 4, 5, 6]);
    assert_eq!(get_seedable_cells_for_cell_and_size(19, -3, &cells), vec![7, 20, 36]);
}

#[test]
fn planting_range_beyond_the_board_is_the_whole_board() {
    let cells = board();
    let all_but_22: Vec<i32> = (0..37).filter(|c| *c != 22).collect();
    assert_eq!(get_seedable_cells_for_cell_and_size(22, 6, &cells), all_but_22);
    assert_eq!(get_seedable_cells_for_cell_and_size(22, 7, &cells), all_but_22);
    assert_eq!(get_seedable_cells_for_cell_and_size(22, i32::MAX, &cells), all_but_22);
    assert_eq!(get_seedable_cells_for_cell_and_size(22, 5, &cells).len(), 29);
}

#[test]
fn planting_range_on_a_board_with_a_loop_leaves_the_origin_out() {
    let mut cells = board();
    cells[0].neighbours[0] = 0;
    assert!(is_valid_board(&cells));
    assert_eq!(get_seedable_cells_for_cell_and_size(0, 1, &cells), vec![2, 3, 4, 5, 6]);
    assert_eq!(
        get_seedable_cells_for_cell_and_size(0, 2, &cells),
        vec![1, 2, 3, 4, 5, 6, 8, 9, 10, 11, 12, 13, 14, 15, 16, 17, 18]
    );
}

#[test]
fn planting_range_follows_one_way_links() {
    let mut cells = board();
    for cell in cells.iter_mut() {
        cell.neighbours = [-1; 6];
    }
    cells[3].neighbours[1] = 9;
    cells[9].neighbours[4] = 30;
    assert_eq!(get_seedable_cells_for_cell_and_size(3, 1, &cells), vec![9]);
    assert_eq!(get_seedable_cells_for_cell_and_size(3, 2, &cells), vec![9, 30]);
    assert_eq!(get_seedable_cells_for_cell_and_size(30, 3, &cells), Vec::<i32>::new());
    assert_eq!(get_seedable_cells_for_cell_and_size(9, 3, &cells), vec![30]);
}

#[test]
fn planting_range_of_a_unit() {
    let cells = board();
    assert_eq!(get_tree_seedable_cells(&tree(&cells, 19, 2), &cells), vec![1, 7, 8, 18, 20, 21, 35, 36]);
    assert_eq!(get_tree_seedable_cells(&tree(&cells, 19, 0), &cells), vec![7, 20, 36]);
    assert_eq!(get_tree_seedable_cells(&tree(&cells, 0, 1), &cells), vec![1, 2, 3, 4, 5, 6]);
}

#[test]
fn planting_index_holds_a_list_for_every_cell_and_size() {
    let cells = board();
    let index = get_seedable_cells(&cells);
    assert_eq!(index.len(), 37);
    for (origin, lists) in index.iter().enumerate() {
        assert_eq!(lists.len(), 3);
        for (s, list) in lists.iter().enumerate() {
            assert_eq!(*list, get_seedable_cells_for_cell_and_size(origin, s as i32 + 1, &cells));
            assert!(!list.contains(&(origin as i32)));
        }
    }
    assert_eq!(index[19][1], vec![1, 7, 8, 18, 20, 21, 35, 36]);
    assert!(is_valid_index(&index));
}

#[test]
fn index_of_the_wrong_shape_is_invalid() {
    let cells = board();
    let index = get_seedable_cells(&cells);
    let mut short = index.clone();
    short.pop();
    assert!(!is_valid_index(&short));
    let mut thin = index.clone();
    thin[4].pop();
    assert!(!is_valid_index(&thin));
    let mut wild = index.clone();
    wild[36][2].push(37);
    assert!(!is_valid_index(&wild));
    let mut negative = index.clone();
    negative[0][0][0] = -1;
    assert!(!is_valid_index(&negative));
    let mut odd = index.clone();
    odd[0][0] = vec![0, 0, 36];
    assert!(is_valid_index(&odd));
}
