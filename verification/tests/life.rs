use life::compute_neighbor;
use life::count_neighbors;
use life::glider;
use life::screen_extent;
use life::step;
use life::Coord;
use life::Extent;
use life::SCREEN_HEIGHT;
use life::SCREEN_WIDTH;

fn c(x: i32, y: i32) -> Coord {
    Coord { x, y }
}

fn sorted(mut v: Vec<Coord>) -> Vec<Coord> {
    v.sort();
    v
}

fn assert_same_set(actual: Vec<Coord>, expected: Vec<Coord>) {
    assert_eq!(sorted(actual), sorted(expected));
}

/// The output of a step is a well-formed live set: no duplicate coordinate,
/// and every coordinate canonical for the extent.
fn assert_well_formed(cells: &[Coord], extent: Extent) {
    for (i, a) in cells.iter().enumerate() {
        assert!(0 <= a.x && a.x < extent.width);
        assert!(0 <= a.y && a.y < extent.height);
        for b in &cells[i + 1..] {
            assert!(a != b);
        }
    }
}

#[test]
fn empty_input_stays_empty() {
    let extent = screen_extent();
    assert_same_set(step(&vec![], extent), vec![]);
    let small = Extent { width: 7, height: 3 };
    assert_same_set(step(&vec![], small), vec![]);
}

#[test]
fn lone_cell_dies() {
    let extent = screen_extent();
    assert_same_set(step(&vec![c(10, 10)], extent), vec![]);
    assert_same_set(step(&vec![c(0, 0)], extent), vec![]);
}

#[test]
fn block_is_still_life() {
    let extent = screen_extent();
    let block = vec![c(5, 5), c(6, 5), c(5, 6), c(6, 6)];
    assert_same_set(step(&block, extent), block.clone());
}

#[test]
fn blinker_oscillates_with_period_two() {
    let extent = screen_extent();
    let horizontal = vec![c(4, 5), c(5, 5), c(6, 5)];
    let vertical = vec![c(5, 4), c(5, 5), c(5, 6)];
    let once = step(&horizontal, extent);
    assert_same_set(once.clone(), vertical);
    let twice = step(&once, extent);
    assert_same_set(twice, horizontal);
}

#[test]
fn glider_translates_after_four_steps() {
    let extent = screen_extent();
    let start = glider();
    let mut cells = start.clone();
    for _ in 0..4 {
        cells = step(&cells, extent);
        assert_well_formed(&cells, extent);
    }
    // This glider phase travels one cell right and one cell down every four
    // generations; at the bottom edge "down" wraps to the top row.
    let expected: Vec<Coord> = start
        .iter()
        .map(|p| c((p.x + 1) % SCREEN_WIDTH, (p.y + 1) % SCREEN_HEIGHT))
        .collect();
    assert_same_set(cells, expected);
}

#[test]
fn glider_pattern_contents() {
    let ymax = SCREEN_HEIGHT - 1;
    assert_eq!(
        glider(),
        vec![c(0, ymax), c(1, ymax), c(2, ymax), c(2, ymax - 1), c(1, ymax - 2)]
    );
}

#[test]
fn compute_neighbor_wraps_each_edge() {
    let extent = screen_extent();
    assert_eq!(compute_neighbor(-1, 5, extent), c(SCREEN_WIDTH - 1, 5));
    assert_eq!(compute_neighbor(SCREEN_WIDTH, 5, extent), c(0, 5));
    assert_eq!(compute_neighbor(5, -1, extent), c(5, SCREEN_HEIGHT - 1));
    assert_eq!(compute_neighbor(5, SCREEN_HEIGHT, extent), c(5, 0));
    assert_eq!(compute_neighbor(3, 4, extent), c(3, 4));
}

#[test]
fn toroidal_pair_count_each_other() {
    let extent = screen_extent();
    let pair = vec![c(0, 5), c(SCREEN_WIDTH - 1, 5)];
    assert_eq!(count_neighbors(&pair, c(0, 5), extent), 1);
    assert_eq!(count_neighbors(&pair, c(SCREEN_WIDTH - 1, 5), extent), 1);
    // Two lone neighbors are underpopulated, so both die.
    assert_same_set(step(&pair, extent), vec![]);
}

#[test]
fn blinker_across_vertical_edge_wraps() {
    let extent = screen_extent();
    let column_edge = vec![c(0, 4), c(0, 5), c(0, 6)];
    let expected = vec![c(SCREEN_WIDTH - 1, 5), c(0, 5), c(1, 5)];
    assert_same_set(step(&column_edge, extent), expected);
}

#[test]
fn one_by_three_strip_stacks_wrapped_offsets() {
    // On a 1x3 strip, all three horizontal offsets wrap onto column 0, so
    // the lone cell gives each vertical neighbor a count of three: births.
    let strip = Extent { width: 1, height: 3 };
    let expected = vec![c(0, 0), c(0, 2)];
    assert_same_set(step(&vec![c(0, 1)], strip), expected);
}

#[test]
fn two_by_two_full_grid_dies_of_wrapped_overcrowding() {
    // On a 2x2 torus every cell sees every other cell through several
    // wrapped offsets (count 8), so the full grid dies out.
    let tiny = Extent { width: 2, height: 2 };
    let full = vec![c(0, 0), c(1, 0), c(0, 1), c(1, 1)];
    assert_same_set(step(&full, tiny), vec![]);
}

#[test]
fn translation_commutes_with_step() {
    let extent = screen_extent();
    let pattern = vec![c(4, 5), c(5, 5), c(6, 5), c(5, 6)];
    let translate = |p: &Coord| {
        c((p.x + 76) % SCREEN_WIDTH, (p.y + 47) % SCREEN_HEIGHT)
    };
    let moved: Vec<Coord> = pattern.iter().map(translate).collect();
    let step_then_move: Vec<Coord> = step(&pattern, extent).iter().map(translate).collect();
    let move_then_step = step(&moved, extent);
    assert_same_set(move_then_step, step_then_move);
}

#[test]
fn output_is_well_formed_live_set() {
    let extent = screen_extent();
    let mut cells = glider();
    for _ in 0..12 {
        cells = step(&cells, extent);
        assert_well_formed(&cells, extent);
    }
}
