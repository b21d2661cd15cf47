use game_of_colors::cell::{add_pixel, cosine_similarity, gather_cell_state, CellState, ColorSum};
use game_of_colors::color::{Color, ONE};
use game_of_colors::grid::Grid;

fn white() -> Color {
    Color::new(ONE, ONE, ONE)
}

fn grid_with(width: u32, height: u32, cells: &[(u32, u32, Color)]) -> Grid {
    let mut g = Grid::new(width, height);
    for (x, y, c) in cells.iter() {
        g.set_pixel(*x, *y, *c);
    }
    g
}

#[test]
fn center_of_three_white_neighbors() {
    let g = grid_with(3, 3, &[(0, 0, white()), (1, 0, white()), (2, 2, white())]);
    let current = g.get_pixel(1, 1);
    let state = gather_cell_state(&current, &g, 1, 1);
    assert_eq!(
        state,
        CellState { alive: false, neighborhood: 30000, neighborhood_color: white() }
    );
}

#[test]
fn single_cell_grid_has_no_neighbors() {
    let g = grid_with(1, 1, &[(0, 0, white())]);
    let state = gather_cell_state(&white(), &g, 0, 0);
    assert!(state.alive);
    assert_eq!(state.neighborhood, 0);
    assert_eq!(state.neighborhood_color, Color::zero());
}

#[test]
fn corner_reads_only_inside_neighbors() {
    let g = grid_with(2, 2, &[(1, 0, white()), (0, 1, white()), (1, 1, white())]);
    let state = gather_cell_state(&Color::zero(), &g, 0, 0);
    assert!(!state.alive);
    assert_eq!(state.neighborhood, 30000);
    assert_eq!(state.neighborhood_color, white());
}

#[test]
fn outside_coordinate_is_not_alive() {
    let g = grid_with(2, 2, &[(0, 0, white()), (1, 1, white())]);
    let state = gather_cell_state(&Color::zero(), &g, 2, 1);
    assert!(!state.alive);
    assert_eq!(state.neighborhood, 10000);
}

#[test]
fn zero_current_color_counts_every_nonzero_neighbor() {
    assert_eq!(cosine_similarity(&Color::zero(), &Color::new(1, 0, 0)), ONE as i64);
    assert_eq!(cosine_similarity(&Color::zero(), &Color::zero()), 0);
    assert_eq!(cosine_similarity(&white(), &Color::zero()), 0);
}

#[test]
fn similarity_is_the_cosine() {
    let red = Color::new(ONE, 0, 0);
    let blue = Color::new(0, 0, ONE);
    assert_eq!(cosine_similarity(&red, &blue), 0);
    assert_eq!(cosine_similarity(&red, &Color::new(5, 0, 0)), ONE as i64);
    assert_eq!(cosine_similarity(&red, &Color::new(-5, 0, 0)), -(ONE as i64));
    // cos 45 degrees = 0.70710678..., times 65535, rounded toward zero
    assert_eq!(cosine_similarity(&red, &Color::new(1, 1, 0)), 46340);
}

#[test]
fn dissimilar_neighbors_score_but_do_not_color() {
    let red = Color::new(ONE, 0, 0);
    let blue = Color::new(0, 0, ONE);
    let g = grid_with(3, 1, &[(0, 0, red), (1, 0, red), (2, 0, blue)]);
    let state = gather_cell_state(&red, &g, 1, 0);
    assert!(state.alive);
    assert_eq!(state.neighborhood, 10000);
    assert_eq!(state.neighborhood_color, red);
}

#[test]
fn zero_score_gives_zero_average_color() {
    let red = Color::new(ONE, 0, 0);
    let g = grid_with(3, 1, &[(0, 0, Color::new(-ONE, 0, 0)), (2, 0, Color::new(ONE, 0, 0))]);
    let state = gather_cell_state(&red, &g, 1, 0);
    assert_eq!(state.neighborhood, 0);
    assert_eq!(state.neighborhood_color, Color::zero());
}

#[test]
fn average_is_divided_by_the_score() {
    let red = Color::new(ONE, 0, 0);
    let g = grid_with(3, 1, &[(0, 0, Color::new(ONE, ONE, 0)), (2, 0, red)]);
    // similarities 46340 / 65535 = 0.70711 and 1.0; score rounds to 1.7071
    let state = gather_cell_state(&red, &g, 1, 0);
    assert_eq!(state.neighborhood, 17071);
    let expected = Color::new((2 * 65535 * 10000) / 17071, (65535 * 10000) / 17071, 0);
    assert_eq!(state.neighborhood_color, expected);
}

#[test]
fn cell_state_new_is_empty() {
    let s = CellState::new();
    assert_eq!(s, CellState { alive: false, neighborhood: 0, neighborhood_color: Color::zero() });
}

#[test]
fn add_pixel_sums_channels() {
    let mut s = ColorSum::new();
    add_pixel(&mut s, Color::new(1, -2, 3));
    add_pixel(&mut s, Color::new(10, 20, 30));
    assert_eq!(s, ColorSum { r: 11, g: 18, b: 33 });
}

#[test]
fn divide_by_score_averages_and_guards_zero() {
    let s = ColorSum { r: 3 * ONE as i64, g: -300, b: 7 };
    assert_eq!(s.divide_by_score(30000), Color::new(ONE, -100, 2));
    assert_eq!(s.divide_by_score(-30000), Color::new(-ONE, 100, -2));
    assert_eq!(s.divide_by_score(0), Color::zero());
    assert_eq!(s.divide_by_score(1), Color::new(1048560, -1048560, 70000));
}

#[test]
fn add_pixel_accepts_large_sums() {
    let mut s = ColorSum { r: 1 << 40, g: -(1 << 40), b: 0 };
    add_pixel(&mut s, Color::new(i32::MAX, i32::MIN, 5));
    assert_eq!(s, ColorSum { r: (1 << 40) + i32::MAX as i64, g: -(1 << 40) + i32::MIN as i64, b: 5 });
}
