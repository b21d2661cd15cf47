use game_of_colors::color::{Color, ONE};
use game_of_colors::grid::Grid;

#[test]
fn lookup_outside_grid_is_absent() {
    let g = Grid::new(2, 3);
    assert_eq!(g.get_pixel_checked(0, 0), Some(Color::zero()));
    assert_eq!(g.get_pixel_checked(-1, 0), None);
    assert_eq!(g.get_pixel_checked(0, -1), None);
    assert_eq!(g.get_pixel_checked(2, 0), None);
    assert_eq!(g.get_pixel_checked(1, 3), None);
}

#[test]
fn set_pixel_changes_one_cell() {
    let mut g = Grid::new(3, 2);
    g.set_pixel(2, 1, Color::new(1, 2, 3));
    assert_eq!(g.get_pixel(2, 1), Color::new(1, 2, 3));
    assert_eq!(g.cells[5], Color::new(1, 2, 3));
    assert_eq!(g.cells.iter().filter(|c| c.is_black()).count(), 5);
}

#[test]
fn rgb16_samples_fill_rows() {
    let samples: Vec<u16> = vec![1, 2, 3, 4, 5, 6, 65535, 0, 7, 8, 9, 10];
    let g = Grid::from_rgb16(2, 2, &samples).unwrap();
    assert_eq!(g.get_pixel(1, 0), Color::new(4, 5, 6));
    assert_eq!(g.get_pixel(0, 1), Color::new(ONE, 0, 7));
    assert!(Grid::from_rgb16(2, 2, &vec![0u16; 11]).is_none());
    assert!(Grid::from_rgb16(3, 2, &samples).is_none());
}

#[test]
fn rgb16_samples_clamp_to_unit_range() {
    let mut g = Grid::new(2, 1);
    g.set_pixel(0, 0, Color::new(ONE, 128 * 257, -5));
    g.set_pixel(1, 0, Color::new(2 * ONE, 128, 0));
    assert_eq!(g.to_rgb16(), vec![65535, 32896, 0, 65535, 128, 0]);
}
