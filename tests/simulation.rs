use game_of_colors::color::{Color, ONE};
use game_of_colors::config::{ConfigError, Configuration};
use game_of_colors::driver::{
    frame_file_name, generate_random_gen, grid_from_draws, prepare_input, Simulation,
};
use game_of_colors::grid::Grid;
use game_of_colors::step::step_generation;

fn white() -> Color {
    Color::new(ONE, ONE, ONE)
}

fn config(width: u32, height: u32, generations: u32) -> Configuration {
    Configuration::new(width, height, generations, 0, ONE, 0).unwrap()
}

fn grid_with(width: u32, height: u32, cells: &[(u32, u32, Color)]) -> Grid {
    let mut g = Grid::new(width, height);
    for (x, y, c) in cells.iter() {
        g.set_pixel(*x, *y, *c);
    }
    g
}

#[test]
fn dead_cell_with_three_neighbors_is_born() {
    let g = grid_with(3, 3, &[(0, 0, white()), (1, 0, white()), (2, 2, white())]);
    let next = step_generation(&g, &config(3, 3, 2));
    assert_eq!(next.get_pixel(1, 1), white());
}

#[test]
fn birth_color_is_clamped() {
    let g = grid_with(3, 3, &[(0, 0, white()), (1, 0, white()), (2, 2, white())]);
    let cfg = Configuration::new(3, 3, 2, 0, ONE / 2, 0).unwrap();
    let next = step_generation(&g, &cfg);
    assert_eq!(next.get_pixel(1, 1), Color::new(ONE / 2, ONE / 2, ONE / 2));
}

#[test]
fn blinker_oscillates() {
    let g = grid_with(3, 3, &[(0, 1, white()), (1, 1, white()), (2, 1, white())]);
    let cfg = config(3, 3, 3);
    let next = step_generation(&g, &cfg);
    let expected = grid_with(3, 3, &[(1, 0, white()), (1, 1, white()), (1, 2, white())]);
    assert_eq!(next.cells, expected.cells);
    let back = step_generation(&next, &cfg);
    assert_eq!(back.cells, g.cells);
}

#[test]
fn lonely_cell_dies() {
    let g = grid_with(3, 3, &[(1, 1, white())]);
    let next = step_generation(&g, &config(3, 3, 2));
    assert_eq!(next.cells, Grid::new(3, 3).cells);
}

#[test]
fn step_leaves_previous_generation_untouched() {
    let g = grid_with(4, 3, &[(0, 0, white()), (1, 0, white()), (2, 2, Color::new(5, 9, 100))]);
    let before = g.clone();
    let next = step_generation(&g, &config(4, 3, 2));
    assert_eq!(g.cells, before.cells);
    assert_eq!((g.width, g.height), (before.width, before.height));
    assert_eq!((next.width, next.height), (4, 3));
}

#[test]
fn blank_grid_stays_blank() {
    let cfg = config(5, 4, 6);
    let mut sim = Simulation::new(Grid::new(5, 4), cfg);
    while sim.has_frame() {
        assert!(sim.frame().cells.iter().all(|c| c.is_black()));
        sim.advance();
    }
}

#[test]
fn single_cell_grid_steps_without_error() {
    let g = grid_with(1, 1, &[(0, 0, white())]);
    let next = step_generation(&g, &config(1, 1, 2));
    assert_eq!(next.get_pixel(0, 0), Color::zero());
}

#[test]
fn driver_emits_one_frame_per_generation() {
    let cfg = config(6, 5, 7);
    let first = grid_with(6, 5, &[(0, 1, white()), (1, 1, white()), (2, 1, white())]);
    let mut sim = Simulation::new(first, cfg);
    let mut indices = Vec::new();
    while sim.has_frame() {
        assert_eq!((sim.frame().width, sim.frame().height), (6, 5));
        assert_eq!(sim.frame().cells.len(), 30);
        indices.push(sim.index());
        sim.advance();
    }
    assert_eq!(indices, vec![0, 1, 2, 3, 4, 5, 6]);
}

#[test]
fn driver_with_no_generations_emits_nothing() {
    let sim = Simulation::new(Grid::new(2, 2), config(2, 2, 0));
    assert!(!sim.has_frame());
}

#[test]
fn driver_frames_follow_the_stepper() {
    let cfg = config(3, 3, 3);
    let first = grid_with(3, 3, &[(0, 1, white()), (1, 1, white()), (2, 1, white())]);
    let mut sim = Simulation::new(first.clone(), cfg);
    assert_eq!(sim.frame().cells, first.cells);
    sim.advance();
    assert_eq!(sim.frame().cells, step_generation(&first, &cfg).cells);
}

#[test]
fn input_is_thresholded_then_clamped() {
    let image = grid_with(2, 1, &[(0, 0, Color::new(100, 0, 0)), (1, 0, Color::new(2 * ONE, ONE, 0))]);
    let cfg = Configuration::new(2, 1, 1, 0, ONE, 1000).unwrap();
    let g = prepare_input(&image, &cfg);
    assert_eq!(g.get_pixel(0, 0), Color::zero());
    assert_eq!(g.get_pixel(1, 0), Color::new(ONE, ONE, 0));
}

#[test]
fn random_generation_has_configured_size() {
    let g = generate_random_gen(&config(7, 3, 1));
    assert_eq!((g.width, g.height, g.cells.len()), (7, 3, 21));
    for c in g.cells.iter() {
        for v in [c.r, c.g, c.b].iter() {
            assert!(0 <= *v && *v < ONE);
        }
    }
}

#[test]
fn configuration_errors() {
    assert_eq!(Configuration::new(2, 2, 1, 10, 5, 0), Err(ConfigError::EmptyClampRange));
    assert_eq!(Configuration::new(2, 2, 1, -20_000_000, 5, 0), Err(ConfigError::ClampOutOfRange));
    assert_eq!(Configuration::new(2, 2, 1, 0, 20_000_000, 0), Err(ConfigError::ClampOutOfRange));
    let ok = Configuration::new(2, 3, 4, 0, ONE, 7).unwrap();
    assert_eq!((ok.width, ok.height, ok.generations, ok.threshold), (2, 3, 4, 7));
}

#[test]
fn frame_names_are_zero_padded() {
    assert_eq!(frame_file_name("output/", 0), "output/0000.png");
    assert_eq!(frame_file_name("output/", 7), "output/0007.png");
    assert_eq!(frame_file_name("run-", 42), "run-0042.png");
    assert_eq!(frame_file_name("", 9999), "9999.png");
    assert_eq!(frame_file_name("f", 12345), "f12345.png");
    assert_eq!(frame_file_name("f", u32::MAX), "f4294967295.png");
}

#[test]
fn drawn_grid_follows_the_coins() {
    let cfg = config(2, 2, 1);
    let coins = vec![true, false, false, true];
    let words = vec![0x0000_8000_FFFF_0000, 0x1234_5678_9ABC, 0, 0x0001_0002_0003];
    let g = grid_from_draws(&cfg, &coins, &words);
    assert_eq!((g.width, g.height), (2, 2));
    assert_eq!(g.get_pixel(0, 0), Color::new(0, 65534, 32767));
    assert_eq!(g.get_pixel(1, 0), Color::zero());
    assert_eq!(g.get_pixel(0, 1), Color::zero());
    assert_eq!(g.get_pixel(1, 1), Color::new(2, 1, 0));
}
