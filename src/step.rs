//! The generation stepper: the next grid from the previous one.
use vstd::prelude::*;
use vstd::arithmetic::div_mod::{lemma_fundamental_div_mod, lemma_fundamental_div_mod_converse};
use crate::cell::{gather_cell_state, lemma_blank_grid_state, spec_cell_state, SCORE_ONE};
use crate::color::Color;
use crate::config::Configuration;
use crate::grid::{lemma_cell_index, Grid};

verus! {

/// The color of `(x, y)` in the generation after `prev`, whose neighbors are
/// compared with the cell's own color in `prev`. A live cell with a
/// score from 2.0 to 3.0 keeps its color; a dead cell with a score of exactly
/// 3.0 is born with its neighbors' average color, clamped to the configured
/// bounds; every other cell is zero.
pub open spec fn next_color(prev: Grid, config: Configuration, x: int, y: int) -> Color {
    let cur = prev.at(x, y).unwrap();
    let state = spec_cell_state(cur, prev, x, y);
    if state.alive {
        if 2 * SCORE_ONE <= state.neighborhood <= 3 * SCORE_ONE {
            cur
        } else {
            Color { r: 0, g: 0, b: 0 }
        }
    } else if state.neighborhood == 3 * SCORE_ONE {
        state.neighborhood_color.spec_clamp(config.clamp_min as int, config.clamp_max as int)
    } else {
        Color { r: 0, g: 0, b: 0 }
    }
}

/// The generation after `prev`: same shape, each cell as `next_color` states.
pub open spec fn spec_step(prev: Grid, config: Configuration, next: Grid) -> bool {
    &&& next.wf()
    &&& next.same_shape(&prev)
    &&& forall|x: int, y: int|
        prev.in_bounds(x, y) ==> #[trigger] next.at(x, y) == Some(next_color(prev, config, x, y))
}

pub proof fn lemma_coords_of_index(i: int, w: int, h: int)
    requires
        0 <= i < w * h,
        0 <= w,
        0 <= h,
    ensures
        w > 0,
        0 <= i % w < w,
        0 <= i / w < h,
        (i / w) * w + i % w == i,
{
    if w <= 0 {
        assert(w * h == 0) by (nonlinear_arith)
            requires
                w == 0,
        ;
    }
    lemma_fundamental_div_mod(i, w);
    assert(i / w * w == w * (i / w)) by (nonlinear_arith);
    assert(0 <= i / w < h) by (nonlinear_arith)
        requires
            w > 0,
            0 <= i < w * h,
            i == w * (i / w) + i % w,
            0 <= i % w < w,
    ;
}

/// Computes the next generation into a fresh grid; `prev` is only read.
pub fn step_generation(prev: &Grid, config: &Configuration) -> (next: Grid)
    requires
        prev.wf(),
        config.wf(),
    ensures
        spec_step(*prev, *config, next),
{
    let n = prev.cells.len();
    let w = prev.width;
    let mut cells: Vec<Color> = Vec::with_capacity(n);
    let mut i: usize = 0;
    while i < n
        invariant
            prev.wf(),
            config.wf(),
            n == prev.cells@.len(),
            w == prev.width,
            i <= n,
            cells@.len() == i,
            forall|j: int|
                0 <= j < i ==> (#[trigger] cells@[j]).wf() && cells@[j] == next_color(
                    *prev,
                    *config,
                    j % (w as int),
                    j / (w as int),
                ),
        decreases n - i,
    {
        proof {
            lemma_coords_of_index(i as int, w as int, prev.height as int);
        }
        let x = (i % (w as usize)) as u32;
        let y = (i / (w as usize)) as u32;
        let current = prev.get_pixel(x, y);
        let state = gather_cell_state(&current, prev, x, y);
        let color = if state.alive {
            if 2 * SCORE_ONE <= state.neighborhood && state.neighborhood <= 3 * SCORE_ONE {
                current
            } else {
                Color::zero()
            }
        } else if state.neighborhood == 3 * SCORE_ONE {
            state.neighborhood_color.clamp(config.clamp_min, config.clamp_max)
        } else {
            Color::zero()
        };
        cells.push(color);
        i = i + 1;
    }
    let next = Grid { width: prev.width, height: prev.height, cells };
    assert forall|x: int, y: int| prev.in_bounds(x, y) implies #[trigger] next.at(x, y) == Some(
        next_color(*prev, *config, x, y),
    ) by {
        lemma_cell_index(x, y, w as int, prev.height as int);
        lemma_fundamental_div_mod_converse(y * w + x, w as int, y, x);
    }
    next
}

/// Nothing is born from nothing: the generation after a blank grid is blank.
pub proof fn lemma_blank_stays_blank(prev: Grid, config: Configuration, next: Grid)
    requires
        prev.wf(),
        prev.is_blank(),
        spec_step(prev, config, next),
    ensures
        next.is_blank(),
{
    let w = prev.width as int;
    assert forall|i: int| 0 <= i < next.cells@.len() implies (#[trigger] next.cells@[i]).is_zero() by {
        lemma_coords_of_index(i, w, prev.height as int);
        let (x, y) = (i % w, i / w);
        assert(next.at(x, y) == Some(next_color(prev, config, x, y)));
        lemma_cell_index(x, y, w, prev.height as int);
        lemma_blank_grid_state(prev.at(x, y).unwrap(), prev, x, y);
    }
}

} // verus!
