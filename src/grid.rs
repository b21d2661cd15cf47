//! A dense, row-major 2-D array of colors.
use vstd::prelude::*;
use crate::color::{channel_ok, clamp_channel, Color, ONE};

verus! {

/// One generation's frame: `width * height` colors, row by row.
#[derive(Clone, Debug)]
pub struct Grid {
    pub width: u32,
    pub height: u32,
    pub cells: Vec<Color>,
}

/// The 16-bit sample of a channel: the channel clamped to `[0, ONE]`.
pub open spec fn channel_to_sample(c: int) -> int {
    clamp_channel(c, 0, ONE as int)
}

pub proof fn lemma_cell_index(x: int, y: int, w: int, h: int)
    requires
        0 <= x < w,
        0 <= y < h,
    ensures
        0 <= y * w + x < w * h,
{
    assert(0 <= y * w + x < w * h) by (nonlinear_arith)
        requires
            0 <= x < w,
            0 <= y < h,
    ;
}

impl Grid {
    pub open spec fn wf(&self) -> bool {
        &&& self.cells@.len() == self.width * self.height
        &&& self.width * self.height <= usize::MAX
        &&& forall|i: int| 0 <= i < self.cells@.len() ==> (#[trigger] self.cells@[i]).wf()
    }

    pub open spec fn in_bounds(&self, x: int, y: int) -> bool {
        0 <= x < self.width && 0 <= y < self.height
    }

    /// The color at `(x, y)`; absent outside the grid.
    pub open spec fn at(&self, x: int, y: int) -> Option<Color> {
        if self.in_bounds(x, y) {
            Some(self.cells@[y * self.width + x])
        } else {
            None
        }
    }

    pub open spec fn same_shape(&self, other: &Grid) -> bool {
        self.width == other.width && self.height == other.height
    }

    /// Every cell holds the zero color.
    pub open spec fn is_blank(&self) -> bool {
        forall|i: int| 0 <= i < self.cells@.len() ==> (#[trigger] self.cells@[i]).is_zero()
    }

    /// A grid of the given size with every cell at the zero color.
    pub fn new(width: u32, height: u32) -> (g: Grid)
        requires
            width * height <= usize::MAX,
        ensures
            g.wf(),
            g.width == width,
            g.height == height,
            g.is_blank(),
    {
        let n: usize = (width as usize) * (height as usize);
        let mut cells: Vec<Color> = Vec::with_capacity(n);
        let mut i: usize = 0;
        while i < n
            invariant
                i <= n,
                cells@.len() == i,
                forall|j: int| 0 <= j < i ==> (#[trigger] cells@[j]).is_zero(),
            decreases n - i,
        {
            cells.push(Color::zero());
            i = i + 1;
        }
        Grid { width, height, cells }
    }

    /// The color at `(x, y)`, or `None` where the coordinate lies outside the grid.
    pub fn get_pixel_checked(&self, x: i64, y: i64) -> (c: Option<Color>)
        requires
            self.wf(),
        ensures
            c == self.at(x as int, y as int),
            c.is_some() ==> c.unwrap().wf(),
    {
        if 0 <= x && x < self.width as i64 && 0 <= y && y < self.height as i64 {
            proof {
                lemma_cell_index(x as int, y as int, self.width as int, self.height as int);
                assert(self.cells@[y * self.width + x].wf());
            }
            Some(self.cells[(y as usize) * (self.width as usize) + (x as usize)])
        } else {
            None
        }
    }

    /// The color at `(x, y)`, which lies inside the grid.
    pub fn get_pixel(&self, x: u32, y: u32) -> (c: Color)
        requires
            self.wf(),
            self.in_bounds(x as int, y as int),
        ensures
            Some(c) == self.at(x as int, y as int),
            c.wf(),
    {
        proof {
            lemma_cell_index(x as int, y as int, self.width as int, self.height as int);
        }
        self.cells[(y as usize) * (self.width as usize) + (x as usize)]
    }

    /// Replaces the color at `(x, y)`; every other cell keeps its color.
    pub fn set_pixel(&mut self, x: u32, y: u32, c: Color)
        requires
            old(self).wf(),
            old(self).in_bounds(x as int, y as int),
            c.wf(),
        ensures
            final(self).wf(),
            final(self).same_shape(old(self)),
            final(self).at(x as int, y as int) == Some(c),
            forall|i: int, j: int|
                (i != x || j != y) ==> #[trigger] final(self).at(i, j) == old(self).at(i, j),
    {
        proof {
            lemma_cell_index(x as int, y as int, self.width as int, self.height as int);
        }
        let k = (y as usize) * (self.width as usize) + (x as usize);
        self.cells.set(k, c);
        proof {
            assert forall|i: int, j: int| (i != x || j != y) implies #[trigger] self.at(i, j)
                == old(self).at(i, j) by {
                if self.in_bounds(i, j) {
                    lemma_cell_index(i, j, self.width as int, self.height as int);
                    lemma_distinct_index(i, j, x as int, y as int, self.width as int);
                }
            }
        }
    }

    /// The grid of the given size read from 16-bit RGB samples, three per
    /// pixel, row by row; a sample of 65535 is full intensity. `None` when
    /// the number of samples does not match the size.
    pub fn from_rgb16(width: u32, height: u32, samples: &Vec<u16>) -> (g: Option<Grid>)
        ensures
            g.is_some() <==> samples@.len() == 3 * (width * height),
            g.is_some() ==> {
                let g = g.unwrap();
                &&& g.wf()
                &&& g.width == width
                &&& g.height == height
                &&& forall|i: int|
                    0 <= i < width * height ==> #[trigger] g.cells@[i] == (Color {
                        r: samples@[3 * i] as i32,
                        g: samples@[3 * i + 1] as i32,
                        b: samples@[3 * i + 2] as i32,
                    })
            },
    {
        assert(width * height <= 0xffff_ffff * 0xffff_ffff) by (nonlinear_arith)
            requires
                width <= 0xffff_ffff,
                height <= 0xffff_ffff,
        ;
        let len = samples.len();
        let wh: u64 = (width as u64) * (height as u64);
        if len as u64 / 3 != wh || len % 3 != 0 {
            return None;
        }
        let n: usize = len / 3;
        let mut cells: Vec<Color> = Vec::with_capacity(n);
        let mut i: usize = 0;
        while i < n
            invariant
                n == width * height,
                samples@.len() == 3 * n,
                len == samples@.len(),
                i <= n,
                cells@.len() == i,
                forall|j: int|
                    0 <= j < i ==> #[trigger] cells@[j] == (Color {
                        r: samples@[3 * j] as i32,
                        g: samples@[3 * j + 1] as i32,
                        b: samples@[3 * j + 2] as i32,
                    }),
            decreases n - i,
        {
            let c = Color {
                r: samples[3 * i] as i32,
                g: samples[3 * i + 1] as i32,
                b: samples[3 * i + 2] as i32,
            };
            cells.push(c);
            i = i + 1;
        }
        let g = Grid { width, height, cells };
        assert forall|i: int| 0 <= i < g.cells@.len() implies (#[trigger] g.cells@[i]).wf() by {
            assert(channel_ok(g.cells@[i].r as int));
        }
        Some(g)
    }

    /// The frame as 16-bit RGB samples, three per pixel, row by row.
    pub fn to_rgb16(&self) -> (samples: Vec<u16>)
        requires
            self.wf(),
        ensures
            samples@.len() == 3 * self.cells@.len(),
            forall|i: int|
                0 <= i < self.cells@.len() ==> {
                    &&& #[trigger] samples@[3 * i] == channel_to_sample(self.cells@[i].r as int)
                    &&& samples@[3 * i + 1] == channel_to_sample(self.cells@[i].g as int)
                    &&& samples@[3 * i + 2] == channel_to_sample(self.cells@[i].b as int)
                },
    {
        let n = self.cells.len();
        let mut samples: Vec<u16> = Vec::new();
        let mut i: usize = 0;
        while i < n
            invariant
                n == self.cells@.len(),
                i <= n,
                samples@.len() == 3 * i,
                forall|j: int|
                    0 <= j < i ==> {
                        &&& #[trigger] samples@[3 * j] == channel_to_sample(self.cells@[j].r as int)
                        &&& samples@[3 * j + 1] == channel_to_sample(self.cells@[j].g as int)
                        &&& samples@[3 * j + 2] == channel_to_sample(self.cells@[j].b as int)
                    },
            decreases n - i,
        {
            let c = self.cells[i];
            let ghost prev = samples@;
            samples.push(sample_of_channel(c.r));
            samples.push(sample_of_channel(c.g));
            samples.push(sample_of_channel(c.b));
            assert forall|j: int| 0 <= j < i + 1 implies {
                &&& #[trigger] samples@[3 * j] == channel_to_sample(self.cells@[j].r as int)
                &&& samples@[3 * j + 1] == channel_to_sample(self.cells@[j].g as int)
                &&& samples@[3 * j + 2] == channel_to_sample(self.cells@[j].b as int)
            } by {
                if j < i {
                    assert(samples@[3 * j] == prev[3 * j]);
                    assert(samples@[3 * j + 1] == prev[3 * j + 1]);
                    assert(samples@[3 * j + 2] == prev[3 * j + 2]);
                }
            }
            i = i + 1;
        }
        samples
    }
}

fn sample_of_channel(c: i32) -> (s: u16)
    ensures
        s == channel_to_sample(c as int),
{
    if c <= 0 {
        0
    } else if c >= ONE {
        65535
    } else {
        c as u16
    }
}

proof fn lemma_distinct_index(i: int, j: int, x: int, y: int, w: int)
    requires
        0 <= i < w,
        0 <= x < w,
        0 <= j,
        0 <= y,
        i != x || j != y,
    ensures
        j * w + i != y * w + x,
{
    if j == y {
    } else if j < y {
        assert(j * w + i < y * w + x) by (nonlinear_arith)
            requires
                0 <= i < w,
                0 <= x,
                j < y,
        ;
    } else {
        assert(j * w + i > y * w + x) by (nonlinear_arith)
            requires
                0 <= x < w,
                0 <= i,
                y < j,
        ;
    }
}

} // verus!
