//! The simulation driver: the first generation and the loop over generations.
use vstd::prelude::*;
use vstd::string::*;
use crate::color::{Color, ONE};
use crate::config::Configuration;
use crate::grid::Grid;
use crate::step::{lemma_blank_stays_blank, spec_step, step_generation};

verus! {

/// Each pixel of a decoded input image passed through `threshold`, then
/// `clamp`, with the configured values.
pub open spec fn prepared_color(c: Color, config: Configuration) -> Color {
    c.spec_threshold(config.threshold as int).spec_clamp(
        config.clamp_min as int,
        config.clamp_max as int,
    )
}

/// The first generation made from a decoded image: every pixel thresholded,
/// then clamped.
pub fn prepare_input(image: &Grid, config: &Configuration) -> (g: Grid)
    requires
        image.wf(),
        config.wf(),
    ensures
        g.wf(),
        g.same_shape(image),
        forall|i: int|
            0 <= i < g.cells@.len() ==> #[trigger] g.cells@[i] == prepared_color(
                image.cells@[i],
                *config,
            ),
{
    let n = image.cells.len();
    let mut cells: Vec<Color> = Vec::with_capacity(n);
    let mut i: usize = 0;
    while i < n
        invariant
            image.wf(),
            config.wf(),
            n == image.cells@.len(),
            i <= n,
            cells@.len() == i,
            forall|j: int|
                0 <= j < i ==> #[trigger] cells@[j] == prepared_color(image.cells@[j], *config),
        decreases n - i,
    {
        let c = image.cells[i].threshold(config.threshold).clamp(config.clamp_min, config.clamp_max);
        cells.push(c);
        i = i + 1;
    }
    Grid { width: image.width, height: image.height, cells }
}

/// The color of a cell of a random first generation: the color drawn from
/// `word` where the coin came up true, else zero.
pub open spec fn drawn_cell(coin: bool, word: u64) -> Color {
    if coin {
        Color::spec_from_random_bits(word as int)
    } else {
        Color { r: 0, g: 0, b: 0 }
    }
}

/// Each of `cells` is the cell drawn from the coin and word at its position.
pub open spec fn drawn_from(cells: Seq<Color>, coins: Seq<bool>, words: Seq<u64>) -> bool {
    &&& coins.len() == cells.len()
    &&& words.len() == cells.len()
    &&& forall|i: int| 0 <= i < cells.len() ==> #[trigger] cells[i] == drawn_cell(coins[i], words[i])
}

/// The first generation of the configured size made from one coin and one
/// random word per cell, row by row: a cell whose coin is true holds the
/// color drawn from its word, every other cell is zero.
pub fn grid_from_draws(config: &Configuration, coins: &Vec<bool>, words: &Vec<u64>) -> (g: Grid)
    requires
        config.wf(),
        coins@.len() == config.width * config.height,
        words@.len() == coins@.len(),
    ensures
        g.wf(),
        g.width == config.width,
        g.height == config.height,
        forall|i: int|
            0 <= i < g.cells@.len() ==> #[trigger] g.cells@[i] == drawn_cell(coins@[i], words@[i]),
{
    let n: usize = coins.len();
    let mut cells: Vec<Color> = Vec::with_capacity(n);
    let mut i: usize = 0;
    while i < n
        invariant
            n == config.width * config.height,
            n == coins@.len(),
            n == words@.len(),
            i <= n,
            cells@.len() == i,
            forall|j: int|
                0 <= j < i ==> (#[trigger] cells@[j]).wf() && cells@[j] == drawn_cell(
                    coins@[j],
                    words@[j],
                ),
        decreases n - i,
    {
        let c = if coins[i] {
            Color::from_random_bits(words[i])
        } else {
            Color::zero()
        };
        cells.push(c);
        i = i + 1;
    }
    Grid { width: config.width, height: config.height, cells }
}

/// A random first generation of the configured size: each cell, with
/// probability one half, holds a random color, and is zero otherwise.
pub fn generate_random_gen(config: &Configuration) -> (g: Grid)
    requires
        config.wf(),
    ensures
        g.wf(),
        g.width == config.width,
        g.height == config.height,
        exists|coins: Seq<bool>, words: Seq<u64>| #[trigger] drawn_from(g.cells@, coins, words),
{
    let n: usize = (config.width as usize) * (config.height as usize);
    let mut coins: Vec<bool> = Vec::with_capacity(n);
    let mut words: Vec<u64> = Vec::with_capacity(n);
    let mut i: usize = 0;
    while i < n
        invariant
            n == config.width * config.height,
            i <= n,
            coins@.len() == i,
            words@.len() == i,
        decreases n - i,
    {
        let coin: bool = rand::random::<bool>();
        let word: u64 = if coin {
            rand::random::<u64>()
        } else {
            0
        };
        coins.push(coin);
        words.push(word);
        i = i + 1;
    }
    let g = grid_from_draws(config, &coins, &words);
    assert(drawn_from(g.cells@, coins@, words@));
    g
}

/// The decimal digit `d`.
pub open spec fn digit_char(d: int) -> char {
    if d == 0 {
        '0'
    } else if d == 1 {
        '1'
    } else if d == 2 {
        '2'
    } else if d == 3 {
        '3'
    } else if d == 4 {
        '4'
    } else if d == 5 {
        '5'
    } else if d == 6 {
        '6'
    } else if d == 7 {
        '7'
    } else if d == 8 {
        '8'
    } else {
        '9'
    }
}

/// `n` in decimal, padded with leading zeros to at least `width` digits.
pub open spec fn padded_decimal(n: nat, width: nat) -> Seq<char>
    decreases n, width,
{
    if n < 10 && width <= 1 {
        seq![digit_char(n as int)]
    } else {
        padded_decimal(n / 10, if width > 0 {
            (width - 1) as nat
        } else {
            0
        }) + seq![digit_char((n % 10) as int)]
    }
}

fn digit_str(d: u32) -> (s: &'static str)
    requires
        d < 10,
    ensures
        s@ == seq![digit_char(d as int)],
{
    if d == 0 {
        proof {
            reveal_strlit("0");
        }
        "0"
    } else if d == 1 {
        proof {
            reveal_strlit("1");
        }
        "1"
    } else if d == 2 {
        proof {
            reveal_strlit("2");
        }
        "2"
    } else if d == 3 {
        proof {
            reveal_strlit("3");
        }
        "3"
    } else if d == 4 {
        proof {
            reveal_strlit("4");
        }
        "4"
    } else if d == 5 {
        proof {
            reveal_strlit("5");
        }
        "5"
    } else if d == 6 {
        proof {
            reveal_strlit("6");
        }
        "6"
    } else if d == 7 {
        proof {
            reveal_strlit("7");
        }
        "7"
    } else if d == 8 {
        proof {
            reveal_strlit("8");
        }
        "8"
    } else {
        proof {
            reveal_strlit("9");
        }
        "9"
    }
}

fn append_padded_decimal(out: &mut String, n: u32, width: u32)
    ensures
        final(out)@ == old(out)@ + padded_decimal(n as nat, width as nat),
    decreases n, width,
{
    if n < 10 && width <= 1 {
        out.append(digit_str(n));
    } else {
        let rest_width: u32 = if width > 0 {
            width - 1
        } else {
            0
        };
        append_padded_decimal(out, n / 10, rest_width);
        out.append(digit_str(n % 10));
        proof {
            let head = padded_decimal((n / 10) as nat, rest_width as nat);
            assert(padded_decimal(n as nat, width as nat) == head + seq![digit_char((n % 10) as int)]);
            assert(final(out)@ =~= old(out)@ + padded_decimal(n as nat, width as nat));
        }
    }
}

/// The file name of frame `index`: the prefix, the index in decimal with at
/// least four digits, and `.png`.
pub fn frame_file_name(prefix: &str, index: u32) -> (name: String)
    ensures
        name@ == prefix@ + padded_decimal(index as nat, 4) + ".png"@,
{
    let mut name = String::from_str(prefix);
    append_padded_decimal(&mut name, index, 4);
    name.append(".png");
    name
}

/// The generation loop: `frame` is generation `index`, which is to be written
/// out while `index` is below the configured number of generations.
#[derive(Clone, Debug)]
pub struct Simulation {
    pub frame: Grid,
    pub index: u32,
    pub config: Configuration,
}

impl Simulation {
    pub open spec fn wf(&self) -> bool {
        &&& self.frame.wf()
        &&& self.config.wf()
        &&& self.frame.width == self.config.width
        &&& self.frame.height == self.config.height
        &&& self.index <= self.config.generations
    }

    /// A frame is pending.
    pub open spec fn pending(&self) -> bool {
        self.index < self.config.generations
    }

    /// `next` is what `advance` makes of `self`: the index moves on by one and,
    /// while frames remain, the frame is the next generation.
    pub open spec fn advances_to(&self, next: Simulation) -> bool {
        &&& next.config == self.config
        &&& next.index == self.index + 1
        &&& if next.pending() {
            spec_step(self.frame, self.config, next.frame)
        } else {
            next.frame == self.frame
        }
    }

    /// Starts at generation 0 with `first`, which has the configured size.
    pub fn new(first: Grid, config: Configuration) -> (s: Simulation)
        requires
            first.wf(),
            config.wf(),
            first.width == config.width,
            first.height == config.height,
        ensures
            s.wf(),
            s.frame == first,
            s.index == 0,
            s.config == config,
    {
        Simulation { frame: first, index: 0, config }
    }

    /// Whether generation `index` is still to be written out.
    pub fn has_frame(&self) -> (b: bool)
        ensures
            b == self.pending(),
    {
        self.index < self.config.generations
    }

    /// The current generation.
    pub fn frame(&self) -> (g: &Grid)
        ensures
            *g == self.frame,
    {
        &self.frame
    }

    /// The number of the current generation.
    pub fn index(&self) -> (i: u32)
        ensures
            i == self.index,
    {
        self.index
    }

    /// Moves on to the next generation, computed into a fresh buffer from
    /// the current one.
    pub fn advance(&mut self)
        requires
            old(self).wf(),
            old(self).pending(),
        ensures
            final(self).wf(),
            old(self).advances_to(*final(self)),
    {
        self.index = self.index + 1;
        if self.index < self.config.generations {
            let next = step_generation(&self.frame, &self.config);
            self.frame = next;
        }
    }
}

/// A run of the driver that starts from a fresh simulation and advances
/// while a frame is pending passes through the frames numbered 0, 1, ... in
/// turn, each of the configured size; exactly the first `generations` of
/// them are pending, so the run emits `generations` frames and then stops.
pub proof fn lemma_run_emits_each_generation(states: Seq<Simulation>)
    requires
        states.len() > 0,
        states[0].wf(),
        states[0].index == 0,
        forall|j: int|
            0 <= j < states.len() - 1 ==> #[trigger] states[j].pending() && states[j].advances_to(
                states[j + 1],
            ),
    ensures
        states.len() <= states[0].config.generations + 1,
        forall|j: int|
            0 <= j < states.len() ==> {
                &&& #[trigger] states[j].index == j
                &&& states[j].wf()
                &&& states[j].config == states[0].config
                &&& states[j].frame.width == states[0].config.width
                &&& states[j].frame.height == states[0].config.height
                &&& states[j].pending() <==> j < states[0].config.generations
            },
    decreases states.len(),
{
    if states.len() > 1 {
        let prefix = states.drop_last();
        assert forall|j: int| 0 <= j < prefix.len() - 1 implies #[trigger] prefix[j].pending()
            && prefix[j].advances_to(prefix[j + 1]) by {
            assert(states[j].pending());
        }
        lemma_run_emits_each_generation(prefix);
        let k = states.len() - 2;
        assert(prefix[k] == states[k]);
        assert(states[k].pending() && states[k].advances_to(states[k + 1]));
        assert forall|j: int| 0 <= j < states.len() implies {
            &&& #[trigger] states[j].index == j
            &&& states[j].wf()
            &&& states[j].config == states[0].config
            &&& states[j].frame.width == states[0].config.width
            &&& states[j].frame.height == states[0].config.height
            &&& states[j].pending() <==> j < states[0].config.generations
        } by {
            if j < states.len() - 1 {
                assert(prefix[j] == states[j]);
            }
        }
    }
}

/// A run that starts from a blank first generation stays blank: every frame
/// it passes through is all zero.
pub proof fn lemma_blank_run_stays_blank(states: Seq<Simulation>)
    requires
        states.len() > 0,
        states[0].wf(),
        states[0].index == 0,
        states[0].frame.is_blank(),
        forall|j: int|
            0 <= j < states.len() - 1 ==> #[trigger] states[j].pending() && states[j].advances_to(
                states[j + 1],
            ),
    ensures
        forall|j: int| 0 <= j < states.len() ==> (#[trigger] states[j]).frame.is_blank(),
    decreases states.len(),
{
    if states.len() > 1 {
        let prefix = states.drop_last();
        assert forall|j: int| 0 <= j < prefix.len() - 1 implies #[trigger] prefix[j].pending()
            && prefix[j].advances_to(prefix[j + 1]) by {
            assert(states[j].pending());
        }
        lemma_blank_run_stays_blank(prefix);
        lemma_run_emits_each_generation(prefix);
        let k = states.len() - 2;
        assert(prefix[k] == states[k]);
        assert(states[k].pending() && states[k].advances_to(states[k + 1]));
        if states[k + 1].pending() {
            lemma_blank_stays_blank(states[k].frame, states[k].config, states[k + 1].frame);
        }
        assert forall|j: int| 0 <= j < states.len() implies (#[trigger] states[j]).frame.is_blank() by {
            if j < states.len() - 1 {
                assert(prefix[j] == states[j]);
            }
        }
    }
}

} // verus!
