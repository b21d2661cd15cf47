//! The per-coordinate cell state: liveness, neighborhood score and the
//! similarity-weighted neighbor color.
use vstd::prelude::*;
use vstd::arithmetic::div_mod::{lemma_div_by_multiple, lemma_div_is_ordered};
use crate::arith::{floor_sqrt, isqrt, lemma_isqrt_le};
use crate::color::{channel_ok, clamp_channel, Color, CHANNEL_MAX, ONE};
use crate::grid::{lemma_cell_index, Grid};

verus! {

/// The neighborhood score that stands for 1.0: scores are kept in
/// ten-thousandths.
pub const SCORE_ONE: i64 = 10000;

/// The state derived for one coordinate from the previous generation.
#[derive(Clone, Copy, Debug, PartialEq, Eq, Structural)]
pub struct CellState {
    pub alive: bool,
    /// Sum of the similarities to the present neighbors, in ten-thousandths.
    pub neighborhood: i64,
    /// Sum of the similar neighbors' colors divided by the score.
    pub neighborhood_color: Color,
}

/// A channel-wise sum of colors, wide enough for a whole neighborhood.
#[derive(Clone, Copy, Debug, PartialEq, Eq, Structural)]
pub struct ColorSum {
    pub r: i64,
    pub g: i64,
    pub b: i64,
}

/// A color whose length exceeds a quarter of `ONE`.
pub open spec fn is_alive_color(c: Color) -> bool {
    16 * c.norm_sq() > ONE * ONE
}

/// The cosine of the angle between `cur` and `nb`, scaled to `ONE` and
/// rounded toward zero: the dot product of their normalizations, taken
/// exactly.
/// Against the zero color `cur` every nonzero neighbor counts fully and a
/// zero neighbor not at all; a zero neighbor is never similar.
pub open spec fn similarity(cur: Color, nb: Color) -> int {
    if cur.is_zero() {
        if nb.is_zero() {
            0
        } else {
            ONE as int
        }
    } else if nb.is_zero() {
        0
    } else {
        let d = cur.spec_dot(nb);
        let m = isqrt((d * d * ONE * ONE / (cur.norm_sq() * nb.norm_sq())) as nat) as int;
        if d < 0 {
            -m
        } else {
            m
        }
    }
}

/// A neighbor whose similarity is at least one quarter.
pub open spec fn is_similar(s: int) -> bool {
    4 * s >= ONE
}

/// The neighbor at position `k` of the 3x3 block around `(x, y)`, read
/// column by column; position 4 is the cell itself and holds no neighbor.
pub open spec fn neighbor(g: Grid, x: int, y: int, k: int) -> Option<Color> {
    if k == 4 {
        None
    } else {
        g.at(x + k / 3 - 1, y + k % 3 - 1)
    }
}

/// Sum of the similarities of `cur` to the neighbors at positions below `k`.
pub open spec fn score_sum(cur: Color, g: Grid, x: int, y: int, k: nat) -> int
    decreases k,
{
    if k == 0 {
        0
    } else {
        score_sum(cur, g, x, y, (k - 1) as nat) + match neighbor(g, x, y, k - 1) {
            Some(n) => similarity(cur, n),
            None => 0,
        }
    }
}

/// Channel-wise sum of the colors of the similar neighbors at positions below `k`.
pub open spec fn similar_sum(cur: Color, g: Grid, x: int, y: int, k: nat) -> (int, int, int)
    decreases k,
{
    if k == 0 {
        (0, 0, 0)
    } else {
        let s = similar_sum(cur, g, x, y, (k - 1) as nat);
        match neighbor(g, x, y, k - 1) {
            Some(n) => if is_similar(similarity(cur, n)) {
                (s.0 + n.r, s.1 + n.g, s.2 + n.b)
            } else {
                s
            },
            None => s,
        }
    }
}

/// Where every neighbor position below `k` is absent or zero, nothing is
/// summed.
proof fn lemma_sums_vanish(cur: Color, g: Grid, x: int, y: int, k: nat)
    requires
        forall|j: int|
            0 <= j < k ==> match #[trigger] neighbor(g, x, y, j) {
                Some(n) => n.is_zero(),
                None => true,
            },
    ensures
        score_sum(cur, g, x, y, k) == 0,
        similar_sum(cur, g, x, y, k) == (0int, 0int, 0int),
    decreases k,
{
    if k > 0 {
        lemma_sums_vanish(cur, g, x, y, (k - 1) as nat);
    }
}

/// With no neighbor but zero colors the score is 0, the average color is
/// zero, and only the cell's own color can make it alive.
proof fn lemma_state_without_neighbors(cur: Color, g: Grid, x: int, y: int)
    requires
        forall|j: int|
            0 <= j < 9 ==> match #[trigger] neighbor(g, x, y, j) {
                Some(n) => n.is_zero(),
                None => true,
            },
    ensures
        spec_cell_state(cur, g, x, y).neighborhood == 0,
        spec_cell_state(cur, g, x, y).neighborhood_color.is_zero(),
{
    lemma_sums_vanish(cur, g, x, y, 9);
    assert(round_div(0, ONE as int) == 0);
}

/// A 1x1 grid gives its cell no neighbors: whatever the colors, the score is
/// 0 and the average neighbor color is zero.
pub proof fn lemma_single_cell_has_no_neighbors(cur: Color, g: Grid)
    requires
        g.wf(),
        g.width == 1,
        g.height == 1,
    ensures
        spec_cell_state(cur, g, 0, 0).neighborhood == 0,
        spec_cell_state(cur, g, 0, 0).neighborhood_color.is_zero(),
{
    assert forall|j: int| 0 <= j < 9 implies match #[trigger] neighbor(g, 0, 0, j) {
        Some(n) => n.is_zero(),
        None => true,
    } by {
        assert(neighbor(g, 0, 0, j).is_none());
    }
    lemma_state_without_neighbors(cur, g, 0, 0);
}

/// In a blank grid every cell is dead, with a score of 0 and a zero average
/// neighbor color.
pub proof fn lemma_blank_grid_state(cur: Color, g: Grid, x: int, y: int)
    requires
        g.wf(),
        g.is_blank(),
    ensures
        !spec_cell_state(cur, g, x, y).alive,
        spec_cell_state(cur, g, x, y).neighborhood == 0,
        spec_cell_state(cur, g, x, y).neighborhood_color.is_zero(),
{
    assert forall|j: int| 0 <= j < 9 implies match #[trigger] neighbor(g, x, y, j) {
        Some(n) => n.is_zero(),
        None => true,
    } by {
        let (nx, ny) = (x + j / 3 - 1, y + j % 3 - 1);
        if j != 4 && g.in_bounds(nx, ny) {
            lemma_cell_index(nx, ny, g.width as int, g.height as int);
        }
    }
    lemma_state_without_neighbors(cur, g, x, y);
    if g.in_bounds(x, y) {
        lemma_cell_index(x, y, g.width as int, g.height as int);
    }
}

/// `n / d` rounded to the nearest integer, halves away from zero.
pub open spec fn round_div(n: int, d: int) -> int {
    if n >= 0 {
        (2 * n + d) / (2 * d)
    } else {
        -((-2 * n + d) / (2 * d))
    }
}

/// `n / d` rounded toward zero.
pub open spec fn trunc_div(n: int, d: int) -> int {
    let q = (if n < 0 { -n } else { n }) / (if d < 0 { -d } else { d });
    if (n < 0) != (d < 0) {
        -q
    } else {
        q
    }
}

/// One channel of the average color: the channel sum divided by the score
/// (in ten-thousandths), limited to the channel range; zero for a zero score.
pub open spec fn average_channel(sum: int, score: int) -> int {
    if score == 0 {
        0
    } else {
        clamp_channel(trunc_div(sum * SCORE_ONE, score), -CHANNEL_MAX as int, CHANNEL_MAX as int)
    }
}

/// The score of `(x, y)`: the similarity sum rounded to four decimals.
pub open spec fn neighborhood_score(cur: Color, g: Grid, x: int, y: int) -> int {
    round_div(score_sum(cur, g, x, y, 9) * SCORE_ONE, ONE as int)
}

/// The cell state of `(x, y)` in `g`, seen from the color `cur`.
pub open spec fn spec_cell_state(cur: Color, g: Grid, x: int, y: int) -> CellState {
    let score = neighborhood_score(cur, g, x, y);
    let s = similar_sum(cur, g, x, y, 9);
    CellState {
        alive: match g.at(x, y) {
            Some(p) => is_alive_color(p),
            None => false,
        },
        neighborhood: score as i64,
        neighborhood_color: Color {
            r: average_channel(s.0, score) as i32,
            g: average_channel(s.1, score) as i32,
            b: average_channel(s.2, score) as i32,
        },
    }
}

impl CellState {
    /// The state with no life, no score and the zero color.
    pub fn new() -> (s: CellState)
        ensures
            !s.alive,
            s.neighborhood == 0,
            s.neighborhood_color.is_zero(),
    {
        CellState { alive: false, neighborhood: 0, neighborhood_color: Color::zero() }
    }
}

proof fn lemma_square_of_product(a: int, b: int)
    ensures
        (a * b) * (a * b) == (a * a) * (b * b),
{
    assert((a * b) * (a * b) == (a * a) * (b * b)) by (nonlinear_arith);
}

proof fn lemma_swap_products(a1: int, b1: int, a2: int, b2: int)
    ensures
        2 * ((a1 * b1) * (a2 * b2)) <= (a1 * b2) * (a1 * b2) + (a2 * b1) * (a2 * b1),
{
    let u = a1 * b2;
    let v = a2 * b1;
    assert((a1 * b1) * (a2 * b2) == u * v) by (nonlinear_arith)
        requires
            u == a1 * b2,
            v == a2 * b1,
    ;
    assert(2 * (u * v) <= u * u + v * v) by (nonlinear_arith);
}

/// The squared dot product is at most the product of the squared lengths.
proof fn lemma_cauchy_schwarz(a: Color, b: Color)
    ensures
        a.spec_dot(b) * a.spec_dot(b) <= a.norm_sq() * b.norm_sq(),
{
    let (a1, a2, a3) = (a.r as int, a.g as int, a.b as int);
    let (b1, b2, b3) = (b.r as int, b.g as int, b.b as int);
    let (x1, x2, x3) = (a1 * b1, a2 * b2, a3 * b3);
    let (sa, sb) = (a.norm_sq(), b.norm_sq());
    let (p1, p2, p3) = (a1 * a1, a2 * a2, a3 * a3);
    let (q1, q2, q3) = (b1 * b1, b2 * b2, b3 * b3);
    assert(sa * sb == p1 * q1 + p1 * q2 + p1 * q3 + p2 * q1 + p2 * q2 + p2 * q3 + p3 * q1 + p3
        * q2 + p3 * q3) by (nonlinear_arith)
        requires
            sa == p1 + p2 + p3,
            sb == q1 + q2 + q3,
    ;
    let d = a.spec_dot(b);
    assert(d * d == x1 * x1 + x2 * x2 + x3 * x3 + 2 * (x1 * x2) + 2 * (x1 * x3) + 2 * (x2 * x3))
        by (nonlinear_arith)
        requires
            d == x1 + x2 + x3,
    ;
    lemma_square_of_product(a1, b1);
    lemma_square_of_product(a2, b2);
    lemma_square_of_product(a3, b3);
    lemma_square_of_product(a1, b2);
    lemma_square_of_product(a2, b1);
    lemma_square_of_product(a1, b3);
    lemma_square_of_product(a3, b1);
    lemma_square_of_product(a2, b3);
    lemma_square_of_product(a3, b2);
    lemma_swap_products(a1, b1, a2, b2);
    lemma_swap_products(a1, b1, a3, b3);
    lemma_swap_products(a2, b2, a3, b3);
}

/// The similarity of `nb` to `cur`, as `similarity` states it; between
/// `-ONE` and `ONE`.
pub fn cosine_similarity(cur: &Color, nb: &Color) -> (s: i64)
    requires
        cur.wf(),
        nb.wf(),
    ensures
        s == similarity(*cur, *nb),
        -ONE <= s <= ONE,
{
    let sa = cur.length_squared();
    let sb = nb.length_squared();
    if sa == 0 {
        if sb == 0 {
            0
        } else {
            ONE as i64
        }
    } else if sb == 0 {
        0
    } else {
        let d = cur.dot(nb);
        let m: u128 = if d < 0 {
            (-d) as u128
        } else {
            d as u128
        };
        let one_sq: u128 = 65535 * 65535;
        proof {
            lemma_cauchy_schwarz(*cur, *nb);
            assert(m * m == d * d) by (nonlinear_arith)
                requires
                    m == d || m == -d,
            ;
            assert(sa * sb <= 0x300_0000_0000 * 0x300_0000_0000) by (nonlinear_arith)
                requires
                    0 < sa <= 0x300_0000_0000,
                    0 < sb <= 0x300_0000_0000,
            ;
            assert(m * m * one_sq <= sa * sb * one_sq) by (nonlinear_arith)
                requires
                    m * m <= sa * sb,
                    one_sq >= 0,
            ;
        }
        let prod: u128 = (sa as u128) * (sb as u128);
        assert(prod > 0) by (nonlinear_arith)
            requires
                prod == sa * sb,
                sa > 0,
                sb > 0,
        ;
        assert(m * m <= 0x300_0000_0000 * 0x300_0000_0000);
        assert(m * m * one_sq <= 0x300_0000_0000 * 0x300_0000_0000 * one_sq)
            by (nonlinear_arith)
            requires
                m * m * one_sq <= sa * sb * one_sq,
                sa * sb <= 0x300_0000_0000 * 0x300_0000_0000,
                one_sq >= 0,
        ;
        let q: u128 = m * m * one_sq / prod;
        proof {
            lemma_div_is_ordered(m * m * one_sq, prod * one_sq, prod as int);
            lemma_div_by_multiple(one_sq as int, prod as int);
            assert(prod * one_sq == one_sq * prod) by (nonlinear_arith);
            assert(d * d * ONE * ONE == m * m * one_sq) by (nonlinear_arith)
                requires
                    m * m == d * d,
                    one_sq == ONE * ONE,
            ;
            lemma_isqrt_le(q as nat, ONE as nat);
        }
        let root = floor_sqrt(q) as i64;
        if d < 0 {
            -root
        } else {
            root
        }
    }
}

/// `sum * SCORE_ONE / ONE` rounded to the nearest integer, halves away from zero.
fn round_score(sum: i64) -> (r: i64)
    requires
        -9 * ONE <= sum <= 9 * ONE,
    ensures
        r == round_div(sum * SCORE_ONE, ONE as int),
        -9 * SCORE_ONE <= r <= 9 * SCORE_ONE,
{
    let n: i64 = sum * SCORE_ONE;
    let d: i64 = ONE as i64;
    if n >= 0 {
        assert((2 * n + d) / (2 * d) <= 9 * SCORE_ONE) by (nonlinear_arith)
            requires
                0 <= n <= 9 * ONE * SCORE_ONE,
                d == ONE,
        ;
        (2 * n + d) / (2 * d)
    } else {
        assert((-2 * n + d) / (2 * d) <= 9 * SCORE_ONE) by (nonlinear_arith)
            requires
                0 < -n <= 9 * ONE * SCORE_ONE,
                d == ONE,
        ;
        -((-2 * n + d) / (2 * d))
    }
}

/// One channel of the average color, as `average_channel` states it.
fn average_of(sum: i64, score: i64) -> (c: i32)
    requires
        -9 * CHANNEL_MAX <= sum <= 9 * CHANNEL_MAX,
        -9 * SCORE_ONE <= score <= 9 * SCORE_ONE,
    ensures
        c == average_channel(sum as int, score as int),
        channel_ok(c as int),
{
    if score == 0 {
        return 0;
    }
    let n: i64 = sum * SCORE_ONE;
    let num: i64 = if n < 0 {
        -n
    } else {
        n
    };
    let den: i64 = if score < 0 {
        -score
    } else {
        score
    };
    let q: i64 = num / den;
    let t: i64 = if (n < 0) != (score < 0) {
        -q
    } else {
        q
    };
    if t < -(CHANNEL_MAX as i64) {
        -CHANNEL_MAX
    } else if t > CHANNEL_MAX as i64 {
        CHANNEL_MAX
    } else {
        t as i32
    }
}

impl ColorSum {
    pub open spec fn spec_channels(&self) -> (int, int, int) {
        (self.r as int, self.g as int, self.b as int)
    }

    /// Each channel within `n` times the channel range.
    pub open spec fn bounded_by(&self, n: int) -> bool {
        &&& -n * CHANNEL_MAX <= self.r <= n * CHANNEL_MAX
        &&& -n * CHANNEL_MAX <= self.g <= n * CHANNEL_MAX
        &&& -n * CHANNEL_MAX <= self.b <= n * CHANNEL_MAX
    }

    pub fn new() -> (s: ColorSum)
        ensures
            s.spec_channels() == (0int, 0int, 0int),
    {
        ColorSum { r: 0, g: 0, b: 0 }
    }

    /// The sum divided by a neighborhood score given in ten-thousandths,
    /// rounded toward zero and limited to the channel range; the zero color
    /// for a zero score.
    pub fn divide_by_score(&self, score: i64) -> (c: Color)
        requires
            self.bounded_by(9),
            -9 * SCORE_ONE <= score <= 9 * SCORE_ONE,
        ensures
            c == (Color {
                r: average_channel(self.r as int, score as int) as i32,
                g: average_channel(self.g as int, score as int) as i32,
                b: average_channel(self.b as int, score as int) as i32,
            }),
            c.wf(),
    {
        Color {
            r: average_of(self.r, score),
            g: average_of(self.g, score),
            b: average_of(self.b, score),
        }
    }
}

/// Adds the color `rhs` to the sum `lhs`, channel by channel.
pub fn add_pixel(lhs: &mut ColorSum, rhs: Color)
    requires
        i64::MIN <= old(lhs).r + rhs.r <= i64::MAX,
        i64::MIN <= old(lhs).g + rhs.g <= i64::MAX,
        i64::MIN <= old(lhs).b + rhs.b <= i64::MAX,
    ensures
        final(lhs).r == old(lhs).r + rhs.r,
        final(lhs).g == old(lhs).g + rhs.g,
        final(lhs).b == old(lhs).b + rhs.b,
{
    lhs.r = lhs.r + rhs.r as i64;
    lhs.g = lhs.g + rhs.g as i64;
    lhs.b = lhs.b + rhs.b as i64;
}

/// Derives the cell state of `(x, y)` from the previous generation `lastgen`,
/// comparing each present neighbor's direction with `current_pixel`.
/// Coordinates outside the grid are never read.
pub fn gather_cell_state(current_pixel: &Color, lastgen: &Grid, x: u32, y: u32) -> (s: CellState)
    requires
        current_pixel.wf(),
        lastgen.wf(),
    ensures
        s == spec_cell_state(*current_pixel, *lastgen, x as int, y as int),
        -9 * SCORE_ONE <= s.neighborhood <= 9 * SCORE_ONE,
        s.neighborhood_color.wf(),
{
    let mut cell_state = CellState::new();
    match lastgen.get_pixel_checked(x as i64, y as i64) {
        None => {},
        Some(pixel) => {
            let sq: i64 = pixel.length_squared();
            let one: i64 = ONE as i64;
            if 16 * sq > one * one {
                cell_state.alive = true;
            }
        },
    }
    let mut score: i64 = 0;
    let mut colors = ColorSum::new();
    let mut k: usize = 0;
    while k < 9
        invariant
            k <= 9,
            current_pixel.wf(),
            lastgen.wf(),
            score == score_sum(*current_pixel, *lastgen, x as int, y as int, k as nat),
            colors.spec_channels() == similar_sum(
                *current_pixel,
                *lastgen,
                x as int,
                y as int,
                k as nat,
            ),
            -k * ONE <= score <= k * ONE,
            colors.bounded_by(k as int),
        decreases 9 - k,
    {
        if k != 4 {
            let nx: i64 = x as i64 + (k / 3) as i64 - 1;
            let ny: i64 = y as i64 + (k % 3) as i64 - 1;
            match lastgen.get_pixel_checked(nx, ny) {
                None => {},
                Some(neighbor) => {
                    let similarity = cosine_similarity(current_pixel, &neighbor);
                    score = score + similarity;
                    if 4 * similarity >= ONE as i64 {
                        add_pixel(&mut colors, neighbor);
                    }
                },
            }
        }
        k = k + 1;
    }
    let neighborhood = round_score(score);
    cell_state.neighborhood = neighborhood;
    cell_state.neighborhood_color = colors.divide_by_score(neighborhood);
    cell_state
}

} // verus!
