//! Fixed-point RGB colors and their vector operations.
use vstd::prelude::*;
use vstd::arithmetic::div_mod::{lemma_div_by_multiple, lemma_div_is_ordered};
use crate::arith::{floor_sqrt, isqrt, lemma_isqrt_le, lemma_isqrt_is_floor_root};

verus! {

/// The channel value that stands for the intensity 1.0.
pub const ONE: i32 = 65535;

/// Largest magnitude a channel may have (16.0).
pub const CHANNEL_MAX: i32 = 1048560;

/// A color with three fixed-point channels; `ONE` is full intensity.
#[derive(Clone, Copy, Debug, PartialEq, Eq, Structural)]
pub struct Color {
    pub r: i32,
    pub g: i32,
    pub b: i32,
}

/// A channel value within the representable range.
pub open spec fn channel_ok(v: int) -> bool {
    -CHANNEL_MAX <= v <= CHANNEL_MAX
}

/// `v` limited to `[lo, hi]`: `lo` below `lo`, else `hi` above `hi`.
pub open spec fn clamp_channel(v: int, lo: int, hi: int) -> int {
    if v < lo {
        lo
    } else if v > hi {
        hi
    } else {
        v
    }
}

/// Channel `c` of a vector whose squared length is `s`, scaled to length `ONE`
/// and rounded toward zero.
pub open spec fn unit_channel(c: int, s: int) -> int {
    let m = isqrt((c * c * ONE * ONE / s) as nat) as int;
    if c < 0 {
        -m
    } else {
        m
    }
}

/// The fixed-point channel for the random 16-bit word `w`: `w / 65536` of `ONE`.
pub open spec fn channel_from_word(w: int) -> int {
    w * ONE / 65536
}

/// Relies on rand::random: it draws a value of any type that the standard
/// distribution covers from the thread-local generator; nothing is known of
/// the value drawn. (It panics only where that generator cannot be seeded
/// from the operating system.)
pub assume_specification<T>[ rand::random::<T> ]() -> (r: T)
    where
        rand::distributions::Standard: rand::distributions::Distribution<T>,
;

impl Color {
    pub open spec fn wf(&self) -> bool {
        channel_ok(self.r as int) && channel_ok(self.g as int) && channel_ok(self.b as int)
    }

    pub open spec fn is_zero(&self) -> bool {
        self.r == 0 && self.g == 0 && self.b == 0
    }

    /// The squared Euclidean length.
    pub open spec fn norm_sq(&self) -> int {
        self.r * self.r + self.g * self.g + self.b * self.b
    }

    /// The Euclidean length, rounded down.
    pub open spec fn spec_length(&self) -> nat {
        isqrt(self.norm_sq() as nat)
    }

    pub open spec fn spec_dot(&self, v: Color) -> int {
        self.r * v.r + self.g * v.g + self.b * v.b
    }

    pub open spec fn spec_normalize(&self) -> Color {
        let s = self.norm_sq();
        if s == 0 {
            Color { r: 0, g: 0, b: 0 }
        } else {
            Color {
                r: unit_channel(self.r as int, s) as i32,
                g: unit_channel(self.g as int, s) as i32,
                b: unit_channel(self.b as int, s) as i32,
            }
        }
    }

    pub open spec fn spec_clamp(&self, min: int, max: int) -> Color {
        Color {
            r: clamp_channel(self.r as int, min, max) as i32,
            g: clamp_channel(self.g as int, min, max) as i32,
            b: clamp_channel(self.b as int, min, max) as i32,
        }
    }

    pub open spec fn spec_threshold(&self, t: int) -> Color {
        if self.spec_length() >= t {
            *self
        } else {
            Color { r: 0, g: 0, b: 0 }
        }
    }

    pub open spec fn spec_from_random_bits(bits: int) -> Color {
        Color {
            r: channel_from_word(bits % 65536) as i32,
            g: channel_from_word((bits / 65536) % 65536) as i32,
            b: channel_from_word((bits / 0x1_0000_0000) % 65536) as i32,
        }
    }

    pub fn new(r: i32, g: i32, b: i32) -> (c: Color)
        ensures
            c == (Color { r, g, b }),
    {
        Color { r, g, b }
    }

    pub fn zero() -> (c: Color)
        ensures
            c.is_zero(),
            c.wf(),
    {
        Color { r: 0, g: 0, b: 0 }
    }

    pub fn is_black(&self) -> (z: bool)
        ensures
            z == self.is_zero(),
    {
        self.r == 0 && self.g == 0 && self.b == 0
    }

    /// The squared length, exactly.
    pub fn length_squared(&self) -> (s: i64)
        requires
            self.wf(),
        ensures
            s == self.norm_sq(),
            0 <= s <= 3 * CHANNEL_MAX * CHANNEL_MAX,
            s <= 0x300_0000_0000,
            s == 0 <==> self.is_zero(),
    {
        proof {
            lemma_square_bound(self.r as int);
            lemma_square_bound(self.g as int);
            lemma_square_bound(self.b as int);
            lemma_square_zero(self.r as int);
            lemma_square_zero(self.g as int);
            lemma_square_zero(self.b as int);
        }
        let r = self.r as i64;
        let g = self.g as i64;
        let b = self.b as i64;
        r * r + g * g + b * b
    }

    /// The Euclidean length, rounded down; zero only for the zero color.
    pub fn length(&self) -> (l: u32)
        requires
            self.wf(),
        ensures
            l == self.spec_length(),
            l == 0 <==> self.is_zero(),
    {
        let s = self.length_squared();
        let l = floor_sqrt(s as u128);
        proof {
            lemma_isqrt_le(s as nat, 0x20_0000);
            lemma_isqrt_is_floor_root(s as nat);
        }
        l as u32
    }

    /// The channel-wise product sum.
    pub fn dot(&self, v: &Color) -> (d: i64)
        requires
            self.wf(),
            v.wf(),
        ensures
            d == self.spec_dot(*v),
            -3 * CHANNEL_MAX * CHANNEL_MAX <= d <= 3 * CHANNEL_MAX * CHANNEL_MAX,
    {
        proof {
            lemma_product_bound(self.r as int, v.r as int);
            lemma_product_bound(self.g as int, v.g as int);
            lemma_product_bound(self.b as int, v.b as int);
        }
        (self.r as i64) * (v.r as i64) + (self.g as i64) * (v.g as i64) + (self.b as i64) * (
        v.b as i64)
    }

    /// This color scaled to length `ONE`, each channel rounded toward zero;
    /// the zero color normalizes to itself.
    pub fn normalize(&self) -> (n: Color)
        requires
            self.wf(),
        ensures
            n == self.spec_normalize(),
            n.wf(),
            -ONE <= n.r <= ONE,
            -ONE <= n.g <= ONE,
            -ONE <= n.b <= ONE,
    {
        let s = self.length_squared();
        if s == 0 {
            Color { r: 0, g: 0, b: 0 }
        } else {
            proof {
                lemma_square_nonneg(self.r as int);
                lemma_square_nonneg(self.g as int);
                lemma_square_nonneg(self.b as int);
            }
            Color {
                r: scale_to_unit(self.r, s),
                g: scale_to_unit(self.g, s),
                b: scale_to_unit(self.b, s),
            }
        }
    }

    /// Each channel limited to `[min, max]`.
    pub fn clamp(&self, min: i32, max: i32) -> (c: Color)
        ensures
            c == self.spec_clamp(min as int, max as int),
    {
        Color {
            r: clamp_i32(self.r, min, max),
            g: clamp_i32(self.g, min, max),
            b: clamp_i32(self.b, min, max),
        }
    }

    /// This color if its length is at least `t`, else the zero color.
    pub fn threshold(&self, t: i32) -> (c: Color)
        requires
            self.wf(),
        ensures
            c == self.spec_threshold(t as int),
    {
        if self.length() as i64 >= t as i64 {
            *self
        } else {
            Color { r: 0, g: 0, b: 0 }
        }
    }

    /// The color drawn from 48 random bits: three 16-bit words, each taken
    /// as a fraction of 65536 and scaled to `ONE`.
    pub fn from_random_bits(bits: u64) -> (c: Color)
        ensures
            c == Color::spec_from_random_bits(bits as int),
            c.wf(),
            0 <= c.r < ONE,
            0 <= c.g < ONE,
            0 <= c.b < ONE,
    {
        let wr = bits % 65536;
        let wg = (bits / 65536) % 65536;
        let wb = (bits / 0x1_0000_0000) % 65536;
        Color { r: word_to_channel(wr), g: word_to_channel(wg), b: word_to_channel(wb) }
    }

    /// A random color, each channel in `[0, ONE)`.
    pub fn random() -> (c: Color)
        ensures
            c.wf(),
            0 <= c.r < ONE,
            0 <= c.g < ONE,
            0 <= c.b < ONE,
    {
        let bits: u64 = rand::random::<u64>();
        Color::from_random_bits(bits)
    }
}

fn word_to_channel(w: u64) -> (c: i32)
    requires
        w < 65536,
    ensures
        c == channel_from_word(w as int),
        0 <= c < ONE,
{
    assert(w * 65535 / 65536 < 65535) by (nonlinear_arith)
        requires
            w < 65536,
    ;
    ((w * 65535) / 65536) as i32
}

fn clamp_i32(v: i32, lo: i32, hi: i32) -> (r: i32)
    ensures
        r == clamp_channel(v as int, lo as int, hi as int),
{
    if v < lo {
        lo
    } else if v > hi {
        hi
    } else {
        v
    }
}

/// Channel `c` of a vector with squared length `s`, scaled to length `ONE`.
fn scale_to_unit(c: i32, s: i64) -> (u: i32)
    requires
        0 < s,
        channel_ok(c as int),
        c * c <= s,
    ensures
        u == unit_channel(c as int, s as int),
        -ONE <= u <= ONE,
{
    let m: u128 = if c < 0 {
        (-(c as i64)) as u128
    } else {
        c as u128
    };
    proof {
        lemma_square_bound(c as int);
        assert(m * m == c * c) by (nonlinear_arith)
            requires
                m == c || m == -c,
        ;
    }
    let one_sq: u128 = 65535 * 65535;
    let q: u128 = m * m * one_sq / (s as u128);
    proof {
        assert(m * m * one_sq <= s * one_sq) by (nonlinear_arith)
            requires
                m * m <= s,
                one_sq >= 0,
        ;
        lemma_div_is_ordered(m * m * one_sq, s * one_sq, s as int);
        lemma_div_by_multiple(one_sq as int, s as int);
        assert(s * one_sq == one_sq * s) by (nonlinear_arith);
        assert(c * c * ONE * ONE == m * m * one_sq) by (nonlinear_arith)
            requires
                m * m == c * c,
                one_sq == ONE * ONE,
        ;
        lemma_isqrt_le(q as nat, ONE as nat);
    }
    let root = floor_sqrt(q);
    if c < 0 {
        -(root as i32)
    } else {
        root as i32
    }
}


/// Facts on one channel of a normalized vector: with `q` the scaled square
/// `c * c * ONE * ONE / s`, the channel's square lies at most `2 * ONE` below `q`.
proof fn lemma_unit_channel(c: int, s: int)
    requires
        0 < s,
        c * c <= s,
    ensures
        ({
            let q = c * c * ONE * ONE / s;
            let u = unit_channel(c, s);
            &&& 0 <= u * u <= q <= u * u + 2 * ONE
            &&& -ONE <= u <= ONE
            &&& s * q <= c * c * ONE * ONE < s * q + s
        }),
{
    let n = c * c * ONE * ONE;
    assert(0 <= c * c) by (nonlinear_arith);
    assert(0 <= n) by (nonlinear_arith)
        requires
            0 <= c * c,
            n == c * c * ONE * ONE,
    ;
    let q = n / s;
    vstd::arithmetic::div_mod::lemma_fundamental_div_mod(n, s);
    vstd::arithmetic::div_mod::lemma_mod_bound(n, s);
    assert(s * q == s * (n / s));
    assert(n * 1 <= s * (ONE * ONE)) by (nonlinear_arith)
        requires
            c * c <= s,
            n == c * c * ONE * ONE,
    ;
    lemma_div_is_ordered(n, s * (ONE * ONE), s);
    lemma_div_by_multiple(ONE * ONE, s);
    assert(s * (ONE * ONE) == (ONE * ONE) * s) by (nonlinear_arith);
    assert(0 <= q <= ONE * ONE) by (nonlinear_arith)
        requires
            q <= (ONE * ONE) * s / s,
            (ONE * ONE) * s / s == ONE * ONE,
            0 <= n,
            q == n / s,
            0 < s,
    ;
    lemma_isqrt_is_floor_root(q as nat);
    lemma_isqrt_le(q as nat, ONE as nat);
    let m = isqrt(q as nat) as int;
    assert(q <= m * m + 2 * ONE) by (nonlinear_arith)
        requires
            q < (m + 1) * (m + 1),
            0 <= m <= ONE,
    ;
    let u = unit_channel(c, s);
    assert(u * u == m * m) by (nonlinear_arith)
        requires
            u == m || u == -m,
    ;
}

/// The squared length of a normalized nonzero color lies within `6 * ONE + 2`
/// below `ONE * ONE`, and never above it.
proof fn lemma_normalize_norm_sq(c: Color)
    requires
        c.wf(),
        !c.is_zero(),
    ensures
        ONE * ONE - 6 * ONE - 2 <= c.spec_normalize().norm_sq() <= ONE * ONE,
{
    let s = c.norm_sq();
    lemma_square_zero(c.r as int);
    lemma_square_zero(c.g as int);
    lemma_square_zero(c.b as int);
    lemma_square_nonneg(c.r as int);
    lemma_square_nonneg(c.g as int);
    lemma_square_nonneg(c.b as int);
    let (r, g, b) = (c.r as int, c.g as int, c.b as int);
    lemma_unit_channel(r, s);
    lemma_unit_channel(g, s);
    lemma_unit_channel(b, s);
    let qr = r * r * ONE * ONE / s;
    let qg = g * g * ONE * ONE / s;
    let qb = b * b * ONE * ONE / s;
    assert(r * r * ONE * ONE + g * g * ONE * ONE + b * b * ONE * ONE == s * (ONE * ONE))
        by (nonlinear_arith)
        requires
            s == r * r + g * g + b * b,
    ;
    assert(s * (qr + qg + qb) <= s * (ONE * ONE) < s * (qr + qg + qb) + 3 * s)
        by (nonlinear_arith)
        requires
            s * qr <= r * r * ONE * ONE < s * qr + s,
            s * qg <= g * g * ONE * ONE < s * qg + s,
            s * qb <= b * b * ONE * ONE < s * qb + s,
            r * r * ONE * ONE + g * g * ONE * ONE + b * b * ONE * ONE == s * (ONE * ONE),
    ;
    assert(ONE * ONE - 3 < qr + qg + qb <= ONE * ONE) by (nonlinear_arith)
        requires
            s > 0,
            s * (qr + qg + qb) <= s * (ONE * ONE) < s * (qr + qg + qb) + 3 * s,
    ;
    let n = c.spec_normalize();
    assert(n.norm_sq() == unit_channel(r, s) * unit_channel(r, s) + unit_channel(g, s)
        * unit_channel(g, s) + unit_channel(b, s) * unit_channel(b, s));
}

/// A nonzero color normalizes to a color whose length is 1 within a relative
/// error of 1/10000.
pub proof fn lemma_normalize_has_unit_length(c: Color)
    requires
        c.wf(),
        !c.is_zero(),
    ensures
        ONE * 9999 <= 10000 * c.spec_normalize().spec_length() <= ONE * 10000,
{
    lemma_normalize_norm_sq(c);
    let d = c.spec_normalize().norm_sq();
    lemma_isqrt_le(d as nat, ONE as nat);
    lemma_isqrt_is_floor_root(d as nat);
    let l = isqrt(d as nat) as int;
    if l < ONE - 4 {
        assert((l + 1) * (l + 1) <= (ONE - 4) * (ONE - 4)) by (nonlinear_arith)
            requires
                0 <= l < ONE - 4,
        ;
    }
}

/// The dot product of a nonzero color's normalization with itself is 1 within
/// 1/10000 (at scale `ONE * ONE`).
pub proof fn lemma_normalize_self_dot(c: Color)
    requires
        c.wf(),
        !c.is_zero(),
    ensures
        ONE * ONE * 9999 <= 10000 * c.spec_normalize().spec_dot(c.spec_normalize())
            <= ONE * ONE * 10000,
{
    lemma_normalize_norm_sq(c);
}

proof fn lemma_square_bound(v: int)
    requires
        channel_ok(v),
    ensures
        0 <= v * v <= CHANNEL_MAX * CHANNEL_MAX,
{
    assert(0 <= v * v <= CHANNEL_MAX * CHANNEL_MAX) by (nonlinear_arith)
        requires
            -CHANNEL_MAX <= v <= CHANNEL_MAX,
    ;
}

proof fn lemma_square_nonneg(v: int)
    ensures
        0 <= v * v,
{
    assert(0 <= v * v) by (nonlinear_arith);
}

proof fn lemma_square_zero(v: int)
    ensures
        v * v == 0 <==> v == 0,
{
    if v != 0 {
        assert(v * v > 0) by (nonlinear_arith)
            requires
                v != 0,
        ;
    }
}

proof fn lemma_product_bound(a: int, b: int)
    requires
        channel_ok(a),
        channel_ok(b),
    ensures
        -CHANNEL_MAX * CHANNEL_MAX <= a * b <= CHANNEL_MAX * CHANNEL_MAX,
{
    assert(-CHANNEL_MAX * CHANNEL_MAX <= a * b <= CHANNEL_MAX * CHANNEL_MAX) by (nonlinear_arith)
        requires
            -CHANNEL_MAX <= a <= CHANNEL_MAX,
            -CHANNEL_MAX <= b <= CHANNEL_MAX,
    ;
}

} // verus!
