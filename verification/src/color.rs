//! Colors as fixed-point triples.  A channel value of `SCALE` stands for
//! full intensity 1; values may exceed that range until `clamp` is applied.
use vstd::prelude::*;

use crate::num::{div_trunc, tdiv};
use crate::SCALE;

verus! {

/// Largest channel magnitude the color operations accept.
pub const COLOR_LIMIT: i64 = 549755813888;

#[derive(Clone, Copy, Debug, PartialEq, Eq, Structural)]
pub struct Color {
    pub r: i64,
    pub g: i64,
    pub b: i64,
}

impl Color {
    /// All channels within `[0, m]`.
    pub open spec fn in_range(self, m: int) -> bool {
        &&& 0 <= self.r <= m
        &&& 0 <= self.g <= m
        &&& 0 <= self.b <= m
    }

    pub fn new(r: i64, g: i64, b: i64) -> (c: Color)
        ensures
            c == (Color { r, g, b }),
    {
        Color { r, g, b }
    }

    pub fn black() -> (c: Color)
        ensures
            c == (Color { r: 0, g: 0, b: 0 }),
    {
        Color { r: 0, g: 0, b: 0 }
    }

    pub fn white() -> (c: Color)
        ensures
            c == (Color { r: SCALE, g: SCALE, b: SCALE }),
    {
        Color { r: SCALE, g: SCALE, b: SCALE }
    }

    pub fn red() -> (c: Color)
        ensures
            c == (Color { r: SCALE, g: 0, b: 0 }),
    {
        Color { r: SCALE, g: 0, b: 0 }
    }

    pub fn green() -> (c: Color)
        ensures
            c == (Color { r: 0, g: SCALE, b: 0 }),
    {
        Color { r: 0, g: SCALE, b: 0 }
    }

    pub fn blue() -> (c: Color)
        ensures
            c == (Color { r: 0, g: 0, b: SCALE }),
    {
        Color { r: 0, g: 0, b: SCALE }
    }

    /// Restrict every channel to `[0, SCALE]`.
    pub fn clamp(&self) -> (c: Color)
        ensures
            c.r == if self.r < 0 { 0int } else if self.r > SCALE { SCALE as int } else { self.r as int },
            c.g == if self.g < 0 { 0int } else if self.g > SCALE { SCALE as int } else { self.g as int },
            c.b == if self.b < 0 { 0int } else if self.b > SCALE { SCALE as int } else { self.b as int },
            c.in_range(SCALE as int),
    {
        Color { r: clamp_channel(self.r), g: clamp_channel(self.g), b: clamp_channel(self.b) }
    }

    /// Channelwise sum.
    pub fn add(&self, o: &Color) -> (c: Color)
        requires
            self.in_range(COLOR_LIMIT as int),
            o.in_range(COLOR_LIMIT as int),
        ensures
            c.r == self.r + o.r,
            c.g == self.g + o.g,
            c.b == self.b + o.b,
    {
        Color { r: self.r + o.r, g: self.g + o.g, b: self.b + o.b }
    }

    /// Channelwise product, truncating toward zero.
    pub fn mul(&self, o: &Color) -> (c: Color)
        requires
            self.in_range(COLOR_LIMIT as int),
            o.in_range(COLOR_LIMIT as int),
        ensures
            c.r == tdiv(self.r * o.r, SCALE as int),
            c.g == tdiv(self.g * o.g, SCALE as int),
            c.b == tdiv(self.b * o.b, SCALE as int),
            self.in_range(SCALE as int) && o.in_range(SCALE as int) ==> c.in_range(SCALE as int),
    {
        proof {
            if self.in_range(SCALE as int) && o.in_range(SCALE as int) {
                lemma_unit_product(self.r as int, o.r as int);
                lemma_unit_product(self.g as int, o.g as int);
                lemma_unit_product(self.b as int, o.b as int);
            }
        }
        proof {
            lemma_channel_product(self.r as int, o.r as int);
            lemma_channel_product(self.g as int, o.g as int);
            lemma_channel_product(self.b as int, o.b as int);
        }
        Color {
            r: div_trunc((self.r as i128) * (o.r as i128), SCALE as i128) as i64,
            g: div_trunc((self.g as i128) * (o.g as i128), SCALE as i128) as i64,
            b: div_trunc((self.b as i128) * (o.b as i128), SCALE as i128) as i64,
        }
    }

    /// Every channel scaled by `k / SCALE`, truncating toward zero.
    pub fn scale(&self, k: i64) -> (c: Color)
        requires
            self.in_range(COLOR_LIMIT as int),
            0 <= k <= COLOR_LIMIT,
        ensures
            c.r == tdiv(k * self.r, SCALE as int),
            c.g == tdiv(k * self.g, SCALE as int),
            c.b == tdiv(k * self.b, SCALE as int),
            self.in_range(SCALE as int) && k <= SCALE ==> c.in_range(SCALE as int),
    {
        proof {
            if self.in_range(SCALE as int) && k <= SCALE {
                lemma_unit_product(k as int, self.r as int);
                lemma_unit_product(k as int, self.g as int);
                lemma_unit_product(k as int, self.b as int);
            }
        }
        proof {
            lemma_channel_product(k as int, self.r as int);
            lemma_channel_product(k as int, self.g as int);
            lemma_channel_product(k as int, self.b as int);
        }
        Color {
            r: div_trunc((k as i128) * (self.r as i128), SCALE as i128) as i64,
            g: div_trunc((k as i128) * (self.g as i128), SCALE as i128) as i64,
            b: div_trunc((k as i128) * (self.b as i128), SCALE as i128) as i64,
        }
    }
}

fn clamp_channel(v: i64) -> (r: i64)
    ensures
        r == if v < 0 { 0int } else if v > SCALE { SCALE as int } else { v as int },
{
    if v < 0 {
        0
    } else if v > SCALE {
        SCALE
    } else {
        v
    }
}

/// The scaled product of two unit-range values stays in unit range.
proof fn lemma_unit_product(a: int, b: int)
    requires
        0 <= a <= SCALE as int,
        0 <= b <= SCALE as int,
    ensures
        0 <= tdiv(a * b, SCALE as int) <= SCALE as int,
{
    assert(0 <= a * b <= (SCALE as int) * (SCALE as int)) by (nonlinear_arith)
        requires
            0 <= a <= SCALE as int,
            0 <= b <= SCALE as int,
    ;
    assert(tdiv(a * b, SCALE as int) == (a * b) / (SCALE as int));
    assert(0 <= (a * b) / (SCALE as int) <= SCALE as int) by (nonlinear_arith)
        requires
            0 <= a * b <= (SCALE as int) * (SCALE as int),
            SCALE as int >= 1,
    ;
}

/// Products of in-range channels stay inside the machine range, before and
/// after the scale division.
proof fn lemma_channel_product(a: int, b: int)
    requires
        0 <= a <= COLOR_LIMIT as int,
        0 <= b <= COLOR_LIMIT as int,
    ensures
        0 <= a * b <= (COLOR_LIMIT as int) * (COLOR_LIMIT as int),
        0 <= tdiv(a * b, SCALE as int) <= (COLOR_LIMIT as int) * (COLOR_LIMIT as int)
            / SCALE as int,
{
    let cl = COLOR_LIMIT as int;
    assert(0 <= a * b <= cl * cl) by (nonlinear_arith)
        requires
            0 <= a <= cl,
            0 <= b <= cl,
    ;
    assert(tdiv(a * b, SCALE as int) == (a * b) / SCALE as int);
    assert(0 <= (a * b) / SCALE as int <= cl * cl / SCALE as int) by (nonlinear_arith)
        requires
            0 <= a * b <= cl * cl,
            SCALE as int >= 1,
    ;
}

} // verus!
