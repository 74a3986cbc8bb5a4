//! The range of the incoming data when the cartesian coordinate system is
//! chosen.  Applicable for non-geospatial (i.e. microscopy, etc.) data.
//!
//! Coordinates are fixed-point numbers: a field value `v` stands for the
//! caller-unit value `v / 2^32` (see [`crate::fixed`]).  Normalization maps a
//! caller-unit value into the unit square, flooring at the fixed-point
//! granularity; denormalization is the inverse map.

use crate::fixed::{div_floor, lemma_div_floor_bounds, COORD_ONE};
use vstd::prelude::*;

verus! {

/// The largest magnitude a caller-unit coordinate may have, about `2^16`
/// caller units in fixed point.  It keeps every intermediate product inside
/// `i128` and every result inside `i64`.
pub const RANGE_LIMIT: i64 = 0x1_0000_0000_0000;

/// An axis-aligned rectangle around the incoming data, with the shared
/// offset and scale that normalization uses, optionally cached.
#[derive(Clone, Copy, Debug, PartialEq, Eq)]
pub struct DataRange {
    /// The minimum x-coordinate value.
    pub min_x: i64,

    /// The minimum y-coordinate value.
    pub min_y: i64,

    /// The maximum x-coordinate value.
    pub max_x: i64,

    /// The maximum y-coordinate value.
    pub max_y: i64,

    /// The cached value for offset.
    pub offset: Option<i64>,

    /// The cached value for scale.
    pub scale: Option<i64>,
}

impl DataRange {
    /// The shared offset: the cached value, or the smaller of the two minima.
    pub open spec fn offset_spec(self) -> int {
        match self.offset {
            Option::Some(o) => o as int,
            Option::None => if self.min_x <= self.min_y {
                self.min_x as int
            } else {
                self.min_y as int
            },
        }
    }

    /// The shared scale: the cached value, or the larger of the two maxima
    /// minus the offset.
    pub open spec fn scale_spec(self) -> int {
        match self.scale {
            Option::Some(s) => s as int,
            Option::None => (if self.max_x >= self.max_y {
                self.max_x as int
            } else {
                self.max_y as int
            }) - self.offset_spec(),
        }
    }

    /// A well-formed range: all bounds within [`RANGE_LIMIT`] and a positive
    /// scale.
    pub open spec fn wf(self) -> bool {
        &&& -RANGE_LIMIT <= self.min_x <= RANGE_LIMIT
        &&& -RANGE_LIMIT <= self.min_y <= RANGE_LIMIT
        &&& -RANGE_LIMIT <= self.max_x <= RANGE_LIMIT
        &&& -RANGE_LIMIT <= self.max_y <= RANGE_LIMIT
        &&& (self.offset matches Option::Some(o) ==> -RANGE_LIMIT <= o <= RANGE_LIMIT)
        &&& (self.scale matches Option::Some(s) ==> s <= RANGE_LIMIT)
        &&& 0 < self.scale_spec()
    }

    /// What [`Self::normalize`] returns: `(v - offset) / scale`, scaled to
    /// fixed point and floored.
    pub open spec fn norm_spec(self, v: int) -> int {
        ((v - self.offset_spec()) * (COORD_ONE as int)) / self.scale_spec()
    }

    /// What [`Self::denormalize`] returns: `n * scale + offset`, floored at
    /// the fixed-point granularity.
    pub open spec fn denorm_spec(self, n: int) -> int {
        (n * self.scale_spec()) / (COORD_ONE as int) + self.offset_spec()
    }

    /// The shared offset of this range.
    fn offset_value(&self) -> (r: i64)
        ensures
            r == self.offset_spec(),
    {
        match self.offset {
            Option::Some(o) => o,
            Option::None => if self.min_x <= self.min_y {
                self.min_x
            } else {
                self.min_y
            },
        }
    }

    /// The shared scale of this range.
    fn scale_value(&self) -> (r: i64)
        requires
            self.wf(),
        ensures
            r == self.scale_spec(),
    {
        match self.scale {
            Option::Some(s) => s,
            Option::None => {
                let off = self.offset_value();
                let hi = if self.max_x >= self.max_y {
                    self.max_x
                } else {
                    self.max_y
                };
                hi - off
            },
        }
    }

    /// Normalize the coordinate value to the unit square.  The formula is
    /// `(v - offset) / scale`, floored at the fixed-point granularity.
    pub fn normalize(&self, v: i64) -> (r: i64)
        requires
            self.wf(),
            -0x4000_0000 * self.scale_spec() <= v - self.offset_spec(),
            v - self.offset_spec() <= 0x4000_0000 * self.scale_spec(),
        ensures
            r == self.norm_spec(v as int),
            -0x4000_0000_0000_0000 <= r <= 0x4000_0000_0000_0000,
    {
        let off = self.offset_value();
        let sc = self.scale_value();
        proof {
            let d = self.scale_spec();
            let w = v - self.offset_spec();
            assert(d <= 0x2_0000_0000_0000);
            assert(-0x8000_0000_0000_0000_0000 <= w <= 0x8000_0000_0000_0000_0000)
                by (nonlinear_arith)
                requires
                    -0x4000_0000 * d <= w <= 0x4000_0000 * d,
                    0 < d <= 0x2_0000_0000_0000,
            ;
        }
        let num: i128 = (v as i128 - off as i128) * (COORD_ONE as i128);
        let q = div_floor(num, sc as i128);
        proof {
            let d = self.scale_spec();
            let w = v - self.offset_spec();
            lemma_div_floor_bounds(w * (COORD_ONE as int), d);
            let qq = (w * (COORD_ONE as int)) / d;
            assert(-0x4000_0000_0000_0000 <= qq <= 0x4000_0000_0000_0000) by (nonlinear_arith)
                requires
                    0 < d,
                    -0x4000_0000 * d <= w <= 0x4000_0000 * d,
                    d * qq <= w * (COORD_ONE as int) < d * qq + d,
            ;
        }
        q as i64
    }

    /// Denormalize the coordinate value from the unit square back to caller
    /// units.  The formula is `n * scale + offset`, floored at the
    /// fixed-point granularity.
    pub fn denormalize(&self, n: i64) -> (r: i64)
        requires
            self.wf(),
            -0x2_0000_0000 <= n <= 0x2_0000_0000,
        ensures
            r == self.denorm_spec(n as int),
    {
        let off = self.offset_value();
        let sc = self.scale_value();
        proof {
            let d = self.scale_spec();
            assert(d <= 0x2_0000_0000_0000);
            assert(-0x4_0000_0000_0000_0000_0000 <= n * d <= 0x4_0000_0000_0000_0000_0000)
                by (nonlinear_arith)
                requires
                    -0x2_0000_0000 <= n <= 0x2_0000_0000,
                    0 < d <= 0x2_0000_0000_0000,
            ;
        }
        let num: i128 = (n as i128) * (sc as i128);
        let q = div_floor(num, COORD_ONE as i128);
        proof {
            lemma_div_floor_bounds(n * self.scale_spec(), COORD_ONE as int);
        }
        (q as i64) + off
    }
}

/// Round-trip projection: denormalizing a unit-square value and normalizing
/// it again returns the value, up to the fixed-point granularity of the
/// scale (exactly one unit of `1/scale`, flooring).
pub proof fn lemma_normalize_round_trip(r: DataRange, n: int)
    requires
        r.wf(),
        0 <= n <= COORD_ONE,
    ensures
        r.norm_spec(r.denorm_spec(n)) <= n,
        n - (COORD_ONE as int) / r.scale_spec() - 1 <= r.norm_spec(r.denorm_spec(n)),
{
    let s = r.scale_spec();
    let one = COORD_ONE as int;
    let q = (n * s) / one;
    vstd::arithmetic::div_mod::lemma_fundamental_div_mod(n * s, one);
    let rem = (n * s) % one;
    vstd::arithmetic::div_mod::lemma_mod_bound(n * s, one);
    assert(r.denorm_spec(n) - r.offset_spec() == q);
    assert(r.norm_spec(r.denorm_spec(n)) == (q * one) / s);
    // upper: q * one <= n * s, so the quotient is at most n
    assert(q * one == n * s - rem) by (nonlinear_arith)
        requires
            n * s == one * q + rem,
    ;
    lemma_div_floor_bounds((COORD_ONE as int), s);
    vstd::arithmetic::div_mod::lemma_div_is_ordered(q * one, n * s, s);
    vstd::arithmetic::div_mod::lemma_div_by_multiple(n, s);
    assert(n * s == s * n) by (nonlinear_arith);
    // lower: q * one exceeds s * (n - one/s - 1)
    assert(s * (one / s) >= one - s + 1) by (nonlinear_arith)
        requires
            s * (one / s) <= one < s * (one / s) + s,
    ;
    assert(s * (n - one / s - 1) <= q * one) by (nonlinear_arith)
        requires
            q * one == n * s - rem,
            0 <= rem < one,
            s * (one / s) >= one - s + 1,
            1 <= s,
    ;
    if n - one / s - 1 >= 0 {
        vstd::arithmetic::div_mod::lemma_div_is_ordered(s * (n - one / s - 1), q * one, s);
        vstd::arithmetic::div_mod::lemma_div_by_multiple(n - one / s - 1, s);
        assert(s * (n - one / s - 1) == (n - one / s - 1) * s) by (nonlinear_arith);
    } else {
        assert(0 <= n * s) by (nonlinear_arith)
            requires
                0 <= n,
                0 <= s,
        ;
        vstd::arithmetic::div_mod::lemma_div_pos_is_pos(n * s, one);
        assert(0 <= q * one) by (nonlinear_arith)
            requires
                0 <= q,
                0 < one,
        ;
        vstd::arithmetic::div_mod::lemma_div_pos_is_pos(q * one, s);
    }
}

impl Default for DataRange {
    /// A range spanning the unit square itself, with nothing cached.
    fn default() -> (r: Self)
        ensures
            r.min_x == 0 && r.min_y == 0,
            r.max_x == COORD_ONE && r.max_y == COORD_ONE,
            r.offset is None && r.scale is None,
            r.wf(),
    {
        DataRange {
            min_x: 0,
            min_y: 0,
            max_x: COORD_ONE,
            max_y: COORD_ONE,
            offset: Option::None,
            scale: Option::None,
        }
    }
}

} // verus!
