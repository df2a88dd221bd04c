//! Coordinate wrapping into a configured bounding box.
//!
//! Coordinates are carried as micro-degrees (one millionth of a degree) in
//! signed 64-bit integers.  A bounding box reorders each pair on
//! construction and rejects empty ranges; wrapping maps a value into
//! `[min, max)` by Euclidean modulo.

use vstd::arithmetic::div_mod::{
    lemma_fundamental_div_mod, lemma_mod_division_less_than_divisor, lemma_mod_multiples_vanish,
    lemma_small_mod,
};
use vstd::prelude::*;

verus! {

/// `min + ((v - min) mod (max - min))`: the wrapped coordinate.  The spec
/// `%` on `int` is already Euclidean for a positive divisor.
pub open spec fn wrap_spec(v: int, lo: int, hi: int) -> int {
    lo + (v - lo) % (hi - lo)
}

/// Euclidean remainder of `v` by `m`: the value in `[0, m)` congruent to
/// `v` modulo `m`.
fn euclid_mod_i128(v: i128, m: i128) -> (r: i128)
    requires
        0 < m,
        -0x4000_0000_0000_0000_0000_0000_0000_0000 < v,
    ensures
        r == (v as int) % (m as int),
{
    if v >= 0 {
        let r = v % m;
        proof {
            lemma_mod_division_less_than_divisor(v as int, m as int);
        }
        r
    } else {
        let w = -(v + 1);
        let rr = w % m;
        proof {
            lemma_mod_division_less_than_divisor(w as int, m as int);
        }
        let r = m - 1 - rr;
        proof {
            let wi = w as int;
            let mi = m as int;
            let q = wi / mi;
            lemma_fundamental_div_mod(wi, mi);
            assert(v == -(mi * q + rr) - 1);
            assert(v == mi * (-q - 1) + (mi - 1 - rr)) by (nonlinear_arith)
                requires
                    v == -(mi * q + rr as int) - 1,
            ;
            lemma_mod_multiples_vanish(-q - 1, mi - 1 - rr, mi);
            lemma_mod_division_less_than_divisor(mi - 1 - rr, mi);
            assert((mi - 1 - rr) % mi == mi - 1 - rr) by {
                assert(0 <= mi - 1 - rr < mi);
                lemma_small_mod((mi - 1 - rr) as nat, mi as nat);
            }
        }
        r
    }
}

/// Errors in setting up a bounding box.
#[derive(Debug, Clone, Copy, PartialEq, Eq, Structural)]
pub enum BoxCoordsError {
    /// The two latitudes were equal, so the range is empty.
    EmptyLatitudeRange,
    /// The two longitudes were equal, so the range is empty.
    EmptyLongitudeRange,
}

/// A bounding box in micro-degrees; each pair is kept as `(min, max)` with
/// a nonempty range.
#[derive(Debug, Clone, Copy)]
pub struct BoxCoords {
    pub lat1: i64,
    pub lng1: i64,
    pub lat2: i64,
    pub lng2: i64,
}

impl BoxCoords {
    /// The ranges are nonempty and ordered.
    pub open spec fn wf(self) -> bool {
        self.lat1 < self.lat2 && self.lng1 < self.lng2
    }

    /// Reorder each pair so it runs `(min, max)`; reject an empty range.
    pub fn new(lat1: i64, lng1: i64, lat2: i64, lng2: i64) -> (r: Result<BoxCoords, BoxCoordsError>)
        ensures
            r matches Ok(b) ==> {
                &&& b.wf()
                &&& b.lat1 == if lat1 < lat2 { lat1 } else { lat2 }
                &&& b.lat2 == if lat1 < lat2 { lat2 } else { lat1 }
                &&& b.lng1 == if lng1 < lng2 { lng1 } else { lng2 }
                &&& b.lng2 == if lng1 < lng2 { lng2 } else { lng1 }
            },
            r == Result::<BoxCoords, BoxCoordsError>::Err(BoxCoordsError::EmptyLatitudeRange)
                <==> lat1 == lat2,
            r == Result::<BoxCoords, BoxCoordsError>::Err(BoxCoordsError::EmptyLongitudeRange)
                <==> (lat1 != lat2 && lng1 == lng2),
    {
        if lat1 == lat2 {
            return Err(BoxCoordsError::EmptyLatitudeRange);
        }
        if lng1 == lng2 {
            return Err(BoxCoordsError::EmptyLongitudeRange);
        }
        let (lat_min, lat_max) = if lat1 < lat2 {
            (lat1, lat2)
        } else {
            (lat2, lat1)
        };
        let (lng_min, lng_max) = if lng1 < lng2 {
            (lng1, lng2)
        } else {
            (lng2, lng1)
        };
        Ok(BoxCoords { lat1: lat_min, lng1: lng_min, lat2: lat_max, lng2: lng_max })
    }

    /// Wrap a latitude into `[lat1, lat2)`.
    pub fn wrap_latitude(&self, lat: i64) -> (r: i64)
        requires
            self.wf(),
        ensures
            r == wrap_spec(lat as int, self.lat1 as int, self.lat2 as int),
            self.lat1 <= r < self.lat2,
    {
        Self::wrap_coordinate(lat, self.lat1, self.lat2)
    }

    /// Wrap a longitude into `[lng1, lng2)`.
    pub fn wrap_longitude(&self, lng: i64) -> (r: i64)
        requires
            self.wf(),
        ensures
            r == wrap_spec(lng as int, self.lng1 as int, self.lng2 as int),
            self.lng1 <= r < self.lng2,
    {
        Self::wrap_coordinate(lng, self.lng1, self.lng2)
    }

    fn wrap_coordinate(value: i64, min: i64, max: i64) -> (r: i64)
        requires
            min < max,
        ensures
            r == wrap_spec(value as int, min as int, max as int),
            min <= r < max,
    {
        let d = value as i128 - min as i128;
        let m = max as i128 - min as i128;
        let e = euclid_mod_i128(d, m);
        proof {
            lemma_mod_division_less_than_divisor(d as int, m as int);
        }
        (min as i128 + e) as i64
    }
}

/// Wrapping is idempotent: a value already in `[lo, hi)` wraps to itself,
/// so wrapping twice equals wrapping once.
pub proof fn lemma_wrap_idempotent(v: int, lo: int, hi: int)
    requires
        lo < hi,
    ensures
        wrap_spec(wrap_spec(v, lo, hi), lo, hi) == wrap_spec(v, lo, hi),
{
    let m = hi - lo;
    let w = (v - lo) % m;
    lemma_mod_division_less_than_divisor(v - lo, m);
    lemma_small_mod(w as nat, m as nat);
    assert(w % m == w);
}

} // verus!
