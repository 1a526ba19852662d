//! The integer key of a cell. A hash table of the standard library is
//! modelled for integer keys, so a cell is stored under one `u128` that packs
//! its two coordinates.

use vstd::prelude::*;
use crate::cell::{point, representable, Coord, Point};

verus! {

/// Added to a coordinate to make it non-negative: 2^63.
pub const BIAS: u128 = 0x8000_0000_0000_0000;

/// The number of values of one coordinate: 2^64.
pub const SPAN: u128 = 0x1_0000_0000_0000_0000;

/// The key of a representable point: its biased `x` in the high half and its
/// biased `y` in the low half.
pub open spec fn key_of(p: Point) -> u128 {
    ((p.0 + BIAS) * SPAN + (p.1 + BIAS)) as u128
}

/// The point that a key stands for.
pub open spec fn point_of(k: u128) -> Point {
    (k / SPAN - BIAS, k % SPAN - BIAS)
}

/// Keys and representable points correspond one to one.
pub proof fn lemma_key_bijection()
    ensures
        forall|k: u128| #![trigger point_of(k)] representable(point_of(k)) && key_of(point_of(k)) == k,
        forall|p: Point| #![trigger key_of(p)] representable(p) ==> point_of(key_of(p)) == p,
{
    assert forall|k: u128| #![trigger point_of(k)] representable(point_of(k)) && key_of(point_of(k)) == k by {
        lemma_point_of_key(k);
    }
    assert forall|p: Point| #![trigger key_of(p)] representable(p) implies point_of(key_of(p)) == p by {
        lemma_key_of_point(p);
    }
}

proof fn lemma_point_of_key(k: u128)
    ensures
        representable(point_of(k)),
        key_of(point_of(k)) == k,
{
    let s: int = SPAN as int;
    let q: int = k as int / s;
    let r: int = k as int % s;
    assert(k as int == q * s + r && 0 <= r < s) by {
        vstd::arithmetic::div_mod::lemma_fundamental_div_mod(k as int, s);
        vstd::arithmetic::div_mod::lemma_mod_bound(k as int, s);
        assert(q * s == s * q) by (nonlinear_arith);
    }
    assert(0 <= q < s) by (nonlinear_arith)
        requires
            k as int == q * s + r,
            0 <= r < s,
            0 <= k as int,
            (k as int) < s * s,
            s > 0,
    ;
}

proof fn lemma_key_of_point(p: Point)
    requires
        representable(p),
    ensures
        point_of(key_of(p)) == p,
{
    let s: int = SPAN as int;
    let a: int = p.0 + BIAS;
    let b: int = p.1 + BIAS;
    assert(0 <= a * s + b < s * s) by (nonlinear_arith)
        requires
            0 <= a < s,
            0 <= b < s,
    ;
    vstd::arithmetic::div_mod::lemma_fundamental_div_mod_converse(a * s + b, s, a, b);
}

/// Packs a coordinate into its key.
pub fn pack(c: Coord) -> (k: u128)
    ensures
        k == key_of(point(c)),
{
    let x: u128 = (c.0 as i128 + 0x8000_0000_0000_0000i128) as u128;
    let y: u128 = (c.1 as i128 + 0x8000_0000_0000_0000i128) as u128;
    x * SPAN + y
}

/// Recovers the coordinate that a key was packed from.
pub fn unpack(k: u128) -> (c: Coord)
    ensures
        point(c) == point_of(k),
{
    proof {
        lemma_point_of_key(k);
    }
    let x: u128 = k / SPAN;
    let y: u128 = k % SPAN;
    ((x as i128 - 0x8000_0000_0000_0000i128) as i64, (y as i128 - 0x8000_0000_0000_0000i128) as i64)
}

} // verus!
