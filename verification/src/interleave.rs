//! The Morton (Z-order) bijection as arithmetic on natural numbers.
//!
//! `interleave2` and `interleave3` weave the bits of two or three coordinates into
//! one index; `deinterleave2` and `deinterleave3` take an index apart again. The
//! proof functions of this module state that the two directions are inverse to each
//! other, for any number of bits per axis.

use vstd::prelude::*;
use vstd::arithmetic::power2::{pow2, lemma_pow2_unfold, lemma_pow2_pos, lemma2_to64};

verus! {

/// A coordinate of two axes, as the inverse of `interleave2` gives it.
pub struct Pair {
    pub x: nat,
    pub y: nat,
}

/// A coordinate of three axes, as the inverse of `interleave3` gives it.
pub struct Triple {
    pub x: nat,
    pub y: nat,
    pub z: nat,
}

/// Interleaving of the low `bits` bits of `x` and `y`: bit `i` of `x` becomes bit
/// `2 * i` of the result, bit `i` of `y` becomes bit `2 * i + 1`.
pub open spec fn interleave2(x: nat, y: nat, bits: nat) -> nat
    decreases bits,
{
    if bits == 0 {
        0
    } else {
        (x % 2) + 2 * (y % 2) + 4 * interleave2(x / 2, y / 2, (bits - 1) as nat)
    }
}

/// The coordinates whose low `bits` bits interleave to the low `2 * bits` bits of
/// `index`.
pub open spec fn deinterleave2(index: nat, bits: nat) -> Pair
    decreases bits,
{
    if bits == 0 {
        Pair { x: 0, y: 0 }
    } else {
        let rest = deinterleave2(index / 4, (bits - 1) as nat);
        Pair { x: index % 2 + 2 * rest.x, y: (index / 2) % 2 + 2 * rest.y }
    }
}

/// Interleaving of the low `bits` bits of `x`, `y` and `z`: bit `i` of `x` becomes
/// bit `3 * i` of the result, bit `i` of `y` bit `3 * i + 1`, bit `i` of `z` bit
/// `3 * i + 2`.
pub open spec fn interleave3(x: nat, y: nat, z: nat, bits: nat) -> nat
    decreases bits,
{
    if bits == 0 {
        0
    } else {
        (x % 2) + 2 * (y % 2) + 4 * (z % 2) + 8 * interleave3(
            x / 2,
            y / 2,
            z / 2,
            (bits - 1) as nat,
        )
    }
}

/// The coordinates whose low `bits` bits interleave to the low `3 * bits` bits of
/// `index`.
pub open spec fn deinterleave3(index: nat, bits: nat) -> Triple
    decreases bits,
{
    if bits == 0 {
        Triple { x: 0, y: 0, z: 0 }
    } else {
        let rest = deinterleave3(index / 8, (bits - 1) as nat);
        Triple {
            x: index % 2 + 2 * rest.x,
            y: (index / 2) % 2 + 2 * rest.y,
            z: (index / 4) % 2 + 2 * rest.z,
        }
    }
}

/// An interleaving of `bits` bits per axis fits in `2 * bits` bits.
pub proof fn lemma_interleave2_bound(x: nat, y: nat, bits: nat)
    ensures
        interleave2(x, y, bits) < pow2(2 * bits),
    decreases bits,
{
    if bits == 0 {
        lemma2_to64();
    } else {
        lemma_interleave2_bound(x / 2, y / 2, (bits - 1) as nat);
        lemma_pow2_unfold(2 * bits);
        lemma_pow2_unfold((2 * bits - 1) as nat);
    }
}

/// Bits above the lowest `bits` bits of a coordinate do not reach the index.
pub proof fn lemma_interleave2_spare_bits(x: nat, y: nat, bits: nat, more: nat)
    requires
        x < pow2(bits),
        y < pow2(bits),
    ensures
        interleave2(x, y, bits + more) == interleave2(x, y, bits),
    decreases bits + more,
{
    if bits == 0 {
        lemma2_to64();
        if more > 0 {
            lemma_interleave2_spare_bits(0, 0, 0, (more - 1) as nat);
        }
    } else {
        lemma_pow2_unfold(bits);
        lemma_interleave2_spare_bits(x / 2, y / 2, (bits - 1) as nat, more);
    }
}

/// Taking an interleaving apart gives the coordinates back.
pub proof fn lemma_deinterleave2_of_interleave2(x: nat, y: nat, bits: nat)
    requires
        x < pow2(bits),
        y < pow2(bits),
    ensures
        deinterleave2(interleave2(x, y, bits), bits) == (Pair { x, y }),
    decreases bits,
{
    if bits == 0 {
        lemma2_to64();
    } else {
        lemma_pow2_unfold(bits);
        let inner = interleave2(x / 2, y / 2, (bits - 1) as nat);
        let index = interleave2(x, y, bits);
        lemma_deinterleave2_of_interleave2(x / 2, y / 2, (bits - 1) as nat);
        assert(index == (x % 2) + 2 * (y % 2) + 4 * inner);
        assert(index / 4 == inner);
        assert(index % 2 == x % 2);
        assert((index / 2) % 2 == y % 2);
    }
}

/// The coordinates taken out of an index have `bits` bits each, and interleave
/// to the index again.
pub proof fn lemma_interleave2_of_deinterleave2(index: nat, bits: nat)
    requires
        index < pow2(2 * bits),
    ensures
        deinterleave2(index, bits).x < pow2(bits),
        deinterleave2(index, bits).y < pow2(bits),
        interleave2(deinterleave2(index, bits).x, deinterleave2(index, bits).y, bits) == index,
    decreases bits,
{
    if bits == 0 {
        lemma2_to64();
    } else {
        lemma_pow2_unfold(bits);
        lemma_pow2_unfold(2 * bits);
        lemma_pow2_unfold((2 * bits - 1) as nat);
        lemma_interleave2_of_deinterleave2(index / 4, (bits - 1) as nat);
        let rest = deinterleave2(index / 4, (bits - 1) as nat);
        let here = deinterleave2(index, bits);
        assert(here.x / 2 == rest.x && here.x % 2 == index % 2);
        assert(here.y / 2 == rest.y && here.y % 2 == (index / 2) % 2);
    }
}

/// Different coordinates have different indices.
pub proof fn lemma_interleave2_injective(x1: nat, y1: nat, x2: nat, y2: nat, bits: nat)
    requires
        x1 < pow2(bits),
        y1 < pow2(bits),
        x2 < pow2(bits),
        y2 < pow2(bits),
        interleave2(x1, y1, bits) == interleave2(x2, y2, bits),
    ensures
        x1 == x2,
        y1 == y2,
{
    lemma_deinterleave2_of_interleave2(x1, y1, bits);
    lemma_deinterleave2_of_interleave2(x2, y2, bits);
}

/// The index of `bits1 + bits2` bits per axis is made of the index of the low
/// `bits1` bits and, above it, the index of the next `bits2` bits.
pub proof fn lemma_interleave2_split(x: nat, y: nat, bits1: nat, bits2: nat)
    ensures
        interleave2(x, y, bits1 + bits2) == interleave2(x, y, bits1) + pow2(2 * bits1)
            * interleave2(x / pow2(bits1), y / pow2(bits1), bits2),
    decreases bits1,
{
    if bits1 == 0 {
        lemma2_to64();
        assert(x / pow2(0) == x && y / pow2(0) == y);
        assert(pow2(0) * interleave2(x, y, bits2) == interleave2(x, y, bits2));
    } else {
        let low = (bits1 - 1) as nat;
        lemma_interleave2_split(x / 2, y / 2, low, bits2);
        lemma_pow2_unfold(bits1);
        lemma_pow2_unfold(2 * bits1);
        lemma_pow2_unfold((2 * bits1 - 1) as nat);
        lemma_pow2_pos(low);
        vstd::arithmetic::div_mod::lemma_div_denominator(x as int, 2, pow2(low) as int);
        vstd::arithmetic::div_mod::lemma_div_denominator(y as int, 2, pow2(low) as int);
        assert(x / 2 / pow2(low) == x / pow2(bits1));
        assert(y / 2 / pow2(low) == y / pow2(bits1));
        let high = interleave2(x / pow2(bits1), y / pow2(bits1), bits2);
        assert(4 * (pow2(2 * low) * high) == pow2(2 * bits1) * high) by (nonlinear_arith)
            requires
                pow2(2 * bits1) == 4 * pow2(2 * low),
        ;
        assert(interleave2(x, y, bits1 + bits2) == (x % 2) + 2 * (y % 2) + 4 * interleave2(
            x / 2,
            y / 2,
            (low + bits2) as nat,
        ));
    }
}

/// An interleaving of `bits` bits per axis fits in `3 * bits` bits.
pub proof fn lemma_interleave3_bound(x: nat, y: nat, z: nat, bits: nat)
    ensures
        interleave3(x, y, z, bits) < pow2(3 * bits),
    decreases bits,
{
    if bits == 0 {
        lemma2_to64();
    } else {
        lemma_interleave3_bound(x / 2, y / 2, z / 2, (bits - 1) as nat);
        lemma_pow2_unfold(3 * bits);
        lemma_pow2_unfold((3 * bits - 1) as nat);
        lemma_pow2_unfold((3 * bits - 2) as nat);
    }
}

/// Bits above the lowest `bits` bits of a coordinate do not reach the index.
pub proof fn lemma_interleave3_spare_bits(x: nat, y: nat, z: nat, bits: nat, more: nat)
    requires
        x < pow2(bits),
        y < pow2(bits),
        z < pow2(bits),
    ensures
        interleave3(x, y, z, bits + more) == interleave3(x, y, z, bits),
    decreases bits + more,
{
    if bits == 0 {
        lemma2_to64();
        if more > 0 {
            lemma_interleave3_spare_bits(0, 0, 0, 0, (more - 1) as nat);
        }
    } else {
        lemma_pow2_unfold(bits);
        lemma_interleave3_spare_bits(x / 2, y / 2, z / 2, (bits - 1) as nat, more);
    }
}

/// Taking an interleaving apart gives the coordinates back.
pub proof fn lemma_deinterleave3_of_interleave3(x: nat, y: nat, z: nat, bits: nat)
    requires
        x < pow2(bits),
        y < pow2(bits),
        z < pow2(bits),
    ensures
        deinterleave3(interleave3(x, y, z, bits), bits) == (Triple { x, y, z }),
    decreases bits,
{
    if bits == 0 {
        lemma2_to64();
    } else {
        lemma_pow2_unfold(bits);
        let inner = interleave3(x / 2, y / 2, z / 2, (bits - 1) as nat);
        let index = interleave3(x, y, z, bits);
        lemma_deinterleave3_of_interleave3(x / 2, y / 2, z / 2, (bits - 1) as nat);
        lemma_three_bits(x % 2, y % 2, z % 2, inner);
        assert(deinterleave3(inner, (bits - 1) as nat) == (Triple {
            x: x / 2,
            y: y / 2,
            z: z / 2,
        }));
        assert(index == (x % 2) + 2 * (y % 2) + 4 * (z % 2) + 8 * inner);
    }
}

/// The three lowest bits of a number, and what is above them.
proof fn lemma_three_bits(a: nat, b: nat, c: nat, rest: nat)
    requires
        a < 2,
        b < 2,
        c < 2,
    ensures
        (a + 2 * b + 4 * c + 8 * rest) / 8 == rest,
        (a + 2 * b + 4 * c + 8 * rest) % 2 == a,
        ((a + 2 * b + 4 * c + 8 * rest) / 2) % 2 == b,
        ((a + 2 * b + 4 * c + 8 * rest) / 4) % 2 == c,
{
}

/// The coordinates taken out of an index have `bits` bits each, and interleave
/// to the index again.
pub proof fn lemma_interleave3_of_deinterleave3(index: nat, bits: nat)
    requires
        index < pow2(3 * bits),
    ensures
        deinterleave3(index, bits).x < pow2(bits),
        deinterleave3(index, bits).y < pow2(bits),
        deinterleave3(index, bits).z < pow2(bits),
        interleave3(
            deinterleave3(index, bits).x,
            deinterleave3(index, bits).y,
            deinterleave3(index, bits).z,
            bits,
        ) == index,
    decreases bits,
{
    if bits == 0 {
        lemma2_to64();
    } else {
        lemma_pow2_unfold(bits);
        lemma_pow2_unfold(3 * bits);
        lemma_pow2_unfold((3 * bits - 1) as nat);
        lemma_pow2_unfold((3 * bits - 2) as nat);
        lemma_interleave3_of_deinterleave3(index / 8, (bits - 1) as nat);
        let rest = deinterleave3(index / 8, (bits - 1) as nat);
        let here = deinterleave3(index, bits);
        assert(here.x / 2 == rest.x && here.x % 2 == index % 2);
        assert(here.y / 2 == rest.y && here.y % 2 == (index / 2) % 2);
        assert(here.z / 2 == rest.z && here.z % 2 == (index / 4) % 2);
    }
}

/// Different coordinates have different indices.
pub proof fn lemma_interleave3_injective(
    x1: nat,
    y1: nat,
    z1: nat,
    x2: nat,
    y2: nat,
    z2: nat,
    bits: nat,
)
    requires
        x1 < pow2(bits),
        y1 < pow2(bits),
        z1 < pow2(bits),
        x2 < pow2(bits),
        y2 < pow2(bits),
        z2 < pow2(bits),
        interleave3(x1, y1, z1, bits) == interleave3(x2, y2, z2, bits),
    ensures
        x1 == x2,
        y1 == y2,
        z1 == z2,
{
    lemma_deinterleave3_of_interleave3(x1, y1, z1, bits);
    lemma_deinterleave3_of_interleave3(x2, y2, z2, bits);
}

/// The index of `bits1 + bits2` bits per axis is made of the index of the low
/// `bits1` bits and, above it, the index of the next `bits2` bits.
pub proof fn lemma_interleave3_split(x: nat, y: nat, z: nat, bits1: nat, bits2: nat)
    ensures
        interleave3(x, y, z, bits1 + bits2) == interleave3(x, y, z, bits1) + pow2(3 * bits1)
            * interleave3(x / pow2(bits1), y / pow2(bits1), z / pow2(bits1), bits2),
    decreases bits1,
{
    if bits1 == 0 {
        lemma2_to64();
        assert(x / pow2(0) == x && y / pow2(0) == y && z / pow2(0) == z);
        assert(pow2(0) * interleave3(x, y, z, bits2) == interleave3(x, y, z, bits2));
    } else {
        let low = (bits1 - 1) as nat;
        lemma_interleave3_split(x / 2, y / 2, z / 2, low, bits2);
        lemma_pow2_unfold(bits1);
        lemma_pow2_unfold(3 * bits1);
        lemma_pow2_unfold((3 * bits1 - 1) as nat);
        lemma_pow2_unfold((3 * bits1 - 2) as nat);
        lemma_pow2_pos(low);
        vstd::arithmetic::div_mod::lemma_div_denominator(x as int, 2, pow2(low) as int);
        vstd::arithmetic::div_mod::lemma_div_denominator(y as int, 2, pow2(low) as int);
        vstd::arithmetic::div_mod::lemma_div_denominator(z as int, 2, pow2(low) as int);
        assert(x / 2 / pow2(low) == x / pow2(bits1));
        assert(y / 2 / pow2(low) == y / pow2(bits1));
        assert(z / 2 / pow2(low) == z / pow2(bits1));
        let high = interleave3(x / pow2(bits1), y / pow2(bits1), z / pow2(bits1), bits2);
        assert(8 * (pow2(3 * low) * high) == pow2(3 * bits1) * high) by (nonlinear_arith)
            requires
                pow2(3 * bits1) == 8 * pow2(3 * low),
        ;
        assert(interleave3(x, y, z, bits1 + bits2) == (x % 2) + 2 * (y % 2) + 4 * (z % 2) + 8
            * interleave3(x / 2, y / 2, z / 2, (low + bits2) as nat));
    }
}

/// Twice a remainder, and the lowest bit: the remainder by twice the modulus.
proof fn lemma_mod_double(x: nat, m: nat)
    requires
        m > 0,
    ensures
        x % (2 * m) == 2 * ((x / 2) % m) + x % 2,
{
    let q = x / 2;
    let b = x % 2;
    let d = q / m;
    let qm = q % m;
    let r = 2 * qm + b;
    assert(q == m * d + qm && qm < m) by {
        vstd::arithmetic::div_mod::lemma_fundamental_div_mod(q as int, m as int);
        vstd::arithmetic::div_mod::lemma_mod_bound(q as int, m as int);
    }
    assert(x == d * (2 * m) + r) by (nonlinear_arith)
        requires
            x == 2 * q + b,
            q == m * d + qm,
            r == 2 * qm + b,
    ;
    vstd::arithmetic::div_mod::lemma_fundamental_div_mod_converse(
        x as int,
        (2 * m) as int,
        d as int,
        r as int,
    );
}

/// Only the lowest `bits` bits of each coordinate reach the index.
pub proof fn lemma_interleave2_low_bits(x: nat, y: nat, bits: nat)
    ensures
        interleave2(x, y, bits) == interleave2(x % pow2(bits), y % pow2(bits), bits),
    decreases bits,
{
    if bits > 0 {
        let low = (bits - 1) as nat;
        lemma_pow2_unfold(bits);
        lemma_pow2_pos(low);
        lemma_mod_double(x, pow2(low));
        lemma_mod_double(y, pow2(low));
        lemma_interleave2_low_bits(x / 2, y / 2, low);
        let xl = x % pow2(bits);
        let yl = y % pow2(bits);
        assert(xl % 2 == x % 2 && xl / 2 == (x / 2) % pow2(low));
        assert(yl % 2 == y % 2 && yl / 2 == (y / 2) % pow2(low));
        assert(interleave2(xl, yl, bits) == (xl % 2) + 2 * (yl % 2) + 4 * interleave2(
            xl / 2,
            yl / 2,
            low,
        ));
        assert(interleave2(x, y, bits) == (x % 2) + 2 * (y % 2) + 4 * interleave2(
            x / 2,
            y / 2,
            low,
        ));
    } else {
        lemma2_to64();
    }
}

/// Only the lowest `bits` bits of each coordinate reach the index.
pub proof fn lemma_interleave3_low_bits(x: nat, y: nat, z: nat, bits: nat)
    ensures
        interleave3(x, y, z, bits) == interleave3(
            x % pow2(bits),
            y % pow2(bits),
            z % pow2(bits),
            bits,
        ),
    decreases bits,
{
    if bits > 0 {
        let low = (bits - 1) as nat;
        lemma_pow2_unfold(bits);
        lemma_pow2_pos(low);
        lemma_mod_double(x, pow2(low));
        lemma_mod_double(y, pow2(low));
        lemma_mod_double(z, pow2(low));
        lemma_interleave3_low_bits(x / 2, y / 2, z / 2, low);
        let xl = x % pow2(bits);
        let yl = y % pow2(bits);
        let zl = z % pow2(bits);
        assert(xl % 2 == x % 2 && xl / 2 == (x / 2) % pow2(low));
        assert(yl % 2 == y % 2 && yl / 2 == (y / 2) % pow2(low));
        assert(zl % 2 == z % 2 && zl / 2 == (z / 2) % pow2(low));
        assert(interleave3(xl, yl, zl, bits) == (xl % 2) + 2 * (yl % 2) + 4 * (zl % 2) + 8
            * interleave3(xl / 2, yl / 2, zl / 2, low));
        assert(interleave3(x, y, z, bits) == (x % 2) + 2 * (y % 2) + 4 * (z % 2) + 8
            * interleave3(x / 2, y / 2, z / 2, low));
    } else {
        lemma2_to64();
    }
}

/// Only the lowest `2 * bits` bits of an index reach its coordinates, which have
/// `bits` bits each.
pub proof fn lemma_deinterleave2_low_bits(index: nat, bits: nat)
    ensures
        deinterleave2(index, bits) == deinterleave2(index % pow2(2 * bits), bits),
        deinterleave2(index, bits).x < pow2(bits),
        deinterleave2(index, bits).y < pow2(bits),
    decreases bits,
{
    if bits > 0 {
        let low = (bits - 1) as nat;
        let m = pow2(2 * low);
        lemma_pow2_unfold(bits);
        lemma_pow2_unfold(2 * bits);
        lemma_pow2_unfold((2 * bits - 1) as nat);
        lemma_pow2_pos(2 * low);
        lemma_mod_double(index, 2 * m);
        lemma_mod_double(index / 2, m);
        lemma_deinterleave2_low_bits(index / 4, low);
        let il = index % pow2(2 * bits);
        assert(il == 4 * ((index / 4) % m) + 2 * ((index / 2) % 2) + index % 2);
        assert(il / 4 == (index / 4) % m && il % 2 == index % 2 && (il / 2) % 2 == (index / 2)
            % 2);
        assert(deinterleave2(il, bits).x == il % 2 + 2 * deinterleave2(il / 4, low).x);
        assert(deinterleave2(il, bits).y == (il / 2) % 2 + 2 * deinterleave2(il / 4, low).y);
    } else {
        lemma2_to64();
    }
}

/// Only the lowest `3 * bits` bits of an index reach its coordinates, which have
/// `bits` bits each.
pub proof fn lemma_deinterleave3_low_bits(index: nat, bits: nat)
    ensures
        deinterleave3(index, bits) == deinterleave3(index % pow2(3 * bits), bits),
        deinterleave3(index, bits).x < pow2(bits),
        deinterleave3(index, bits).y < pow2(bits),
        deinterleave3(index, bits).z < pow2(bits),
    decreases bits,
{
    if bits > 0 {
        let low = (bits - 1) as nat;
        let m = pow2(3 * low);
        lemma_pow2_unfold(bits);
        lemma_pow2_unfold(3 * bits);
        lemma_pow2_unfold((3 * bits - 1) as nat);
        lemma_pow2_unfold((3 * bits - 2) as nat);
        lemma_pow2_pos(3 * low);
        lemma_mod_double(index, 4 * m);
        lemma_mod_double(index / 2, 2 * m);
        lemma_mod_double(index / 4, m);
        lemma_deinterleave3_low_bits(index / 8, low);
        let il = index % pow2(3 * bits);
        assert(il == 8 * ((index / 8) % m) + 4 * ((index / 4) % 2) + 2 * ((index / 2) % 2) + index
            % 2);
        assert(il / 8 == (index / 8) % m && il % 2 == index % 2 && (il / 2) % 2 == (index / 2) % 2
            && (il / 4) % 2 == (index / 4) % 2);
        assert(deinterleave3(il, bits).x == il % 2 + 2 * deinterleave3(il / 8, low).x);
        assert(deinterleave3(il, bits).y == (il / 2) % 2 + 2 * deinterleave3(il / 8, low).y);
        assert(deinterleave3(il, bits).z == (il / 4) % 2 + 2 * deinterleave3(il / 8, low).z);
    } else {
        lemma2_to64();
    }
}

} // verus!
