//! Arithmetic on one axis: how many blocks cover an extent, and how a signed
//! coordinate wraps around it.

use vstd::prelude::*;

verus! {

/// Number of blocks of eight cells that cover `extent` cells.
#[verifier::inline]
pub open spec fn blocks(extent: nat) -> nat {
    (extent + 7) / 8
}

/// The coordinate in `[0, extent)` that `coord` tiles to.
pub open spec fn wrap(coord: int, extent: int) -> int
    recommends
        extent > 0,
{
    coord % extent
}

/// Some coordinate of `[lo, hi)` wraps to `c` on an axis of `extent` cells.
pub open spec fn wraps_into(lo: int, hi: int, extent: int, c: int) -> bool {
    exists|k: int| lo <= k < hi && #[trigger] wrap(k, extent) == c
}

/// Number of blocks of eight cells that cover `extent` cells; none for an empty axis.
pub fn block_count(extent: usize) -> (r: usize)
    ensures
        r == blocks(extent as nat),
{
    if extent == 0 {
        0
    } else {
        let last: usize = extent - 1;
        assert(last >> 3 == last / 8) by (bit_vector);
        (last >> 3) + 1
    }
}

/// Wraps a signed coordinate around an axis of `extent` cells.
pub fn wrap_coord(coord: isize, extent: usize) -> (r: usize)
    requires
        extent > 0,
    ensures
        r == wrap(coord as int, extent as int),
        r < extent,
{
    if coord >= 0 {
        (coord as usize) % extent
    } else {
        let below: usize = (-(coord + 1)) as usize;
        let back: usize = below % extent;
        proof {
            lemma_wrap_negative(coord as int, extent as int);
        }
        extent - 1 - back
    }
}

/// A negative coordinate counted back from the far end of the axis.
proof fn lemma_wrap_negative(coord: int, extent: int)
    requires
        coord < 0,
        extent > 0,
    ensures
        coord % extent == extent - 1 - ((-(coord + 1)) % extent),
{
    let below = -(coord + 1);
    let q = below / extent;
    let back = below % extent;
    vstd::arithmetic::div_mod::lemma_fundamental_div_mod(below, extent);
    vstd::arithmetic::div_mod::lemma_mod_bound(below, extent);
    let r = extent - 1 - back;
    assert(coord == (-q - 1) * extent + r) by (nonlinear_arith)
        requires
            below == extent * q + back,
            below == -(coord + 1),
            r == extent - 1 - back,
    ;
    vstd::arithmetic::div_mod::lemma_fundamental_div_mod_converse(coord, extent, -q - 1, r);
}

/// Wrapping has the extent as its period: a coordinate moved by any number of
/// whole extents, forward or back, wraps to the same cell.
pub proof fn lemma_wrap_periodic(coord: int, extent: int, k: int)
    requires
        extent > 0,
    ensures
        wrap(coord + k * extent, extent) == wrap(coord, extent),
        0 <= wrap(coord, extent) < extent,
{
    vstd::arithmetic::div_mod::lemma_mod_multiples_vanish(k, coord, extent);
    vstd::arithmetic::div_mod::lemma_mod_bound(coord, extent);
    assert(extent * k + coord == coord + k * extent) by (nonlinear_arith);
}

/// The remainder of a division that rounds towards zero, as the machine's `%`
/// gives it: it has the sign of `coord`.
pub open spec fn truncated_rem(coord: int, extent: int) -> int
    recommends
        extent > 0,
{
    if coord >= 0 {
        coord % extent
    } else {
        -((-coord) % extent)
    }
}

/// Wrapping is the machine's remainder moved into `[0, extent)`: the extent is
/// added to the remainder, and the remainder of that sum is taken.
pub proof fn lemma_wrap_normalizes_remainder(coord: int, extent: int)
    requires
        extent > 0,
    ensures
        wrap(coord, extent) == (extent + truncated_rem(coord, extent)) % extent,
{
    let r = truncated_rem(coord, extent);
    if coord >= 0 {
        vstd::arithmetic::div_mod::lemma_mod_bound(coord, extent);
        lemma_wrap_periodic(r, extent, 1);
        vstd::arithmetic::div_mod::lemma_small_mod(r as nat, extent as nat);
        assert(r + 1 * extent == extent + r);
    } else {
        let q = (-coord) / extent;
        let m = (-coord) % extent;
        vstd::arithmetic::div_mod::lemma_fundamental_div_mod(-coord, extent);
        vstd::arithmetic::div_mod::lemma_mod_bound(-coord, extent);
        assert(coord == (-q) * extent + (-m)) by (nonlinear_arith)
            requires
                -coord == extent * q + m,
        ;
        lemma_wrap_periodic(-m, extent, -q);
        assert(-m + (-q) * extent == coord);
        lemma_wrap_periodic(-m, extent, 1);
        assert(-m + 1 * extent == extent + r);
    }
}

/// A coordinate inside the axis wraps to itself.
pub proof fn lemma_wrap_inside(coord: int, extent: int)
    requires
        0 <= coord < extent,
    ensures
        wrap(coord, extent) == coord,
{
    vstd::arithmetic::div_mod::lemma_small_mod(coord as nat, extent as nat);
}

/// The coordinates of `[lo, hi + 1)` wrap to what those of `[lo, hi)` wrap to, and
/// to what `hi` wraps to.
pub proof fn lemma_wraps_into_next(lo: int, hi: int, extent: int, c: int)
    requires
        lo <= hi,
    ensures
        wraps_into(lo, hi + 1, extent, c) <==> (wraps_into(lo, hi, extent, c) || wrap(hi, extent)
            == c),
{
    if wraps_into(lo, hi + 1, extent, c) {
        let k = choose|k: int| lo <= k < hi + 1 && #[trigger] wrap(k, extent) == c;
        if k < hi {
            assert(wraps_into(lo, hi, extent, c));
        }
    }
    if wraps_into(lo, hi, extent, c) {
        let k = choose|k: int| lo <= k < hi && #[trigger] wrap(k, extent) == c;
        assert(lo <= k < hi + 1 && wrap(k, extent) == c);
    }
    if wrap(hi, extent) == c {
        assert(lo <= hi < hi + 1 && wrap(hi, extent) == c);
    }
}

} // verus!
