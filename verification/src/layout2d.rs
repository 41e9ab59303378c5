//! Where the cells of a two-dimensional array are stored: the block of a cell, its
//! place inside the block, and the order in which the storage places are walked.

use vstd::prelude::*;
use vstd::arithmetic::power2::lemma2_to64;
use crate::extent::blocks;
use crate::interleave::{
    Pair, interleave2, deinterleave2, lemma_interleave2_spare_bits, lemma_interleave2_bound,
    lemma_interleave2_injective, lemma_deinterleave2_of_interleave2,
    lemma_interleave2_of_deinterleave2,
};

verus! {

/// The place inside its block of the cell at `(x, y)`: the Z-curve index of the
/// lower three bits of each coordinate.
pub open spec fn block_slot(x: nat, y: nat) -> nat {
    interleave2(x % 8, y % 8, 3)
}

/// The block that holds the cell at `(x, y)`, in a grid `pwidth` blocks wide.
pub open spec fn block_of(x: nat, y: nat, pwidth: nat) -> nat {
    x / 8 + (y / 8) * pwidth
}

/// The blocks of a grid of `width` by `height` cells can be counted in a `usize`,
/// as they can for every grid of up to 65535 cells along each axis.
pub open spec fn block_count_fits(width: nat, height: nat) -> bool {
    (width <= 0xFFFF && height <= 0xFFFF) || blocks(width) * blocks(height) <= usize::MAX
}

/// The storage place of the cell at `(x, y)`, for a grid `pwidth` blocks wide.
pub open spec fn slot_of(x: nat, y: nat, pwidth: nat) -> nat {
    64 * block_of(x, y, pwidth) + block_slot(x, y)
}

/// The coordinates of the cell in storage place `slot`, for a grid `pwidth` blocks
/// wide: place `64 * b + i` is place `i` of block `b`.
pub open spec fn slot_coord(slot: nat, pwidth: nat) -> (usize, usize) {
    let block = slot / 64;
    let local = deinterleave2(slot % 64, 3);
    ((8 * (block % pwidth) + local.x) as usize, (8 * (block / pwidth) + local.y) as usize)
}

/// The number of storage places of a grid of `width` by `height` cells: 64 in
/// each of its blocks.
pub open spec fn slot_count(width: nat, height: nat) -> nat {
    64 * (blocks(width) * blocks(height))
}

/// The cell of storage place `slot` lies inside a grid of `width` by `height`
/// cells. The places of a block at the far edges may lie outside.
pub open spec fn slot_in_grid(slot: nat, width: nat, height: nat) -> bool {
    let block = slot / 64;
    let local = deinterleave2(slot % 64, 3);
    8 * (block % blocks(width)) + local.x < width && 8 * (block / blocks(width)) + local.y < height
}

/// The coordinates of the cells of a grid of `width` by `height` cells from
/// storage place `slot` on: block after block, and inside a block in Z-order,
/// without the places that lie outside the grid.
pub open spec fn traversal_from(width: nat, height: nat, slot: nat) -> Seq<(usize, usize)>
    decreases slot_count(width, height) - slot,
{
    if slot >= slot_count(width, height) {
        Seq::empty()
    } else {
        let rest = traversal_from(width, height, slot + 1);
        if slot_in_grid(slot, width, height) {
            seq![slot_coord(slot, blocks(width))] + rest
        } else {
            rest
        }
    }
}

/// The coordinates of all cells of a grid of `width` by `height` cells, in the
/// order of their storage places.
pub open spec fn traversal(width: nat, height: nat) -> Seq<(usize, usize)> {
    traversal_from(width, height, 0)
}

/// The coordinates of the cells of a grid of `width` by `height` cells.
pub open spec fn grid_cells(width: nat, height: nat) -> Set<(usize, usize)> {
    Set::new(|c: (usize, usize)| c.0 < width && c.1 < height)
}

/// The number of blocks of a grid whose blocks can be counted.
pub proof fn lemma_block_count_fits(width: nat, height: nat)
    requires
        block_count_fits(width, height),
    ensures
        blocks(width) * blocks(height) <= usize::MAX,
{
    if width <= 0xFFFF && height <= 0xFFFF {
        assert(blocks(width) * blocks(height) <= 0x2000 * 0x2000) by (nonlinear_arith)
            requires
                blocks(width) <= 0x2000,
                blocks(height) <= 0x2000,
        ;
    }
}

/// A cell of a grid lies in one of the blocks that cover the grid.
pub proof fn lemma_block_of_bound(x: nat, y: nat, width: nat, height: nat)
    requires
        x < width,
        y < height,
    ensures
        block_of(x, y, blocks(width)) < blocks(width) * blocks(height),
        x / 8 < blocks(width),
        y / 8 < blocks(height),
{
    let pw = blocks(width);
    let ph = blocks(height);
    assert(x / 8 + (y / 8) * pw < pw * ph) by (nonlinear_arith)
        requires
            x / 8 < pw,
            y / 8 < ph,
    ;
}

/// A place inside a block is one of its 64.
pub proof fn lemma_block_slot_bound(x: nat, y: nat)
    ensures
        block_slot(x, y) < 64,
{
    lemma2_to64();
    lemma_interleave2_bound(x % 8, y % 8, 3);
}

/// Different cells of a grid lie in different blocks or at different places of
/// one block.
pub proof fn lemma_cell_places_differ(x1: nat, y1: nat, x2: nat, y2: nat, width: nat)
    requires
        x1 < width,
        x2 < width,
        block_of(x1, y1, blocks(width)) == block_of(x2, y2, blocks(width)),
        block_slot(x1, y1) == block_slot(x2, y2),
    ensures
        x1 == x2,
        y1 == y2,
{
    let pw = blocks(width);
    lemma2_to64();
    lemma_interleave2_injective(x1 % 8, y1 % 8, x2 % 8, y2 % 8, 3);
    assert(x1 / 8 == x2 / 8 && y1 / 8 == y2 / 8) by (nonlinear_arith)
        requires
            x1 / 8 < pw,
            x2 / 8 < pw,
            x1 / 8 + (y1 / 8) * pw == x2 / 8 + (y2 / 8) * pw,
    ;
}

/// The cells of a block of the grid have coordinates below the padded size.
pub proof fn lemma_padded_block(block: nat, pwidth: nat, pheight: nat)
    requires
        block < pwidth * pheight,
    ensures
        pwidth > 0,
        block % pwidth < pwidth,
        block / pwidth < pheight,
{
    assert(pwidth > 0) by (nonlinear_arith)
        requires
            block < pwidth * pheight,
    ;
    vstd::arithmetic::div_mod::lemma_fundamental_div_mod(block as int, pwidth as int);
    vstd::arithmetic::div_mod::lemma_mod_bound(block as int, pwidth as int);
    assert(block / pwidth < pheight) by (nonlinear_arith)
        requires
            block < pwidth * pheight,
            pwidth > 0,
            block == pwidth * (block / pwidth) + block % pwidth,
            block % pwidth >= 0,
            block / pwidth >= 0,
    ;
}

/// A block of the grid starts inside the grid, on both axes.
pub proof fn lemma_block_grid(block: nat, width: nat, height: nat)
    requires
        block < blocks(width) * blocks(height),
    ensures
        blocks(width) > 0,
        8 * (block % blocks(width)) < width,
        8 * (block / blocks(width)) < height,
{
    let pw = blocks(width);
    let ph = blocks(height);
    assert(pw > 0) by (nonlinear_arith)
        requires
            block < pw * ph,
    ;
    vstd::arithmetic::div_mod::lemma_fundamental_div_mod(block as int, pw as int);
    vstd::arithmetic::div_mod::lemma_mod_bound(block as int, pw as int);
    assert(block / pw < ph) by (nonlinear_arith)
        requires
            block < pw * ph,
            pw > 0,
            block == pw * (block / pw) + block % pw,
            block % pw >= 0,
            block / pw >= 0,
    ;
}

/// The first storage place of a grid that is not empty holds the cell at the
/// origin.
pub proof fn lemma_first_slot(width: nat, height: nat)
    requires
        width > 0,
        height > 0,
    ensures
        slot_in_grid(0, width, height),
        slot_coord(0, blocks(width)) == (0usize, 0usize),
        block_of(0, 0, blocks(width)) == 0,
        block_slot(0, 0) == 0,
{
    reveal_with_fuel(deinterleave2, 4);
    reveal_with_fuel(interleave2, 4);
}

/// The cell of a grid is the cell of its storage place.
pub proof fn lemma_slot_coord_of_slot_of(x: nat, y: nat, width: nat)
    requires
        x < width,
        x <= usize::MAX,
        y <= usize::MAX,
    ensures
        slot_coord(slot_of(x, y, blocks(width)), blocks(width)) == (x as usize, y as usize),
        slot_of(x, y, blocks(width)) / 64 == block_of(x, y, blocks(width)),
        slot_of(x, y, blocks(width)) % 64 == block_slot(x, y),
{
    let pw = blocks(width);
    let block = block_of(x, y, pw);
    let local = block_slot(x, y);
    let slot = slot_of(x, y, pw);
    lemma_block_slot_coords(x, y);
    lemma_block_parts(x / 8, y / 8, pw);
    assert(slot == 64 * block + local);
    assert(slot / 64 == block && slot % 64 == local);
    assert(8 * (x / 8) + x % 8 == x && 8 * (y / 8) + y % 8 == y);
}

/// The place of a cell inside its block gives the lower three bits of the
/// cell's coordinates back.
pub proof fn lemma_block_slot_coords(x: nat, y: nat)
    ensures
        block_slot(x, y) < 64,
        deinterleave2(block_slot(x, y), 3) == (Pair { x: x % 8, y: y % 8 }),
{
    lemma2_to64();
    lemma_interleave2_bound(x % 8, y % 8, 3);
    lemma_deinterleave2_of_interleave2(x % 8, y % 8, 3);
}

/// A block made of its two block coordinates gives them back by division.
pub proof fn lemma_block_parts(bx: nat, by: nat, pwidth: nat)
    requires
        bx < pwidth,
    ensures
        (bx + by * pwidth) % pwidth == bx,
        (bx + by * pwidth) / pwidth == by,
{
    vstd::arithmetic::div_mod::lemma_fundamental_div_mod_converse(
        (bx + by * pwidth) as int,
        pwidth as int,
        by as int,
        bx as int,
    );
}

/// A storage place inside the grid is the storage place of its cell.
pub proof fn lemma_slot_of_slot_coord(slot: nat, width: nat, height: nat)
    requires
        slot_in_grid(slot, width, height),
        width <= usize::MAX,
        height <= usize::MAX,
        blocks(width) > 0,
    ensures
        slot_coord(slot, blocks(width)).0 < width,
        slot_coord(slot, blocks(width)).1 < height,
        slot_of(
            slot_coord(slot, blocks(width)).0 as nat,
            slot_coord(slot, blocks(width)).1 as nat,
            blocks(width),
        ) == slot,
{
    let pw = blocks(width);
    let block = slot / 64;
    let local = deinterleave2(slot % 64, 3);
    lemma2_to64();
    lemma_interleave2_of_deinterleave2(slot % 64, 3);
    let bx = block % pw;
    let by = block / pw;
    vstd::arithmetic::div_mod::lemma_fundamental_div_mod(block as int, pw as int);
    assert(bx + by * pw == block) by (nonlinear_arith)
        requires
            block == pw * by + bx,
    ;
}

/// The storage place of a cell of the grid lies inside the grid.
pub proof fn lemma_slot_in_grid_of_cell(x: nat, y: nat, width: nat, height: nat)
    requires
        x < width,
        y < height,
        x <= usize::MAX,
        y <= usize::MAX,
    ensures
        slot_in_grid(slot_of(x, y, blocks(width)), width, height),
{
    lemma_slot_coord_of_slot_of(x, y, width);
    lemma_block_slot_coords(x, y);
    lemma_block_parts(x / 8, y / 8, blocks(width));
}

/// Inside a block the Z-curve index is a bijection: the index of a coordinate of
/// three bits per axis is below 64, and its coordinates are the ones it was made
/// of.
pub proof fn lemma_zorder_inverse(x: u8, y: u8)
    requires
        x < 8,
        y < 8,
    ensures
        interleave2(x as nat, y as nat, 4) == block_slot(x as nat, y as nat),
        block_slot(x as nat, y as nat) < 64,
        deinterleave2(block_slot(x as nat, y as nat), 3) == (Pair { x: x as nat, y: y as nat }),
{
    lemma2_to64();
    lemma_interleave2_spare_bits(x as nat, y as nat, 3, 1);
    lemma_interleave2_bound(x as nat, y as nat, 3);
    lemma_deinterleave2_of_interleave2(x as nat, y as nat, 3);
}

/// Inside a block different coordinates have different Z-curve indices.
pub proof fn lemma_zorder_injective(x1: u8, y1: u8, x2: u8, y2: u8)
    requires
        x1 < 8,
        y1 < 8,
        x2 < 8,
        y2 < 8,
        interleave2(x1 as nat, y1 as nat, 4) == interleave2(x2 as nat, y2 as nat, 4),
    ensures
        x1 == x2,
        y1 == y2,
{
    lemma_zorder_inverse(x1, y1);
    lemma_zorder_inverse(x2, y2);
}

/// Every index below 64 is the Z-curve index of its coordinates inside a block.
pub proof fn lemma_zorder_onto(index: u8)
    requires
        index < 64,
    ensures
        deinterleave2(index as nat, 3).x < 8,
        deinterleave2(index as nat, 3).y < 8,
        interleave2(deinterleave2(index as nat, 3).x, deinterleave2(index as nat, 3).y, 4)
            == index,
{
    lemma2_to64();
    lemma_interleave2_of_deinterleave2(index as nat, 3);
    lemma_interleave2_spare_bits(
        deinterleave2(index as nat, 3).x,
        deinterleave2(index as nat, 3).y,
        3,
        1,
    );
}

/// What holds of the walk from storage place `slot` on: it yields cells of the
/// grid only, in rising order of their storage places, none of them before
/// `slot`, and it yields every cell whose storage place is not before `slot`.
proof fn lemma_traversal_from(width: usize, height: usize, slot: nat)
    ensures
        forall|i: int|
            0 <= i < traversal_from(width as nat, height as nat, slot).len() ==> {
                let c = #[trigger] traversal_from(width as nat, height as nat, slot)[i];
                c.0 < width && c.1 < height && slot_of(
                    c.0 as nat,
                    c.1 as nat,
                    blocks(width as nat),
                ) >= slot
            },
        forall|i: int, j: int|
            0 <= i < j < traversal_from(width as nat, height as nat, slot).len() ==> slot_of(
                (#[trigger] traversal_from(width as nat, height as nat, slot)[i]).0 as nat,
                traversal_from(width as nat, height as nat, slot)[i].1 as nat,
                blocks(width as nat),
            ) < slot_of(
                (#[trigger] traversal_from(width as nat, height as nat, slot)[j]).0 as nat,
                traversal_from(width as nat, height as nat, slot)[j].1 as nat,
                blocks(width as nat),
            ),
        forall|x: usize, y: usize|
            x < width && y < height && slot_of(x as nat, y as nat, blocks(width as nat)) >= slot
                ==> #[trigger] traversal_from(width as nat, height as nat, slot).contains((x, y)),
    decreases slot_count(width as nat, height as nat) - slot,
{
    let w = width as nat;
    let h = height as nat;
    let pw = blocks(w);
    let here = traversal_from(w, h, slot);
    if slot >= slot_count(w, h) {
        assert forall|x: usize, y: usize|
            x < width && y < height && slot_of(x as nat, y as nat, pw)
                >= slot implies here.contains((x, y)) by {
            lemma_block_of_bound(x as nat, y as nat, w, h);
            lemma_block_slot_bound(x as nat, y as nat);
        }
    } else {
        let rest = traversal_from(w, h, slot + 1);
        lemma_traversal_from(width, height, slot + 1);
        assert(pw > 0) by (nonlinear_arith)
            requires
                slot < 64 * (pw * blocks(h)),
        ;
        if slot_in_grid(slot, w, h) {
            let first = slot_coord(slot, pw);
            lemma_slot_of_slot_coord(slot, w, h);
            assert(here == seq![first] + rest);
            assert forall|i: int| 0 <= i < here.len() implies {
                let c = #[trigger] here[i];
                c.0 < width && c.1 < height && slot_of(c.0 as nat, c.1 as nat, pw) >= slot
            } by {
                if i > 0 {
                    assert(here[i] == rest[i - 1]);
                }
            }
            assert forall|i: int, j: int| 0 <= i < j < here.len() implies slot_of(
                (#[trigger] here[i]).0 as nat,
                here[i].1 as nat,
                pw,
            ) < slot_of((#[trigger] here[j]).0 as nat, here[j].1 as nat, pw) by {
                assert(here[j] == rest[j - 1]);
                if i > 0 {
                    assert(here[i] == rest[i - 1]);
                }
            }
            assert forall|x: usize, y: usize|
                x < width && y < height && slot_of(x as nat, y as nat, pw)
                    >= slot implies #[trigger] here.contains((x, y)) by {
                if slot_of(x as nat, y as nat, pw) == slot {
                    lemma_slot_coord_of_slot_of(x as nat, y as nat, w);
                    assert(here[0] == (x, y));
                } else {
                    assert(rest.contains((x, y)));
                    let i = choose|i: int| 0 <= i < rest.len() && rest[i] == (x, y);
                    assert(here[i + 1] == (x, y));
                }
            }
        } else {
            assert(here == rest);
            assert forall|x: usize, y: usize|
                x < width && y < height && slot_of(x as nat, y as nat, pw)
                    >= slot implies #[trigger] here.contains((x, y)) by {
                lemma_slot_in_grid_of_cell(x as nat, y as nat, w, h);
            }
        }
    }
}

/// A grid of `width` by `height` cells has `width * height` cells.
pub proof fn lemma_grid_cells_len(width: usize, height: usize)
    ensures
        grid_cells(width as nat, height as nat).finite(),
        grid_cells(width as nat, height as nat).len() == width * height,
{
    let w = width as int;
    let h = height as int;
    let cells = grid_cells(width as nat, height as nat);
    let numbers = vstd::set_lib::set_int_range(0, w * h);
    let f = |i: int| ((i % w) as usize, (i / w) as usize);
    assert(0 <= w * h) by (nonlinear_arith)
        requires
            0 <= w,
            0 <= h,
    ;
    vstd::set_lib::lemma_int_range(0, w * h);
    assert forall|i: int| numbers.contains(i) implies 0 <= i % w < w && 0 <= i / w < h by {
        assert(w > 0) by (nonlinear_arith)
            requires
                0 <= i < w * h,
                0 <= w,
        ;
        vstd::arithmetic::div_mod::lemma_fundamental_div_mod(i, w);
        vstd::arithmetic::div_mod::lemma_mod_bound(i, w);
        assert(i / w < h && 0 <= i / w) by (nonlinear_arith)
            requires
                0 <= i < w * h,
                w > 0,
                i == w * (i / w) + i % w,
                0 <= i % w < w,
        ;
    }
    assert(vstd::relations::injective_on(f, numbers)) by {
        assert forall|i: int, j: int|
            numbers.contains(i) && numbers.contains(j) && #[trigger] f(i) == #[trigger] f(
                j,
            ) implies i == j by {
            vstd::arithmetic::div_mod::lemma_fundamental_div_mod(i, w);
            vstd::arithmetic::div_mod::lemma_fundamental_div_mod(j, w);
        }
    }
    assert forall|c: (usize, usize)| cells.contains(c) implies #[trigger] numbers.map(f).contains(
        c,
    ) by {
        let i = c.1 * w + c.0;
        assert(0 <= i < w * h) by (nonlinear_arith)
            requires
                i == c.1 * w + c.0,
                0 <= c.0 < w,
                0 <= c.1 < h,
        ;
        vstd::arithmetic::div_mod::lemma_fundamental_div_mod_converse(i, w, c.1 as int, c.0 as int);
        assert(numbers.contains(i) && f(i) == c);
    }
    assert(numbers.map(f) =~= cells);
    vstd::set_lib::lemma_map_size(numbers, cells, f);
}

/// The walk over a grid reaches every cell of the grid exactly once, and nothing
/// else: a coordinate occurs in it if and only if it lies inside the grid, none
/// occurs twice, and there are `width * height` of them.
pub proof fn lemma_traversal_visits_each_cell_once(width: usize, height: usize)
    ensures
        forall|x: usize, y: usize|
            #[trigger] traversal(width as nat, height as nat).contains((x, y)) <==> x < width && y
                < height,
        traversal(width as nat, height as nat).no_duplicates(),
        traversal(width as nat, height as nat).len() == width * height,
{
    let t = traversal(width as nat, height as nat);
    lemma_traversal_from(width, height, 0);
    assert forall|x: usize, y: usize| #[trigger]
        t.contains((x, y)) <==> x < width && y < height by {
        if t.contains((x, y)) {
            let i = choose|i: int| 0 <= i < t.len() && t[i] == (x, y);
            assert(t[i].0 < width);
        }
    }
    assert(t.to_set() =~= grid_cells(width as nat, height as nat));
    lemma_grid_cells_len(width, height);
    t.unique_seq_to_set();
}

} // verus!
