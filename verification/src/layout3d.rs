//! Where the cells of a three-dimensional array are stored: the block of a cell,
//! its place inside the block, and the order in which the storage places are
//! walked.

use vstd::prelude::*;
use vstd::arithmetic::power2::lemma2_to64;
use crate::extent::blocks;
use crate::interleave::{
    Triple, interleave3, deinterleave3, lemma_interleave3_spare_bits, lemma_interleave3_bound,
    lemma_interleave3_injective, lemma_deinterleave3_of_interleave3,
    lemma_interleave3_of_deinterleave3,
};

verus! {

/// The place inside its block of the cell at `(x, y, z)`: the Z-curve index of the
/// lower three bits of each coordinate.
pub open spec fn block_slot(x: nat, y: nat, z: nat) -> nat {
    interleave3(x % 8, y % 8, z % 8, 3)
}

/// The block that holds the cell at `(x, y, z)`, in a grid `pxsize` blocks wide and
/// `pysize` blocks high.
pub open spec fn block_of(x: nat, y: nat, z: nat, pxsize: nat, pysize: nat) -> nat {
    x / 8 + pxsize * (y / 8 + pysize * (z / 8))
}

/// The number of blocks of a grid of `width` by `height` by `depth` cells.
pub open spec fn block_total(width: nat, height: nat, depth: nat) -> nat {
    blocks(width) * blocks(height) * blocks(depth)
}

/// The blocks of a grid of `width` by `height` by `depth` cells can be counted in a
/// `usize`, as they can for every grid of up to 8192 cells along each axis.
pub open spec fn block_count_fits(width: nat, height: nat, depth: nat) -> bool {
    (width <= 0x2000 && height <= 0x2000 && depth <= 0x2000) || block_total(width, height, depth)
        <= usize::MAX
}

/// The storage place of the cell at `(x, y, z)`, for a grid `pxsize` blocks wide
/// and `pysize` blocks high.
pub open spec fn slot_of(x: nat, y: nat, z: nat, pxsize: nat, pysize: nat) -> nat {
    512 * block_of(x, y, z, pxsize, pysize) + block_slot(x, y, z)
}

/// The coordinates of the cell in storage place `slot`, for a grid `pxsize` blocks
/// wide and `pysize` blocks high: place `512 * b + i` is place `i` of block `b`.
pub open spec fn slot_coord(slot: nat, pxsize: nat, pysize: nat) -> (usize, usize, usize) {
    let block = slot / 512;
    let local = deinterleave3(slot % 512, 3);
    (
        (8 * (block % pxsize) + local.x) as usize,
        (8 * ((block / pxsize) % pysize) + local.y) as usize,
        (8 * ((block / pxsize) / pysize) + local.z) as usize,
    )
}

/// The number of storage places of a grid of `width` by `height` by `depth` cells:
/// 512 in each of its blocks.
pub open spec fn slot_count(width: nat, height: nat, depth: nat) -> nat {
    512 * block_total(width, height, depth)
}

/// The cell of storage place `slot` lies inside a grid of `width` by `height` by
/// `depth` cells. The places of a block at the far edges may lie outside.
pub open spec fn slot_in_grid(slot: nat, width: nat, height: nat, depth: nat) -> bool {
    let block = slot / 512;
    let local = deinterleave3(slot % 512, 3);
    &&& 8 * (block % blocks(width)) + local.x < width
    &&& 8 * ((block / blocks(width)) % blocks(height)) + local.y < height
    &&& 8 * ((block / blocks(width)) / blocks(height)) + local.z < depth
}

/// The coordinates of the cells of a grid of `width` by `height` by `depth` cells
/// from storage place `slot` on: block after block, and inside a block in
/// Z-order, without the places that lie outside the grid.
pub open spec fn traversal_from(width: nat, height: nat, depth: nat, slot: nat) -> Seq<
    (usize, usize, usize),
>
    decreases slot_count(width, height, depth) - slot,
{
    if slot >= slot_count(width, height, depth) {
        Seq::empty()
    } else {
        let rest = traversal_from(width, height, depth, slot + 1);
        if slot_in_grid(slot, width, height, depth) {
            seq![slot_coord(slot, blocks(width), blocks(height))] + rest
        } else {
            rest
        }
    }
}

/// The coordinates of all cells of a grid of `width` by `height` by `depth` cells,
/// in the order of their storage places.
pub open spec fn traversal(width: nat, height: nat, depth: nat) -> Seq<(usize, usize, usize)> {
    traversal_from(width, height, depth, 0)
}

/// The coordinates of the cells of a grid of `width` by `height` by `depth` cells.
pub open spec fn grid_cells(width: nat, height: nat, depth: nat) -> Set<(usize, usize, usize)> {
    Set::new(|c: (usize, usize, usize)| c.0 < width && c.1 < height && c.2 < depth)
}

/// The storage place of a coordinate, for a grid of `width` by `height` cells in
/// each layer.
spec fn place(c: (usize, usize, usize), width: nat, height: nat) -> nat {
    slot_of(c.0 as nat, c.1 as nat, c.2 as nat, blocks(width), blocks(height))
}

/// The number of blocks of a grid whose blocks can be counted.
pub proof fn lemma_block_count_fits(width: nat, height: nat, depth: nat)
    requires
        block_count_fits(width, height, depth),
    ensures
        block_total(width, height, depth) <= usize::MAX,
{
    if width <= 0x2000 && height <= 0x2000 && depth <= 0x2000 {
        assert(blocks(width) * blocks(height) * blocks(depth) <= 0x400 * 0x400 * 0x400)
            by (nonlinear_arith)
            requires
                blocks(width) <= 0x400,
                blocks(height) <= 0x400,
                blocks(depth) <= 0x400,
        ;
    }
}

/// A block made of its three block coordinates gives them back by division.
pub proof fn lemma_block_parts(bx: nat, by: nat, bz: nat, pxsize: nat, pysize: nat)
    requires
        bx < pxsize,
        by < pysize,
    ensures
        (bx + pxsize * (by + pysize * bz)) % pxsize == bx,
        ((bx + pxsize * (by + pysize * bz)) / pxsize) % pysize == by,
        ((bx + pxsize * (by + pysize * bz)) / pxsize) / pysize == bz,
{
    let inner = by + pysize * bz;
    let block = bx + pxsize * inner;
    assert(block == inner * pxsize + bx && inner == bz * pysize + by) by (nonlinear_arith)
        requires
            inner == by + pysize * bz,
            block == bx + pxsize * inner,
    ;
    vstd::arithmetic::div_mod::lemma_fundamental_div_mod_converse(
        block as int,
        pxsize as int,
        inner as int,
        bx as int,
    );
    vstd::arithmetic::div_mod::lemma_fundamental_div_mod_converse(
        inner as int,
        pysize as int,
        bz as int,
        by as int,
    );
}

/// A block is made of the three block coordinates that division gives.
pub proof fn lemma_block_from_parts(block: nat, pxsize: nat, pysize: nat)
    requires
        pxsize > 0,
        pysize > 0,
    ensures
        block == block % pxsize + pxsize * ((block / pxsize) % pysize + pysize * ((block / pxsize)
            / pysize)),
        block % pxsize < pxsize,
        (block / pxsize) % pysize < pysize,
{
    let inner = block / pxsize;
    vstd::arithmetic::div_mod::lemma_fundamental_div_mod(block as int, pxsize as int);
    vstd::arithmetic::div_mod::lemma_fundamental_div_mod(inner as int, pysize as int);
    vstd::arithmetic::div_mod::lemma_mod_bound(block as int, pxsize as int);
    vstd::arithmetic::div_mod::lemma_mod_bound(inner as int, pysize as int);
}

/// A cell of a grid lies in one of the blocks that cover the grid.
pub proof fn lemma_block_of_bound(x: nat, y: nat, z: nat, width: nat, height: nat, depth: nat)
    requires
        x < width,
        y < height,
        z < depth,
    ensures
        block_of(x, y, z, blocks(width), blocks(height)) < block_total(width, height, depth),
        x / 8 < blocks(width),
        y / 8 < blocks(height),
        z / 8 < blocks(depth),
{
    let px = blocks(width);
    let py = blocks(height);
    let pz = blocks(depth);
    let inner = y / 8 + py * (z / 8);
    assert(inner < py * pz) by (nonlinear_arith)
        requires
            inner == y / 8 + py * (z / 8),
            y / 8 < py,
            z / 8 < pz,
    ;
    assert(x / 8 + px * inner < px * py * pz) by (nonlinear_arith)
        requires
            x / 8 < px,
            inner < py * pz,
    ;
}

/// A place inside a block is one of its 512.
pub proof fn lemma_block_slot_bound(x: nat, y: nat, z: nat)
    ensures
        block_slot(x, y, z) < 512,
{
    lemma2_to64();
    lemma_interleave3_bound(x % 8, y % 8, z % 8, 3);
}

/// The place of a cell inside its block gives the lower three bits of the
/// cell's coordinates back.
pub proof fn lemma_block_slot_coords(x: nat, y: nat, z: nat)
    ensures
        block_slot(x, y, z) < 512,
        deinterleave3(block_slot(x, y, z), 3) == (Triple { x: x % 8, y: y % 8, z: z % 8 }),
{
    lemma2_to64();
    lemma_interleave3_bound(x % 8, y % 8, z % 8, 3);
    lemma_deinterleave3_of_interleave3(x % 8, y % 8, z % 8, 3);
}

/// Different cells of a grid lie in different blocks or at different places of
/// one block.
pub proof fn lemma_cell_places_differ(
    x1: nat,
    y1: nat,
    z1: nat,
    x2: nat,
    y2: nat,
    z2: nat,
    width: nat,
    height: nat,
)
    requires
        x1 < width,
        x2 < width,
        y1 < height,
        y2 < height,
        block_of(x1, y1, z1, blocks(width), blocks(height)) == block_of(
            x2,
            y2,
            z2,
            blocks(width),
            blocks(height),
        ),
        block_slot(x1, y1, z1) == block_slot(x2, y2, z2),
    ensures
        x1 == x2,
        y1 == y2,
        z1 == z2,
{
    lemma2_to64();
    lemma_interleave3_injective(x1 % 8, y1 % 8, z1 % 8, x2 % 8, y2 % 8, z2 % 8, 3);
    lemma_block_parts(x1 / 8, y1 / 8, z1 / 8, blocks(width), blocks(height));
    lemma_block_parts(x2 / 8, y2 / 8, z2 / 8, blocks(width), blocks(height));
}

/// The block coordinates of a block of the grid are below the numbers of blocks
/// along the axes.
pub proof fn lemma_padded_block(block: nat, px: nat, py: nat, pz: nat)
    requires
        block < px * py * pz,
    ensures
        px > 0,
        py > 0,
        block % px < px,
        (block / px) % py < py,
        (block / px) / py < pz,
{
    assert(px > 0 && py > 0) by (nonlinear_arith)
        requires
            block < px * py * pz,
    ;
    lemma_block_from_parts(block, px, py);
    let bx = block % px;
    let by = (block / px) % py;
    let bz = (block / px) / py;
    assert(bz < pz) by (nonlinear_arith)
        requires
            block == bx + px * (by + py * bz),
            block < px * py * pz,
            px > 0,
            py > 0,
            bx >= 0,
            by >= 0,
            bz >= 0,
    ;
}

/// A block of the grid starts inside the grid, on every axis.
pub proof fn lemma_block_grid(block: nat, width: nat, height: nat, depth: nat)
    requires
        block < block_total(width, height, depth),
    ensures
        blocks(width) > 0,
        blocks(height) > 0,
        8 * (block % blocks(width)) < width,
        8 * ((block / blocks(width)) % blocks(height)) < height,
        8 * ((block / blocks(width)) / blocks(height)) < depth,
{
    lemma_padded_block(block, blocks(width), blocks(height), blocks(depth));
}

/// The first storage place of a grid that is not empty holds the cell at the
/// origin.
pub proof fn lemma_first_slot(width: nat, height: nat, depth: nat)
    requires
        width > 0,
        height > 0,
        depth > 0,
    ensures
        slot_in_grid(0, width, height, depth),
        slot_coord(0, blocks(width), blocks(height)) == (0usize, 0usize, 0usize),
        block_of(0, 0, 0, blocks(width), blocks(height)) == 0,
        block_slot(0, 0, 0) == 0,
{
    reveal_with_fuel(deinterleave3, 4);
    reveal_with_fuel(interleave3, 4);
    let px = blocks(width);
    let py = blocks(height);
    assert(px * (0 + py * 0) == 0) by (nonlinear_arith);
}

/// The cell of a grid is the cell of its storage place.
pub proof fn lemma_slot_coord_of_slot_of(x: nat, y: nat, z: nat, width: nat, height: nat)
    requires
        x < width,
        y < height,
        x <= usize::MAX,
        y <= usize::MAX,
        z <= usize::MAX,
    ensures
        slot_coord(
            slot_of(x, y, z, blocks(width), blocks(height)),
            blocks(width),
            blocks(height),
        ) == (x as usize, y as usize, z as usize),
        slot_of(x, y, z, blocks(width), blocks(height)) / 512 == block_of(
            x,
            y,
            z,
            blocks(width),
            blocks(height),
        ),
        slot_of(x, y, z, blocks(width), blocks(height)) % 512 == block_slot(x, y, z),
{
    let px = blocks(width);
    let py = blocks(height);
    let block = block_of(x, y, z, px, py);
    let local = block_slot(x, y, z);
    let slot = slot_of(x, y, z, px, py);
    lemma_block_slot_coords(x, y, z);
    lemma_block_parts(x / 8, y / 8, z / 8, px, py);
    assert(slot == 512 * block + local);
    assert(slot / 512 == block && slot % 512 == local);
    assert(8 * (x / 8) + x % 8 == x && 8 * (y / 8) + y % 8 == y && 8 * (z / 8) + z % 8 == z);
}

/// A storage place inside the grid is the storage place of its cell.
pub proof fn lemma_slot_of_slot_coord(slot: nat, width: nat, height: nat, depth: nat)
    requires
        slot_in_grid(slot, width, height, depth),
        width <= usize::MAX,
        height <= usize::MAX,
        depth <= usize::MAX,
        blocks(width) > 0,
        blocks(height) > 0,
    ensures
        slot_coord(slot, blocks(width), blocks(height)).0 < width,
        slot_coord(slot, blocks(width), blocks(height)).1 < height,
        slot_coord(slot, blocks(width), blocks(height)).2 < depth,
        slot_of(
            slot_coord(slot, blocks(width), blocks(height)).0 as nat,
            slot_coord(slot, blocks(width), blocks(height)).1 as nat,
            slot_coord(slot, blocks(width), blocks(height)).2 as nat,
            blocks(width),
            blocks(height),
        ) == slot,
{
    let px = blocks(width);
    let py = blocks(height);
    let block = slot / 512;
    lemma2_to64();
    lemma_interleave3_of_deinterleave3(slot % 512, 3);
    lemma_block_from_parts(block, px, py);
}

/// The storage place of a cell of the grid lies inside the grid.
pub proof fn lemma_slot_in_grid_of_cell(x: nat, y: nat, z: nat, width: nat, height: nat, depth: nat)
    requires
        x < width,
        y < height,
        z < depth,
        x <= usize::MAX,
        y <= usize::MAX,
        z <= usize::MAX,
    ensures
        slot_in_grid(slot_of(x, y, z, blocks(width), blocks(height)), width, height, depth),
{
    lemma_slot_coord_of_slot_of(x, y, z, width, height);
    lemma2_to64();
    lemma_deinterleave3_of_interleave3(x % 8, y % 8, z % 8, 3);
    lemma_block_parts(x / 8, y / 8, z / 8, blocks(width), blocks(height));
}

/// Inside a block the Z-curve index is a bijection: the index of a coordinate of
/// three bits per axis is below 512, and its coordinates are the ones it was made
/// of.
pub proof fn lemma_zorder_inverse(x: u8, y: u8, z: u8)
    requires
        x < 8,
        y < 8,
        z < 8,
    ensures
        interleave3(x as nat, y as nat, z as nat, 4) == block_slot(x as nat, y as nat, z as nat),
        block_slot(x as nat, y as nat, z as nat) < 512,
        deinterleave3(block_slot(x as nat, y as nat, z as nat), 3) == (Triple {
            x: x as nat,
            y: y as nat,
            z: z as nat,
        }),
{
    lemma2_to64();
    lemma_interleave3_spare_bits(x as nat, y as nat, z as nat, 3, 1);
    lemma_interleave3_bound(x as nat, y as nat, z as nat, 3);
    lemma_deinterleave3_of_interleave3(x as nat, y as nat, z as nat, 3);
}

/// Inside a block different coordinates have different Z-curve indices.
pub proof fn lemma_zorder_injective(x1: u8, y1: u8, z1: u8, x2: u8, y2: u8, z2: u8)
    requires
        x1 < 8,
        y1 < 8,
        z1 < 8,
        x2 < 8,
        y2 < 8,
        z2 < 8,
        interleave3(x1 as nat, y1 as nat, z1 as nat, 4) == interleave3(
            x2 as nat,
            y2 as nat,
            z2 as nat,
            4,
        ),
    ensures
        x1 == x2,
        y1 == y2,
        z1 == z2,
{
    lemma_zorder_inverse(x1, y1, z1);
    lemma_zorder_inverse(x2, y2, z2);
}

/// Every index below 512 is the Z-curve index of its coordinates inside a block.
pub proof fn lemma_zorder_onto(index: u16)
    requires
        index < 512,
    ensures
        deinterleave3(index as nat, 3).x < 8,
        deinterleave3(index as nat, 3).y < 8,
        deinterleave3(index as nat, 3).z < 8,
        interleave3(
            deinterleave3(index as nat, 3).x,
            deinterleave3(index as nat, 3).y,
            deinterleave3(index as nat, 3).z,
            4,
        ) == index,
{
    lemma2_to64();
    lemma_interleave3_of_deinterleave3(index as nat, 3);
    lemma_interleave3_spare_bits(
        deinterleave3(index as nat, 3).x,
        deinterleave3(index as nat, 3).y,
        deinterleave3(index as nat, 3).z,
        3,
        1,
    );
}

/// What holds of the walk from storage place `slot` on: it yields cells of the
/// grid only, in rising order of their storage places, none of them before
/// `slot`, and it yields every cell whose storage place is not before `slot`.
proof fn lemma_traversal_from(width: usize, height: usize, depth: usize, slot: nat)
    ensures
        forall|i: int|
            0 <= i < traversal_from(width as nat, height as nat, depth as nat, slot).len() ==> {
                let c = #[trigger] traversal_from(
                    width as nat,
                    height as nat,
                    depth as nat,
                    slot,
                )[i];
                c.0 < width && c.1 < height && c.2 < depth && place(c, width as nat, height as nat)
                    >= slot
            },
        forall|i: int, j: int|
            0 <= i < j < traversal_from(width as nat, height as nat, depth as nat, slot).len()
                ==> place(
                #[trigger] traversal_from(width as nat, height as nat, depth as nat, slot)[i],
                width as nat,
                height as nat,
            ) < place(
                #[trigger] traversal_from(width as nat, height as nat, depth as nat, slot)[j],
                width as nat,
                height as nat,
            ),
        forall|x: usize, y: usize, z: usize|
            x < width && y < height && z < depth && place((x, y, z), width as nat, height as nat)
                >= slot ==> #[trigger] traversal_from(
                width as nat,
                height as nat,
                depth as nat,
                slot,
            ).contains((x, y, z)),
    decreases slot_count(width as nat, height as nat, depth as nat) - slot,
{
    let w = width as nat;
    let h = height as nat;
    let d = depth as nat;
    let here = traversal_from(w, h, d, slot);
    if slot >= slot_count(w, h, d) {
        assert forall|x: usize, y: usize, z: usize|
            x < width && y < height && z < depth && place((x, y, z), w, h)
                >= slot implies here.contains((x, y, z)) by {
            lemma_block_of_bound(x as nat, y as nat, z as nat, w, h, d);
            lemma_block_slot_bound(x as nat, y as nat, z as nat);
        }
    } else {
        let rest = traversal_from(w, h, d, slot + 1);
        lemma_traversal_from(width, height, depth, slot + 1);
        assert(blocks(w) > 0 && blocks(h) > 0) by (nonlinear_arith)
            requires
                slot < 512 * (blocks(w) * blocks(h) * blocks(d)),
        ;
        if slot_in_grid(slot, w, h, d) {
            let first = slot_coord(slot, blocks(w), blocks(h));
            lemma_slot_of_slot_coord(slot, w, h, d);
            assert(here == seq![first] + rest);
            assert forall|i: int| 0 <= i < here.len() implies {
                let c = #[trigger] here[i];
                c.0 < width && c.1 < height && c.2 < depth && place(c, w, h) >= slot
            } by {
                if i > 0 {
                    assert(here[i] == rest[i - 1]);
                }
            }
            assert forall|i: int, j: int| 0 <= i < j < here.len() implies place(
                #[trigger] here[i],
                w,
                h,
            ) < place(#[trigger] here[j], w, h) by {
                assert(here[j] == rest[j - 1]);
                if i > 0 {
                    assert(here[i] == rest[i - 1]);
                }
            }
            assert forall|x: usize, y: usize, z: usize|
                x < width && y < height && z < depth && place((x, y, z), w, h)
                    >= slot implies #[trigger] here.contains((x, y, z)) by {
                if place((x, y, z), w, h) == slot {
                    lemma_slot_coord_of_slot_of(x as nat, y as nat, z as nat, w, h);
                    assert(here[0] == (x, y, z));
                } else {
                    assert(rest.contains((x, y, z)));
                    let i = choose|i: int| 0 <= i < rest.len() && rest[i] == (x, y, z);
                    assert(here[i + 1] == (x, y, z));
                }
            }
        } else {
            assert(here == rest);
            assert forall|x: usize, y: usize, z: usize|
                x < width && y < height && z < depth && place((x, y, z), w, h)
                    >= slot implies #[trigger] here.contains((x, y, z)) by {
                lemma_slot_in_grid_of_cell(x as nat, y as nat, z as nat, w, h, d);
            }
        }
    }
}

/// A grid of `width` by `height` by `depth` cells has `width * height * depth`
/// cells.
pub proof fn lemma_grid_cells_len(width: usize, height: usize, depth: usize)
    ensures
        grid_cells(width as nat, height as nat, depth as nat).finite(),
        grid_cells(width as nat, height as nat, depth as nat).len() == width * height * depth,
{
    let w = width as nat;
    let h = height as nat;
    let d = depth as nat;
    let cells = grid_cells(w, h, d);
    let wi = w as int;
    let hi = h as int;
    let di = d as int;
    let numbers = vstd::set_lib::set_int_range(0, (w * h * d) as int);
    let f = |i: int| ((i % wi) as usize, ((i / wi) % hi) as usize, ((i / wi) / hi) as usize);
    vstd::set_lib::lemma_int_range(0, (w * h * d) as int);
    assert forall|i: int| numbers.contains(i) implies 0 <= i % wi < wi && 0 <= (i / wi) % hi < hi
        && 0 <= (i / wi) / hi < di by {
        lemma_padded_block(i as nat, w, h, d);
    }
    assert(vstd::relations::injective_on(f, numbers)) by {
        assert forall|i: int, j: int|
            numbers.contains(i) && numbers.contains(j) && #[trigger] f(i) == #[trigger] f(
                j,
            ) implies i == j by {
            lemma_padded_block(i as nat, w, h, d);
            lemma_block_from_parts(i as nat, w, h);
            lemma_block_from_parts(j as nat, w, h);
        }
    }
    assert forall|c: (usize, usize, usize)| cells.contains(c) implies #[trigger] numbers.map(
        f,
    ).contains(c) by {
        let inner = c.1 as nat + h * (c.2 as nat);
        let i = c.0 as nat + w * inner;
        lemma_block_parts(c.0 as nat, c.1 as nat, c.2 as nat, w, h);
        assert(inner < h * d) by (nonlinear_arith)
            requires
                inner == c.1 as nat + h * (c.2 as nat),
                c.1 < h,
                c.2 < d,
        ;
        assert(i < w * h * d) by (nonlinear_arith)
            requires
                i == c.0 as nat + w * inner,
                c.0 < w,
                inner < h * d,
        ;
        assert(numbers.contains(i as int) && f(i as int) == c);
    }
    assert(numbers.map(f) =~= cells);
    vstd::set_lib::lemma_map_size(numbers, cells, f);
}

/// The walk over a grid reaches every cell of the grid exactly once, and nothing
/// else: a coordinate occurs in it if and only if it lies inside the grid, none
/// occurs twice, and there are `width * height * depth` of them.
pub proof fn lemma_traversal_visits_each_cell_once(width: usize, height: usize, depth: usize)
    ensures
        forall|x: usize, y: usize, z: usize|
            #[trigger] traversal(width as nat, height as nat, depth as nat).contains((x, y, z))
                <==> x < width && y < height && z < depth,
        traversal(width as nat, height as nat, depth as nat).no_duplicates(),
        traversal(width as nat, height as nat, depth as nat).len() == width * height * depth,
{
    let t = traversal(width as nat, height as nat, depth as nat);
    lemma_traversal_from(width, height, depth, 0);
    assert forall|x: usize, y: usize, z: usize| #[trigger]
        t.contains((x, y, z)) <==> x < width && y < height && z < depth by {
        if t.contains((x, y, z)) {
            let i = choose|i: int| 0 <= i < t.len() && t[i] == (x, y, z);
            assert(t[i].0 < width);
        }
    }
    assert forall|i: int, j: int| 0 <= i < t.len() && 0 <= j < t.len() && i != j implies t[i]
        != t[j] by {
        if i < j {
            assert(place(t[i], width as nat, height as nat) < place(
                t[j],
                width as nat,
                height as nat,
            ));
        } else {
            assert(place(t[j], width as nat, height as nat) < place(
                t[i],
                width as nat,
                height as nat,
            ));
        }
    }
    assert(t.to_set() =~= grid_cells(width as nat, height as nat, depth as nat));
    lemma_grid_cells_len(width, height, depth);
    t.unique_seq_to_set();
}

} // verus!
