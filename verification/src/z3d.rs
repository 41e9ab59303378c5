//! Three-dimensional arrays stored in blocks of 8 by 8 by 8 cells, each block in
//! Z-order.

use vstd::prelude::*;
use vstd::arithmetic::power2::lemma2_to64;
use crate::LookUpError;
use crate::init::init_array;
use crate::extent::{blocks, block_count, wrap, wrap_coord, wraps_into, lemma_wraps_into_next};
use crate::grid3d::Grid3D;
use crate::interleave::{
    interleave3, deinterleave3, lemma_interleave3_split, lemma_interleave3_low_bits,
    lemma_deinterleave3_low_bits, lemma_interleave3_spare_bits, lemma_interleave3_bound,
};
use crate::layout3d::{
    block_slot, block_of, block_total, block_count_fits, slot_of, slot_coord, slot_in_grid,
    traversal_from, traversal, lemma_block_count_fits, lemma_block_of_bound,
    lemma_block_slot_bound, lemma_cell_places_differ, lemma_padded_block, lemma_block_grid,
    lemma_first_slot, lemma_slot_coord_of_slot_of, lemma_slot_of_slot_coord,
    lemma_slot_in_grid_of_cell,
};

verus! {

/// For each nibble, its bits moved apart: bit `i` stands at bit `3 * i`.
const ZLUT: [u16; 16] = [
    0b0000000000000000,
    0b0000000000000001,
    0b0000000000001000,
    0b0000000000001001,
    0b0000000001000000,
    0b0000000001000001,
    0b0000000001001000,
    0b0000000001001001,
    0b0000001000000000,
    0b0000001000000001,
    0b0000001000001000,
    0b0000001000001001,
    0b0000001001000000,
    0b0000001001000001,
    0b0000001001001000,
    0b0000001001001001,
];

/// For each index inside a block, its coordinates packed as `0bzzzyyyxxx`.
const REVERSE_ZLUT: [u16; 512] = [
    0, 1, 8, 9, 64, 65, 72, 73, 2, 3, 10, 11, 66, 67, 74, 75,
    16, 17, 24, 25, 80, 81, 88, 89, 18, 19, 26, 27, 82, 83, 90, 91,
    128, 129, 136, 137, 192, 193, 200, 201, 130, 131, 138, 139, 194, 195, 202, 203,
    144, 145, 152, 153, 208, 209, 216, 217, 146, 147, 154, 155, 210, 211, 218, 219,
    4, 5, 12, 13, 68, 69, 76, 77, 6, 7, 14, 15, 70, 71, 78, 79,
    20, 21, 28, 29, 84, 85, 92, 93, 22, 23, 30, 31, 86, 87, 94, 95,
    132, 133, 140, 141, 196, 197, 204, 205, 134, 135, 142, 143, 198, 199, 206, 207,
    148, 149, 156, 157, 212, 213, 220, 221, 150, 151, 158, 159, 214, 215, 222, 223,
    32, 33, 40, 41, 96, 97, 104, 105, 34, 35, 42, 43, 98, 99, 106, 107,
    48, 49, 56, 57, 112, 113, 120, 121, 50, 51, 58, 59, 114, 115, 122, 123,
    160, 161, 168, 169, 224, 225, 232, 233, 162, 163, 170, 171, 226, 227, 234, 235,
    176, 177, 184, 185, 240, 241, 248, 249, 178, 179, 186, 187, 242, 243, 250, 251,
    36, 37, 44, 45, 100, 101, 108, 109, 38, 39, 46, 47, 102, 103, 110, 111,
    52, 53, 60, 61, 116, 117, 124, 125, 54, 55, 62, 63, 118, 119, 126, 127,
    164, 165, 172, 173, 228, 229, 236, 237, 166, 167, 174, 175, 230, 231, 238, 239,
    180, 181, 188, 189, 244, 245, 252, 253, 182, 183, 190, 191, 246, 247, 254, 255,
    256, 257, 264, 265, 320, 321, 328, 329, 258, 259, 266, 267, 322, 323, 330, 331,
    272, 273, 280, 281, 336, 337, 344, 345, 274, 275, 282, 283, 338, 339, 346, 347,
    384, 385, 392, 393, 448, 449, 456, 457, 386, 387, 394, 395, 450, 451, 458, 459,
    400, 401, 408, 409, 464, 465, 472, 473, 402, 403, 410, 411, 466, 467, 474, 475,
    260, 261, 268, 269, 324, 325, 332, 333, 262, 263, 270, 271, 326, 327, 334, 335,
    276, 277, 284, 285, 340, 341, 348, 349, 278, 279, 286, 287, 342, 343, 350, 351,
    388, 389, 396, 397, 452, 453, 460, 461, 390, 391, 398, 399, 454, 455, 462, 463,
    404, 405, 412, 413, 468, 469, 476, 477, 406, 407, 414, 415, 470, 471, 478, 479,
    288, 289, 296, 297, 352, 353, 360, 361, 290, 291, 298, 299, 354, 355, 362, 363,
    304, 305, 312, 313, 368, 369, 376, 377, 306, 307, 314, 315, 370, 371, 378, 379,
    416, 417, 424, 425, 480, 481, 488, 489, 418, 419, 426, 427, 482, 483, 490, 491,
    432, 433, 440, 441, 496, 497, 504, 505, 434, 435, 442, 443, 498, 499, 506, 507,
    292, 293, 300, 301, 356, 357, 364, 365, 294, 295, 302, 303, 358, 359, 366, 367,
    308, 309, 316, 317, 372, 373, 380, 381, 310, 311, 318, 319, 374, 375, 382, 383,
    420, 421, 428, 429, 484, 485, 492, 493, 422, 423, 430, 431, 486, 487, 494, 495,
    436, 437, 444, 445, 500, 501, 508, 509, 438, 439, 446, 447, 502, 503, 510, 511,
];

/// The values that `ZLUT` holds: those with bits at every third position only.
spec fn is_spread(v: u16) -> bool {
    v & 0xFDB6 == 0
}

/// What `ZLUT` holds for a nibble: the index that the nibble gives on the first
/// axis alone.
proof fn lemma_zlut(n: int)
    requires
        0 <= n < 16,
    ensures
        ZLUT[n] as nat == interleave3(n as nat, 0, 0, 4),
        is_spread(ZLUT[n]),
{
    reveal_with_fuel(interleave3, 5);
    assert(is_spread(0x000) && is_spread(0x001) && is_spread(0x008) && is_spread(0x009)
        && is_spread(0x040) && is_spread(0x041) && is_spread(0x048) && is_spread(0x049)
        && is_spread(0x200) && is_spread(0x201) && is_spread(0x208) && is_spread(0x209)
        && is_spread(0x240) && is_spread(0x241) && is_spread(0x248) && is_spread(0x249))
        by (bit_vector);
}

/// The coordinates of an index inside a block, packed as the table packs them.
spec fn packed_coords(i: int) -> int {
    (i % 2) + 2 * ((i / 8) % 2) + 4 * ((i / 64) % 2) + 8 * ((i / 2) % 2) + 16 * ((i / 16) % 2) + 32
        * ((i / 128) % 2) + 64 * ((i / 4) % 2) + 128 * ((i / 32) % 2) + 256 * ((i / 256) % 2)
}

/// The packed coordinates of an index are its coordinates inside a block.
proof fn lemma_packed_coords(i: nat)
    requires
        i < 512,
    ensures
        packed_coords(i as int) == deinterleave3(i, 3).x + 8 * deinterleave3(i, 3).y + 64
            * deinterleave3(i, 3).z,
{
    reveal_with_fuel(deinterleave3, 4);
}

/// The first 64 entries of `REVERSE_ZLUT`.
proof fn lemma_reverse_zlut_0(i: int)
    requires
        0 <= i < 64,
    ensures
        REVERSE_ZLUT[i] as int == packed_coords(i),
{
}

/// The second 64 entries of `REVERSE_ZLUT`.
proof fn lemma_reverse_zlut_1(i: int)
    requires
        64 <= i < 128,
    ensures
        REVERSE_ZLUT[i] as int == packed_coords(i),
{
}

/// The third 64 entries of `REVERSE_ZLUT`.
proof fn lemma_reverse_zlut_2(i: int)
    requires
        128 <= i < 192,
    ensures
        REVERSE_ZLUT[i] as int == packed_coords(i),
{
}

/// The fourth 64 entries of `REVERSE_ZLUT`.
proof fn lemma_reverse_zlut_3(i: int)
    requires
        192 <= i < 256,
    ensures
        REVERSE_ZLUT[i] as int == packed_coords(i),
{
}

/// The fifth 64 entries of `REVERSE_ZLUT`.
proof fn lemma_reverse_zlut_4(i: int)
    requires
        256 <= i < 320,
    ensures
        REVERSE_ZLUT[i] as int == packed_coords(i),
{
}

/// The sixth 64 entries of `REVERSE_ZLUT`.
proof fn lemma_reverse_zlut_5(i: int)
    requires
        320 <= i < 384,
    ensures
        REVERSE_ZLUT[i] as int == packed_coords(i),
{
}

/// The seventh 64 entries of `REVERSE_ZLUT`.
proof fn lemma_reverse_zlut_6(i: int)
    requires
        384 <= i < 448,
    ensures
        REVERSE_ZLUT[i] as int == packed_coords(i),
{
}

/// The eighth 64 entries of `REVERSE_ZLUT`.
proof fn lemma_reverse_zlut_7(i: int)
    requires
        448 <= i < 512,
    ensures
        REVERSE_ZLUT[i] as int == packed_coords(i),
{
}

/// What `REVERSE_ZLUT` holds for an index: its coordinates inside a block.
proof fn lemma_reverse_zlut(i: int)
    requires
        0 <= i < 512,
    ensures
        REVERSE_ZLUT[i] as nat == deinterleave3(i as nat, 3).x + 8 * deinterleave3(i as nat, 3).y
            + 64 * deinterleave3(i as nat, 3).z,
{
    lemma_packed_coords(i as nat);
    if i < 64 {
        lemma_reverse_zlut_0(i);
    } else if i < 128 {
        lemma_reverse_zlut_1(i);
    } else if i < 192 {
        lemma_reverse_zlut_2(i);
    } else if i < 256 {
        lemma_reverse_zlut_3(i);
    } else if i < 320 {
        lemma_reverse_zlut_4(i);
    } else if i < 384 {
        lemma_reverse_zlut_5(i);
    } else if i < 448 {
        lemma_reverse_zlut_6(i);
    } else {
        lemma_reverse_zlut_7(i);
    }
}

/// An index is the sum of what each axis gives alone.
proof fn lemma_interleave3_axes(x: nat, y: nat, z: nat, bits: nat)
    ensures
        interleave3(x, y, z, bits) == interleave3(x, 0, 0, bits) + 2 * interleave3(y, 0, 0, bits)
            + 4 * interleave3(z, 0, 0, bits),
    decreases bits,
{
    if bits > 0 {
        lemma_interleave3_axes(x / 2, y / 2, z / 2, (bits - 1) as nat);
        assert(interleave3(0, 0, 0, (bits - 1) as nat) == 0) by {
            lemma_interleave3_axes(0, 0, 0, (bits - 1) as nat);
        }
    }
}

/// Z-curve index of a coordinate of four bits per axis: for `x = 0b0000xxxx`,
/// `y = 0b0000yyyy` and `z = 0b0000zzzz` the result is `0b0000zyxzyxzyxzyx`. Higher
/// bits of `x`, `y` and `z` are not used.
pub fn zorder_4bit_to_12bit(x: u8, y: u8, z: u8) -> (r: u16)
    ensures
        r as nat == interleave3(x as nat, y as nat, z as nat, 4),
{
    let xi: u8 = x & 0x0F;
    let yi: u8 = y & 0x0F;
    let zi: u8 = z & 0x0F;
    proof {
        assert(xi == x % 16 && yi == y % 16 && zi == z % 16) by (bit_vector)
            requires
                xi == x & 0x0F,
                yi == y & 0x0F,
                zi == z & 0x0F,
        ;
    }
    let x_bits: u16 = ZLUT[xi as usize];
    let y_third: u16 = ZLUT[yi as usize];
    let z_third: u16 = ZLUT[zi as usize];
    proof {
        lemma_zlut(xi as int);
        lemma_zlut(yi as int);
        lemma_zlut(zi as int);
        assert(y_third <= 0x249 && z_third <= 0x249 && (z_third << 2) | (y_third << 1) | x_bits == 4
            * z_third + 2 * y_third + x_bits) by (bit_vector)
            requires
                is_spread(x_bits),
                is_spread(y_third),
                is_spread(z_third),
        ;
        lemma2_to64();
        lemma_interleave3_low_bits(x as nat, y as nat, z as nat, 4);
        lemma_interleave3_axes(xi as nat, yi as nat, zi as nat, 4);
    }
    let y_bits: u16 = y_third << 1;
    let z_bits: u16 = z_third << 2;
    z_bits | y_bits | x_bits
}

/// Z-curve index of a coordinate of eight bits per axis: bit `i` of `x` stands at
/// bit `3 * i` of the result, bit `i` of `y` at bit `3 * i + 1`, bit `i` of `z` at
/// bit `3 * i + 2`.
pub fn zorder_8bit_to_24bit(x: u8, y: u8, z: u8) -> (r: u32)
    ensures
        r as nat == interleave3(x as nat, y as nat, z as nat, 8),
{
    let xh: u8 = x >> 4;
    let yh: u8 = y >> 4;
    let zh: u8 = z >> 4;
    let high: u16 = zorder_4bit_to_12bit(xh, yh, zh);
    let low: u16 = zorder_4bit_to_12bit(x, y, z);
    proof {
        assert(xh == x / 16 && yh == y / 16 && zh == z / 16) by (bit_vector)
            requires
                xh == x >> 4,
                yh == y >> 4,
                zh == z >> 4,
        ;
        lemma2_to64();
        lemma_interleave3_bound(xh as nat, yh as nat, zh as nat, 4);
        lemma_interleave3_bound(x as nat, y as nat, z as nat, 4);
        assert(((high as u32) << 12) | (low as u32) == 4096 * high + low) by (bit_vector)
            requires
                high < 4096,
                low < 4096,
        ;
        lemma_interleave3_split(x as nat, y as nat, z as nat, 4, 4);
    }
    ((high as u32) << 12) | (low as u32)
}

/// The entry of `REVERSE_ZLUT` for an index inside a block.
fn packed_block_coords(i: usize) -> (packed: u16)
    requires
        i < 512,
    ensures
        packed as nat == deinterleave3(i as nat, 3).x + 8 * deinterleave3(i as nat, 3).y + 64
            * deinterleave3(i as nat, 3).z,
{
    proof {
        lemma_reverse_zlut(i as int);
    }
    REVERSE_ZLUT[i]
}

/// The coordinates inside a block of the cell at `index`, the inverse of the
/// Z-curve index of three bits per axis. Only the lower nine bits of `index` are
/// used.
pub fn zorder_9bit_to_3bit(index: u16) -> (r: (u8, u8, u8))
    ensures
        r.0 as nat == deinterleave3(index as nat, 3).x,
        r.1 as nat == deinterleave3(index as nat, 3).y,
        r.2 as nat == deinterleave3(index as nat, 3).z,
        r.0 < 8,
        r.1 < 8,
        r.2 < 8,
{
    let i: u16 = index & 0x1FF;
    proof {
        assert(i == index % 512) by (bit_vector)
            requires
                i == index & 0x1FF,
        ;
        lemma2_to64();
        lemma_deinterleave3_low_bits(index as nat, 3);
    }
    let packed: u16 = packed_block_coords(i as usize);
    let dx: u16 = packed & 0x07;
    let dy: u16 = (packed >> 3) & 0x07;
    let dz: u16 = (packed >> 6) & 0x07;
    proof {
        assert(dx == packed % 8 && dy == (packed / 8) % 8 && dz == (packed / 64) % 8)
            by (bit_vector)
            requires
                dx == packed & 0x07,
                dy == (packed >> 3) & 0x07,
                dz == (packed >> 6) & 0x07,
        ;
    }
    (dx as u8, dy as u8, dz as u8)
}

/// A block of 8 by 8 by 8 cells in Z-order.
#[derive(Debug, PartialEq, Eq, Hash)]
struct Patch<T> {
    contents: [T; 512],
}

impl<T> Patch<T> {
    /// The cell at the lower three bits of `x`, `y` and `z`.
    fn get(&self, x: usize, y: usize, z: usize) -> (r: &T)
        ensures
            block_slot(x as nat, y as nat, z as nat) < 512,
            *r == self.contents@[block_slot(x as nat, y as nat, z as nat) as int],
    {
        let i = local_index(x, y, z);
        &self.contents[i]
    }

    /// Stores `new_val` at the lower three bits of `x`, `y` and `z`.
    fn set(&mut self, x: usize, y: usize, z: usize, new_val: T)
        ensures
            block_slot(x as nat, y as nat, z as nat) < 512,
            final(self).contents@ == old(self).contents@.update(
                block_slot(x as nat, y as nat, z as nat) as int,
                new_val,
            ),
    {
        let i = local_index(x, y, z);
        self.contents[i] = new_val;
    }
}

/// Index inside a block of the cell at the lower three bits of `x`, `y` and `z`.
fn local_index(x: usize, y: usize, z: usize) -> (i: usize)
    ensures
        i == block_slot(x as nat, y as nat, z as nat),
        i < 512,
{
    let lx: u8 = (x & 0x07) as u8;
    let ly: u8 = (y & 0x07) as u8;
    let lz: u8 = (z & 0x07) as u8;
    proof {
        assert(x & 0x07 == x % 8 && y & 0x07 == y % 8 && z & 0x07 == z % 8) by (bit_vector);
        lemma2_to64();
        lemma_interleave3_spare_bits(lx as nat, ly as nat, lz as nat, 3, 1);
        lemma_interleave3_bound(lx as nat, ly as nat, lz as nat, 3);
    }
    zorder_4bit_to_12bit(lx, ly, lz) as usize
}

/// Index, in the sequence of blocks, of the block that holds the cell at
/// `(x, y, z)`.
fn patch_index(x: usize, y: usize, z: usize, pxsize: usize, pysize: usize) -> (r: usize)
    requires
        block_of(x as nat, y as nat, z as nat, pxsize as nat, pysize as nat) <= usize::MAX,
        x / 8 < pxsize,
    ensures
        r == block_of(x as nat, y as nat, z as nat, pxsize as nat, pysize as nat),
{
    let bx: usize = x >> 3;
    let by: usize = y >> 3;
    let bz: usize = z >> 3;
    assert(x >> 3 == x / 8 && y >> 3 == y / 8 && z >> 3 == z / 8) by (bit_vector);
    assert(0 <= pysize * bz <= by + pysize * bz && by + pysize * bz <= pxsize * (by + pysize * bz))
        by (nonlinear_arith)
        requires
            pxsize >= 1,
            by >= 0,
            bz >= 0,
            pysize >= 0,
    ;
    bx + pxsize * (by + pysize * bz)
}

/// The number of blocks of a grid, from the numbers of blocks along its axes.
fn patch_total(px: usize, py: usize, pz: usize) -> (r: usize)
    requires
        px * py * pz <= usize::MAX,
    ensures
        r == px * py * pz,
{
    if px == 0 || py == 0 || pz == 0 {
        assert(px * py * pz == 0) by (nonlinear_arith)
            requires
                px == 0 || py == 0 || pz == 0,
        ;
        0
    } else {
        assert(px * py <= px * py * pz) by (nonlinear_arith)
            requires
                pz >= 1,
                px >= 0,
                py >= 0,
        ;
        px * py * pz
    }
}

/// The coordinates of the 512 cells of block `pindex`, in the order in which the
/// block stores them, for a grid `pxsize` blocks wide and `pysize` blocks high.
pub fn patch_coords(pxsize: usize, pysize: usize, pindex: usize) -> (r: [(usize, usize, usize);
    512])
    requires
        pxsize > 0,
        pysize > 0,
        8 * (pindex % pxsize) + 7 <= usize::MAX,
        8 * ((pindex / pxsize) % pysize) + 7 <= usize::MAX,
        8 * ((pindex / pxsize) / pysize) + 7 <= usize::MAX,
    ensures
        forall|i: int|
            0 <= i < 512 ==> #[trigger] r@[i] == slot_coord(
                (512 * pindex + i) as nat,
                pxsize as nat,
                pysize as nat,
            ),
{
    let mut outbuffer = [(0usize, 0usize, 0usize);512];
    let bx: usize = (pindex % pxsize) * 8;
    let by: usize = ((pindex / pxsize) % pysize) * 8;
    let bz: usize = ((pindex / pxsize) / pysize) * 8;
    let mut i: usize = 0;
    while i < 512
        invariant
            0 <= i <= 512,
            pxsize > 0,
            pysize > 0,
            bx == 8 * (pindex % pxsize),
            by == 8 * ((pindex / pxsize) % pysize),
            bz == 8 * ((pindex / pxsize) / pysize),
            bx + 7 <= usize::MAX,
            by + 7 <= usize::MAX,
            bz + 7 <= usize::MAX,
            forall|j: int|
                0 <= j < i ==> #[trigger] outbuffer@[j] == slot_coord(
                    (512 * pindex + j) as nat,
                    pxsize as nat,
                    pysize as nat,
                ),
        decreases 512 - i,
    {
        let (dx, dy, dz) = zorder_9bit_to_3bit(i as u16);
        outbuffer[i] = (bx + dx as usize, by + dy as usize, bz + dz as usize);
        i += 1;
    }
    outbuffer
}

/// A three-dimensional array of fixed size, stored in blocks of 8 by 8 by 8 cells.
#[derive(Debug, PartialEq, Eq, Hash)]
pub struct ZArray3D<T> {
    xsize: usize,
    ysize: usize,
    zsize: usize,
    pxsize: usize,
    pysize: usize,
    patches: Vec<Patch<T>>,
}

impl<T> View for ZArray3D<T> {
    type V = Grid3D<T>;

    closed spec fn view(&self) -> Grid3D<T> {
        Grid3D::of_cells(
            self.xsize as nat,
            self.ysize as nat,
            self.zsize as nat,
            |x: int, y: int, z: int| self.cell(x, y, z),
        )
    }
}

impl<T> ZArray3D<T> {
    /// The blocks cover the array: their number follows from its size.
    #[verifier::type_invariant]
    spec fn inv(&self) -> bool {
        &&& self.pxsize == blocks(self.xsize as nat)
        &&& self.pysize == blocks(self.ysize as nat)
        &&& self.patches.len() == block_total(
            self.xsize as nat,
            self.ysize as nat,
            self.zsize as nat,
        )
    }

    /// The stored value of the cell at `(x, y, z)`.
    spec fn cell(&self, x: int, y: int, z: int) -> T {
        self.patches@[block_of(
            x as nat,
            y as nat,
            z as nat,
            self.pxsize as nat,
            self.pysize as nat,
        ) as int].contents@[block_slot(x as nat, y as nat, z as nat) as int]
    }

    /// The view of an array has as many layers, rows and columns as the array.
    pub proof fn lemma_view_wf(&self)
        ensures
            self@.wf(),
    {
    }

    /// An array of `xsize` by `ysize` by `zsize` cells, each made by `constructor`
    /// from its coordinate. The constructor is called for every cell of every
    /// block, also for the cells of the blocks at the far edges that lie outside
    /// the array.
    pub fn new_with_constructor(
        xsize: usize,
        ysize: usize,
        zsize: usize,
        constructor: impl Fn((usize, usize, usize)) -> T,
    ) -> (r: ZArray3D<T>)
        requires
            block_count_fits(xsize as nat, ysize as nat, zsize as nat),
            xsize > 0 && ysize > 0 && zsize > 0 ==> 8 * blocks(xsize as nat) - 1 <= usize::MAX && 8
                * blocks(ysize as nat) - 1 <= usize::MAX && 8 * blocks(zsize as nat) - 1
                <= usize::MAX,
            forall|x: usize, y: usize, z: usize|
                xsize > 0 && ysize > 0 && zsize > 0 && x < 8 * blocks(xsize as nat) && y < 8
                    * blocks(ysize as nat) && z < 8 * blocks(zsize as nat) ==> call_requires(
                    constructor,
                    ((x, y, z),),
                ),
        ensures
            r@.width == xsize,
            r@.height == ysize,
            r@.depth == zsize,
            r@.wf(),
            forall|x: usize, y: usize, z: usize|
                r@.contains(x as int, y as int, z as int) ==> call_ensures(
                    constructor,
                    ((x, y, z),),
                    #[trigger] r@.at(x as int, y as int, z as int),
                ),
    {
        proof {
            lemma_block_count_fits(xsize as nat, ysize as nat, zsize as nat);
        }
        let px = block_count(xsize);
        let py = block_count(ysize);
        let pz = block_count(zsize);
        let patch_count = patch_total(px, py, pz);
        let mut p: Vec<Patch<T>> = Vec::with_capacity(patch_count);
        for pindex in 0..patch_count
            invariant
                p@.len() == pindex,
                px == blocks(xsize as nat),
                py == blocks(ysize as nat),
                pz == blocks(zsize as nat),
                patch_count == px * py * pz,
                xsize > 0 && ysize > 0 && zsize > 0 ==> 8 * px - 1 <= usize::MAX && 8 * py - 1
                    <= usize::MAX && 8 * pz - 1 <= usize::MAX,
                forall|x: usize, y: usize, z: usize|
                    xsize > 0 && ysize > 0 && zsize > 0 && x < 8 * px && y < 8 * py && z < 8 * pz
                        ==> call_requires(constructor, ((x, y, z),)),
                forall|j: int, k: int|
                    0 <= j < pindex && 0 <= k < 512 ==> call_ensures(
                        constructor,
                        (slot_coord((512 * j + k) as nat, px as nat, py as nat),),
                        #[trigger] p@[j].contents@[k],
                    ),
        {
            proof {
                lemma_block_grid(pindex as nat, xsize as nat, ysize as nat, zsize as nat);
                lemma_padded_block(pindex as nat, px as nat, py as nat, pz as nat);
            }
            let lookup_table = patch_coords(px, py, pindex);
            proof {
                assert forall|k: usize| k < 512 implies call_requires(
                    constructor,
                    (#[trigger] lookup_table@[k as int],),
                ) by {
                    lemma2_to64();
                    lemma_deinterleave3_low_bits(k as nat, 3);
                    let c = slot_coord((512 * pindex + k) as nat, px as nat, py as nat);
                    assert((512 * pindex + k) / 512 == pindex && (512 * pindex + k) % 512 == k);
                    assert(c.0 < 8 * px && c.1 < 8 * py && c.2 < 8 * pz);
                }
            }
            let construct = &constructor;
            let make = |k: usize| -> (v: T)
                requires
                    k < 512,
                ensures
                    call_ensures(*construct, (lookup_table@[k as int],), v),
                { construct(lookup_table[k]) };
            let initial_contents: [T; 512] = init_array(make);
            p.push(Patch { contents: initial_contents });
        }
        let r = ZArray3D { xsize, ysize, zsize, pxsize: px, pysize: py, patches: p };
        proof {
            assert forall|x: usize, y: usize, z: usize|
                r@.contains(x as int, y as int, z as int) implies call_ensures(
                constructor,
                ((x, y, z),),
                #[trigger] r@.at(x as int, y as int, z as int),
            ) by {
                lemma_block_of_bound(
                    x as nat,
                    y as nat,
                    z as nat,
                    xsize as nat,
                    ysize as nat,
                    zsize as nat,
                );
                lemma_block_slot_bound(x as nat, y as nat, z as nat);
                lemma_slot_coord_of_slot_of(
                    x as nat,
                    y as nat,
                    z as nat,
                    xsize as nat,
                    ysize as nat,
                );
                let j = block_of(x as nat, y as nat, z as nat, px as nat, py as nat) as int;
                let k = block_slot(x as nat, y as nat, z as nat) as int;
                assert(call_ensures(
                    constructor,
                    (slot_coord((512 * j + k) as nat, px as nat, py as nat),),
                    r.patches@[j].contents@[k],
                ));
            }
        }
        r
    }

    /// The size of the array as `(width, height, depth)`.
    pub fn dimensions(&self) -> (r: (usize, usize, usize))
        ensures
            r.0 == self@.width,
            r.1 == self@.height,
            r.2 == self@.depth,
    {
        (self.xsize, self.ysize, self.zsize)
    }

    /// The size of the array along the x axis.
    pub fn xsize(&self) -> (r: usize)
        ensures
            r == self@.width,
    {
        self.xsize
    }

    /// The size of the array along the x axis.
    pub fn width(&self) -> (r: usize)
        ensures
            r == self@.width,
    {
        self.xsize()
    }

    /// The size of the array along the y axis.
    pub fn ysize(&self) -> (r: usize)
        ensures
            r == self@.height,
    {
        self.ysize
    }

    /// The size of the array along the y axis.
    pub fn height(&self) -> (r: usize)
        ensures
            r == self@.height,
    {
        self.ysize()
    }

    /// The size of the array along the z axis.
    pub fn zsize(&self) -> (r: usize)
        ensures
            r == self@.depth,
    {
        self.zsize
    }

    /// The size of the array along the z axis.
    pub fn depth(&self) -> (r: usize)
        ensures
            r == self@.depth,
    {
        self.zsize()
    }

    /// The number of blocks that the array is stored in.
    pub fn patch_count(&self) -> (r: usize)
        ensures
            r == block_total(self@.width, self@.height, self@.depth),
    {
        proof {
            use_type_invariant(self);
        }
        self.patches.len()
    }

    /// The cell at `(x, y, z)`, or the error of a coordinate outside the array.
    pub fn get(&self, x: usize, y: usize, z: usize) -> (r: Result<&T, LookUpError>)
        ensures
            match r {
                Ok(v) => self@.contains(x as int, y as int, z as int) && *v == self@.at(
                    x as int,
                    y as int,
                    z as int,
                ),
                Err(e) => !self@.contains(x as int, y as int, z as int) && e.spec_coord() == seq![
                    x,
                    y,
                    z,
                ] && e.spec_bounds() == seq![
                    self@.width as usize,
                    self@.height as usize,
                    self@.depth as usize,
                ],
            },
    {
        if x < self.xsize && y < self.ysize && z < self.zsize {
            Ok(self.get_unchecked(x, y, z))
        } else {
            Err(LookUpError::new(vec![x, y, z], vec![self.xsize, self.ysize, self.zsize]))
        }
    }

    /// Stores `new_val` in the cell at `(x, y, z)`, or returns the error of a
    /// coordinate outside the array and leaves the array as it was.
    pub fn set(&mut self, x: usize, y: usize, z: usize, new_val: T) -> (r: Result<(), LookUpError>)
        ensures
            match r {
                Ok(_) => old(self)@.contains(x as int, y as int, z as int) && final(self)@ == old(
                    self,
                )@.put(x as int, y as int, z as int, new_val),
                Err(e) => !old(self)@.contains(x as int, y as int, z as int) && final(self)@ == old(
                    self,
                )@ && e.spec_coord() == seq![x, y, z] && e.spec_bounds() == seq![
                    old(self)@.width as usize,
                    old(self)@.height as usize,
                    old(self)@.depth as usize,
                ],
            },
    {
        if x < self.xsize && y < self.ysize && z < self.zsize {
            self.set_unchecked(x, y, z, new_val);
            Ok(())
        } else {
            Err(LookUpError::new(vec![x, y, z], vec![self.xsize, self.ysize, self.zsize]))
        }
    }

    /// The cell at `(x, y, z)`, which must lie inside the array.
    pub fn get_unchecked(&self, x: usize, y: usize, z: usize) -> (r: &T)
        requires
            self@.contains(x as int, y as int, z as int),
        ensures
            *r == self@.at(x as int, y as int, z as int),
    {
        proof {
            use_type_invariant(self);
            lemma_block_of_bound(
                x as nat,
                y as nat,
                z as nat,
                self.xsize as nat,
                self.ysize as nat,
                self.zsize as nat,
            );
        }
        self.patches[patch_index(x, y, z, self.pxsize, self.pysize)].get(x, y, z)
    }

    /// Stores `new_val` in the cell at `(x, y, z)`, which must lie inside the array.
    pub fn set_unchecked(&mut self, x: usize, y: usize, z: usize, new_val: T)
        requires
            old(self)@.contains(x as int, y as int, z as int),
        ensures
            final(self)@ == old(self)@.put(x as int, y as int, z as int, new_val),
    {
        proof {
            use_type_invariant(&*self);
            lemma_block_of_bound(
                x as nat,
                y as nat,
                z as nat,
                self.xsize as nat,
                self.ysize as nat,
                self.zsize as nat,
            );
        }
        let pi = patch_index(x, y, z, self.pxsize, self.pysize);
        self.patches[pi].set(x, y, z, new_val);
        proof {
            let before = old(self)@.put(x as int, y as int, z as int, new_val);
            let after = self@;
            assert forall|cz: int, cy: int, cx: int|
                0 <= cz < self.zsize && 0 <= cy < self.ysize && 0 <= cx < self.xsize implies
                #[trigger] after.layers[cz][cy][cx] == before.layers[cz][cy][cx] by {
                lemma_block_of_bound(
                    cx as nat,
                    cy as nat,
                    cz as nat,
                    self.xsize as nat,
                    self.ysize as nat,
                    self.zsize as nat,
                );
                lemma_block_slot_bound(cx as nat, cy as nat, cz as nat);
                if block_of(cx as nat, cy as nat, cz as nat, self.pxsize as nat, self.pysize as nat)
                    == pi && block_slot(cx as nat, cy as nat, cz as nat) == block_slot(
                    x as nat,
                    y as nat,
                    z as nat,
                ) {
                    lemma_cell_places_differ(
                        cx as nat,
                        cy as nat,
                        cz as nat,
                        x as nat,
                        y as nat,
                        z as nat,
                        self.xsize as nat,
                        self.ysize as nat,
                    );
                }
            }
            assert(after.layers =~~= before.layers);
        }
    }

    /// The cell that `(x, y, z)` wraps to: coordinates below zero or beyond the
    /// size tile around the array. The array must not be empty.
    pub fn wrapped_get(&self, x: isize, y: isize, z: isize) -> (r: &T)
        requires
            self@.width > 0,
            self@.height > 0,
            self@.depth > 0,
        ensures
            *r == self@.at(
                wrap(x as int, self@.width as int),
                wrap(y as int, self@.height as int),
                wrap(z as int, self@.depth as int),
            ),
    {
        let x = wrap_coord(x, self.xsize);
        let y = wrap_coord(y, self.ysize);
        let z = wrap_coord(z, self.zsize);
        self.get_unchecked(x, y, z)
    }

    /// Stores `new_val` in the cell that `(x, y, z)` wraps to. The array must not
    /// be empty.
    pub fn wrapped_set(&mut self, x: isize, y: isize, z: isize, new_val: T)
        requires
            old(self)@.width > 0,
            old(self)@.height > 0,
            old(self)@.depth > 0,
        ensures
            final(self)@ == old(self)@.put(
                wrap(x as int, old(self)@.width as int),
                wrap(y as int, old(self)@.height as int),
                wrap(z as int, old(self)@.depth as int),
                new_val,
            ),
    {
        let x = wrap_coord(x, self.xsize);
        let y = wrap_coord(y, self.ysize);
        let z = wrap_coord(z, self.zsize);
        self.set_unchecked(x, y, z, new_val);
    }

    /// The cell at `(x, y, z)`, or `None` for a coordinate outside the array.
    pub fn bounded_get(&self, x: isize, y: isize, z: isize) -> (r: Option<&T>)
        ensures
            match r {
                Some(v) => self@.contains(x as int, y as int, z as int) && *v == self@.at(
                    x as int,
                    y as int,
                    z as int,
                ),
                None => !self@.contains(x as int, y as int, z as int),
            },
    {
        if x >= 0 && y >= 0 && z >= 0 && (x as usize) < self.xsize && (y as usize) < self.ysize && (
        z as usize) < self.zsize {
            Some(self.get_unchecked(x as usize, y as usize, z as usize))
        } else {
            None
        }
    }

    /// Stores `new_val` in the cell at `(x, y, z)`; does nothing for a coordinate
    /// outside the array.
    pub fn bounded_set(&mut self, x: isize, y: isize, z: isize, new_val: T)
        ensures
            final(self)@ == if old(self)@.contains(x as int, y as int, z as int) {
                old(self)@.put(x as int, y as int, z as int, new_val)
            } else {
                old(self)@
            },
    {
        if x >= 0 && y >= 0 && z >= 0 && (x as usize) < self.xsize && (y as usize) < self.ysize && (
        z as usize) < self.zsize {
            self.set_unchecked(x as usize, y as usize, z as usize, new_val);
        }
    }

    /// An iterator over the cells of the array in storage order.
    pub fn iter(&self) -> (it: ZArray3DIterator<'_, T>)
        ensures
            it.grid() == self@,
            it.remaining() == traversal(self@.width, self@.height, self@.depth),
    {
        ZArray3DIterator::new(self)
    }

    /// The coordinates of all cells of the array in storage order: block after
    /// block, and inside a block in Z-order.
    pub fn coords(&self) -> (r: Vec<(usize, usize, usize)>)
        ensures
            r@ == traversal(self@.width, self@.height, self@.depth),
    {
        proof {
            use_type_invariant(self);
        }
        let ghost w = self.xsize as nat;
        let ghost h = self.ysize as nat;
        let ghost d = self.zsize as nat;
        let mut out: Vec<(usize, usize, usize)> = Vec::new();
        let mut pindex: usize = 0;
        while pindex < self.patches.len()
            invariant
                self.inv(),
                w == self.xsize,
                h == self.ysize,
                d == self.zsize,
                pindex <= self.patches.len(),
                out@ + traversal_from(w, h, d, (512 * pindex) as nat) == traversal(w, h, d),
            decreases self.patches.len() - pindex,
        {
            let mut index: usize = 0;
            while index < 512
                invariant
                    self.inv(),
                    w == self.xsize,
                    h == self.ysize,
                    d == self.zsize,
                    pindex < self.patches.len(),
                    index <= 512,
                    out@ + traversal_from(w, h, d, (512 * pindex + index) as nat) == traversal(
                        w,
                        h,
                        d,
                    ),
                decreases 512 - index,
            {
                let ghost slot = (512 * pindex + index) as nat;
                let ghost before = out@;
                match self.slot_cell(pindex, index) {
                    Some(c) => {
                        out.push(c);
                        assert(out@ + traversal_from(w, h, d, slot + 1) =~= before
                            + traversal_from(w, h, d, slot));
                    },
                    None => {},
                }
                index += 1;
            }
            pindex += 1;
        }
        assert(out@ + traversal_from(w, h, d, (512 * pindex) as nat) =~= out@);
        out
    }

    /// Replaces the value of every cell by what `transform_fn` makes of the cell's
    /// coordinate and value. The cells are visited in storage order, each once.
    pub fn transform(&mut self, transform_fn: impl Fn((usize, usize, usize), &T) -> T)
        requires
            forall|x: usize, y: usize, z: usize|
                #![trigger old(self)@.at(x as int, y as int, z as int)]
                old(self)@.contains(x as int, y as int, z as int) ==> call_requires(
                    transform_fn,
                    ((x, y, z), &old(self)@.at(x as int, y as int, z as int)),
                ),
        ensures
            final(self)@.width == old(self)@.width,
            final(self)@.height == old(self)@.height,
            final(self)@.depth == old(self)@.depth,
            final(self)@.wf(),
            forall|x: usize, y: usize, z: usize|
                old(self)@.contains(x as int, y as int, z as int) ==> call_ensures(
                    transform_fn,
                    ((x, y, z), &old(self)@.at(x as int, y as int, z as int)),
                    #[trigger] final(self)@.at(x as int, y as int, z as int),
                ),
    {
        proof {
            use_type_invariant(&*self);
        }
        let ghost start = self@;
        let ghost px = self.pxsize as nat;
        let ghost py = self.pysize as nat;
        let count = self.patches.len();
        let mut pindex: usize = 0;
        while pindex < count
            invariant
                self.inv(),
                count == self.patches.len(),
                px == self.pxsize,
                py == self.pysize,
                pindex <= count,
                start == old(self)@,
                self@.width == start.width,
                self@.height == start.height,
                self@.depth == start.depth,
                forall|x: usize, y: usize, z: usize|
                    #![trigger start.at(x as int, y as int, z as int)]
                    start.contains(x as int, y as int, z as int) ==> call_requires(
                        transform_fn,
                        ((x, y, z), &start.at(x as int, y as int, z as int)),
                    ),
                forall|x: usize, y: usize, z: usize|
                    #![trigger self@.at(x as int, y as int, z as int)]
                    start.contains(x as int, y as int, z as int) ==> if slot_of(
                        x as nat,
                        y as nat,
                        z as nat,
                        px,
                        py,
                    ) < 512 * pindex {
                        call_ensures(
                            transform_fn,
                            ((x, y, z), &start.at(x as int, y as int, z as int)),
                            self@.at(x as int, y as int, z as int),
                        )
                    } else {
                        self@.at(x as int, y as int, z as int) == start.at(
                            x as int,
                            y as int,
                            z as int,
                        )
                    },
            decreases count - pindex,
        {
            let mut index: usize = 0;
            while index < 512
                invariant
                    self.inv(),
                    count == self.patches.len(),
                    px == self.pxsize,
                    py == self.pysize,
                    pindex < count,
                    index <= 512,
                    start == old(self)@,
                    self@.width == start.width,
                    self@.height == start.height,
                    self@.depth == start.depth,
                    forall|x: usize, y: usize, z: usize|
                        #![trigger start.at(x as int, y as int, z as int)]
                        start.contains(x as int, y as int, z as int) ==> call_requires(
                            transform_fn,
                            ((x, y, z), &start.at(x as int, y as int, z as int)),
                        ),
                    forall|x: usize, y: usize, z: usize|
                        #![trigger self@.at(x as int, y as int, z as int)]
                        start.contains(x as int, y as int, z as int) ==> if slot_of(
                            x as nat,
                            y as nat,
                            z as nat,
                            px,
                            py,
                        ) < 512 * pindex + index {
                            call_ensures(
                                transform_fn,
                                ((x, y, z), &start.at(x as int, y as int, z as int)),
                                self@.at(x as int, y as int, z as int),
                            )
                        } else {
                            self@.at(x as int, y as int, z as int) == start.at(
                                x as int,
                                y as int,
                                z as int,
                            )
                        },
                decreases 512 - index,
            {
                match self.slot_cell(pindex, index) {
                    Some(c) => {
                        let ghost before = self@;
                        assert(before.at(c.0 as int, c.1 as int, c.2 as int) == start.at(
                            c.0 as int,
                            c.1 as int,
                            c.2 as int,
                        ));
                        assert(call_requires(
                            transform_fn,
                            ((c.0, c.1, c.2), &start.at(c.0 as int, c.1 as int, c.2 as int)),
                        ));
                        let new_val = transform_fn(c, self.get_unchecked(c.0, c.1, c.2));
                        self.set_unchecked(c.0, c.1, c.2, new_val);
                        proof {
                            use_type_invariant(&*self);
                            assert forall|x: usize, y: usize, z: usize|
                                #![trigger self@.at(x as int, y as int, z as int)]
                                start.contains(x as int, y as int, z as int) implies if slot_of(
                                x as nat,
                                y as nat,
                                z as nat,
                                px,
                                py,
                            ) < 512 * pindex + index + 1 {
                                call_ensures(
                                    transform_fn,
                                    ((x, y, z), &start.at(x as int, y as int, z as int)),
                                    self@.at(x as int, y as int, z as int),
                                )
                            } else {
                                self@.at(x as int, y as int, z as int) == start.at(
                                    x as int,
                                    y as int,
                                    z as int,
                                )
                            } by {
                                if x == c.0 && y == c.1 && z == c.2 {
                                } else {
                                    assert(self@.at(x as int, y as int, z as int) == before.at(
                                        x as int,
                                        y as int,
                                        z as int,
                                    ));
                                    if slot_of(x as nat, y as nat, z as nat, px, py) == 512 * pindex
                                        + index {
                                        lemma_slot_coord_of_slot_of(
                                            x as nat,
                                            y as nat,
                                            z as nat,
                                            start.width,
                                            start.height,
                                        );
                                    }
                                }
                            }
                        }
                    },
                    None => {
                        proof {
                            assert forall|x: usize, y: usize, z: usize|
                                start.contains(x as int, y as int, z as int) implies slot_of(
                                x as nat,
                                y as nat,
                                z as nat,
                                px,
                                py,
                            ) != 512 * pindex + index by {
                                lemma_slot_in_grid_of_cell(
                                    x as nat,
                                    y as nat,
                                    z as nat,
                                    start.width,
                                    start.height,
                                    start.depth,
                                );
                            }
                        }
                    },
                }
                index += 1;
            }
            pindex += 1;
        }
        proof {
            assert forall|x: usize, y: usize, z: usize|
                start.contains(x as int, y as int, z as int) implies call_ensures(
                transform_fn,
                ((x, y, z), &start.at(x as int, y as int, z as int)),
                #[trigger] self@.at(x as int, y as int, z as int),
            ) by {
                lemma_block_of_bound(
                    x as nat,
                    y as nat,
                    z as nat,
                    start.width,
                    start.height,
                    start.depth,
                );
                lemma_block_slot_bound(x as nat, y as nat, z as nat);
            }
        }
    }

    /// The coordinates of the cell in place `index` of block `patch`, unless the
    /// place lies outside the array.
    fn slot_cell(&self, patch: usize, index: usize) -> (r: Option<(usize, usize, usize)>)
        requires
            patch < self.patches.len(),
            index < 512,
        ensures
            match r {
                Some(c) => {
                    &&& slot_in_grid(
                        (512 * patch + index) as nat,
                        self@.width,
                        self@.height,
                        self@.depth,
                    )
                    &&& c == slot_coord(
                        (512 * patch + index) as nat,
                        blocks(self@.width),
                        blocks(self@.height),
                    )
                    &&& self@.contains(c.0 as int, c.1 as int, c.2 as int)
                    &&& self.patches@[patch as int].contents@[index as int] == self@.at(
                        c.0 as int,
                        c.1 as int,
                        c.2 as int,
                    )
                    &&& slot_of(
                        c.0 as nat,
                        c.1 as nat,
                        c.2 as nat,
                        blocks(self@.width),
                        blocks(self@.height),
                    ) == 512 * patch + index
                },
                None => !slot_in_grid(
                    (512 * patch + index) as nat,
                    self@.width,
                    self@.height,
                    self@.depth,
                ),
            },
    {
        proof {
            use_type_invariant(self);
            lemma_block_grid(
                patch as nat,
                self.xsize as nat,
                self.ysize as nat,
                self.zsize as nat,
            );
        }
        let bx: usize = (patch % self.pxsize) * 8;
        let by: usize = ((patch / self.pxsize) % self.pysize) * 8;
        let bz: usize = ((patch / self.pxsize) / self.pysize) * 8;
        let (dx, dy, dz) = zorder_9bit_to_3bit(index as u16);
        if (dx as usize) < self.xsize - bx && (dy as usize) < self.ysize - by && (dz as usize)
            < self.zsize - bz {
            let x: usize = bx + dx as usize;
            let y: usize = by + dy as usize;
            let z: usize = bz + dz as usize;
            proof {
                let slot = (512 * patch + index) as nat;
                assert(slot / 512 == patch && slot % 512 == index);
                assert(slot_in_grid(
                    slot,
                    self.xsize as nat,
                    self.ysize as nat,
                    self.zsize as nat,
                ));
                lemma_slot_of_slot_coord(
                    slot,
                    self.xsize as nat,
                    self.ysize as nat,
                    self.zsize as nat,
                );
                assert((x, y, z) == slot_coord(slot, self.pxsize as nat, self.pysize as nat));
                lemma_block_slot_bound(x as nat, y as nat, z as nat);
                assert(block_of(
                    x as nat,
                    y as nat,
                    z as nat,
                    self.pxsize as nat,
                    self.pysize as nat,
                ) == patch);
                assert(block_slot(x as nat, y as nat, z as nat) == index);
            }
            Some((x, y, z))
        } else {
            None
        }
    }
}

impl<T: Copy> ZArray3D<T> {
    /// An array of `xsize` by `ysize` by `zsize` cells that all hold `default_val`.
    pub fn new(xsize: usize, ysize: usize, zsize: usize, default_val: T) -> (r: ZArray3D<T>)
        requires
            block_count_fits(xsize as nat, ysize as nat, zsize as nat),
        ensures
            r@ == Grid3D::filled(xsize as nat, ysize as nat, zsize as nat, default_val),
    {
        proof {
            lemma_block_count_fits(xsize as nat, ysize as nat, zsize as nat);
        }
        let px = block_count(xsize);
        let py = block_count(ysize);
        let pz = block_count(zsize);
        let patch_count = patch_total(px, py, pz);
        let mut p: Vec<Patch<T>> = Vec::with_capacity(patch_count);
        for i in 0..patch_count
            invariant
                p@.len() == i,
                forall|j: int, k: int|
                    0 <= j < i && 0 <= k < 512 ==> (#[trigger] p@[j].contents@[k]) == default_val,
        {
            p.push(Patch { contents: [default_val;512] });
        }
        let r = ZArray3D { xsize, ysize, zsize, pxsize: px, pysize: py, patches: p };
        proof {
            let want = Grid3D::filled(xsize as nat, ysize as nat, zsize as nat, default_val);
            assert forall|cz: int, cy: int, cx: int|
                0 <= cz < zsize && 0 <= cy < ysize && 0 <= cx < xsize implies (
            #[trigger] r@.layers[cz][cy][cx]) == default_val by {
                lemma_block_of_bound(
                    cx as nat,
                    cy as nat,
                    cz as nat,
                    xsize as nat,
                    ysize as nat,
                    zsize as nat,
                );
                lemma_block_slot_bound(cx as nat, cy as nat, cz as nat);
            }
            assert(r@.layers =~~= want.layers);
        }
        r
    }

    /// Stores `new_val` in every cell of the box `[x1, x2)` by `[y1, y2)` by
    /// `[z1, z2)`, layer by layer, and row by row inside a layer. At the first
    /// coordinate outside the array it stops and returns the error of that
    /// coordinate; the cells before it keep `new_val`.
    pub fn fill(
        &mut self,
        x1: usize,
        y1: usize,
        z1: usize,
        x2: usize,
        y2: usize,
        z2: usize,
        new_val: T,
    ) -> (r: Result<(), LookUpError>)
        ensures
            match r {
                Ok(_) => old(self)@.first_outside(
                    x1 as int,
                    y1 as int,
                    z1 as int,
                    x2 as int,
                    y2 as int,
                    z2 as int,
                ) is None && final(self)@ == old(self)@.fill_box(
                    x1 as int,
                    y1 as int,
                    z1 as int,
                    x2 as int,
                    y2 as int,
                    z2 as int,
                    new_val,
                ),
                Err(e) => {
                    let first = old(self)@.first_outside(
                        x1 as int,
                        y1 as int,
                        z1 as int,
                        x2 as int,
                        y2 as int,
                        z2 as int,
                    );
                    &&& first is Some
                    &&& e.spec_coord() == seq![
                        first.unwrap().0 as usize,
                        first.unwrap().1 as usize,
                        first.unwrap().2 as usize,
                    ]
                    &&& e.spec_bounds() == seq![
                        old(self)@.width as usize,
                        old(self)@.height as usize,
                        old(self)@.depth as usize,
                    ]
                    &&& final(self)@ == old(self)@.fill_box_before(
                        x1 as int,
                        y1 as int,
                        z1 as int,
                        x2 as int,
                        y2 as int,
                        z2 as int,
                        first.unwrap().0,
                        first.unwrap().1,
                        first.unwrap().2,
                        new_val,
                    )
                },
            },
    {
        let ghost start = self@;
        let mut z = z1;
        assert(self@.layers =~~= start.fill_box_before(
            x1 as int,
            y1 as int,
            z1 as int,
            x2 as int,
            y2 as int,
            z2 as int,
            x1 as int,
            y1 as int,
            z as int,
            new_val,
        ).layers);
        while z < z2
            invariant
                z1 <= z,
                z <= z2 || z == z1,
                start == old(self)@,
                (x1 < x2 && y1 < y2 && z > z1) ==> x2 <= start.width && y2 <= start.height && z
                    <= start.depth,
                self@ == start.fill_box_before(
                    x1 as int,
                    y1 as int,
                    z1 as int,
                    x2 as int,
                    y2 as int,
                    z2 as int,
                    x1 as int,
                    y1 as int,
                    z as int,
                    new_val,
                ),
            decreases z2 - z,
        {
            let mut y = y1;
            while y < y2
                invariant
                    z1 <= z < z2,
                    y1 <= y,
                    y <= y2 || y == y1,
                    start == old(self)@,
                    (x1 < x2 && y1 < y2 && z > z1) ==> x2 <= start.width && y2 <= start.height
                        && z <= start.depth,
                    (x1 < x2 && y > y1) ==> x2 <= start.width && y <= start.height && z
                        < start.depth,
                    self@ == start.fill_box_before(
                        x1 as int,
                        y1 as int,
                        z1 as int,
                        x2 as int,
                        y2 as int,
                        z2 as int,
                        x1 as int,
                        y as int,
                        z as int,
                        new_val,
                    ),
                decreases y2 - y,
            {
                let mut x = x1;
                while x < x2
                    invariant
                        z1 <= z < z2,
                        y1 <= y < y2,
                        x1 <= x,
                        x <= x2 || x == x1,
                        start == old(self)@,
                        (x1 < x2 && y1 < y2 && z > z1) ==> x2 <= start.width && y2
                            <= start.height && z <= start.depth,
                        (x1 < x2 && y > y1) ==> x2 <= start.width && y <= start.height && z
                            < start.depth,
                        x > x1 ==> x <= start.width && y < start.height && z < start.depth,
                        self@ == start.fill_box_before(
                            x1 as int,
                            y1 as int,
                            z1 as int,
                            x2 as int,
                            y2 as int,
                            z2 as int,
                            x as int,
                            y as int,
                            z as int,
                            new_val,
                        ),
                    decreases x2 - x,
                {
                    match self.set(x, y, z, new_val) {
                        Ok(_) => {},
                        Err(e) => {
                            return Err(e);
                        },
                    }
                    assert(self@.layers =~~= start.fill_box_before(
                        x1 as int,
                        y1 as int,
                        z1 as int,
                        x2 as int,
                        y2 as int,
                        z2 as int,
                        x + 1,
                        y as int,
                        z as int,
                        new_val,
                    ).layers);
                    x += 1;
                }
                assert(self@.layers =~~= start.fill_box_before(
                    x1 as int,
                    y1 as int,
                    z1 as int,
                    x2 as int,
                    y2 as int,
                    z2 as int,
                    x1 as int,
                    y + 1,
                    z as int,
                    new_val,
                ).layers);
                y += 1;
            }
            assert(self@.layers =~~= start.fill_box_before(
                x1 as int,
                y1 as int,
                z1 as int,
                x2 as int,
                y2 as int,
                z2 as int,
                x1 as int,
                y1 as int,
                z + 1,
                new_val,
            ).layers);
            z += 1;
        }
        assert(self@.layers =~~= start.fill_box(
            x1 as int,
            y1 as int,
            z1 as int,
            x2 as int,
            y2 as int,
            z2 as int,
            new_val,
        ).layers);
        Ok(())
    }

    /// Stores `new_val` in every cell that a coordinate of the box `[x1, x2)` by
    /// `[y1, y2)` by `[z1, z2)` wraps to. The array must not be empty.
    pub fn wrapped_fill(
        &mut self,
        x1: isize,
        y1: isize,
        z1: isize,
        x2: isize,
        y2: isize,
        z2: isize,
        new_val: T,
    )
        requires
            old(self)@.width > 0,
            old(self)@.height > 0,
            old(self)@.depth > 0,
        ensures
            final(self)@ == old(self)@.wrapped_fill_box(
                x1 as int,
                y1 as int,
                z1 as int,
                x2 as int,
                y2 as int,
                z2 as int,
                new_val,
            ),
    {
        let ghost start = self@;
        let ghost w = start.width as int;
        let ghost h = start.height as int;
        let ghost d = start.depth as int;
        let mut z = z1;
        assert(self@.layers =~~= start.wrapped_fill_before(
            x1 as int,
            y1 as int,
            z1 as int,
            x2 as int,
            y2 as int,
            x1 as int,
            y1 as int,
            z as int,
            new_val,
        ).layers);
        while z < z2
            invariant
                z1 <= z,
                z <= z2 || z == z1,
                w == start.width,
                h == start.height,
                d == start.depth,
                w > 0 && h > 0 && d > 0,
                self@ == start.wrapped_fill_before(
                    x1 as int,
                    y1 as int,
                    z1 as int,
                    x2 as int,
                    y2 as int,
                    x1 as int,
                    y1 as int,
                    z as int,
                    new_val,
                ),
            decreases z2 - z,
        {
            let mut y = y1;
            while y < y2
                invariant
                    z1 <= z < z2,
                    y1 <= y,
                    y <= y2 || y == y1,
                    w == start.width,
                    h == start.height,
                    d == start.depth,
                    w > 0 && h > 0 && d > 0,
                    self@ == start.wrapped_fill_before(
                        x1 as int,
                        y1 as int,
                        z1 as int,
                        x2 as int,
                        y2 as int,
                        x1 as int,
                        y as int,
                        z as int,
                        new_val,
                    ),
                decreases y2 - y,
            {
                let mut x = x1;
                while x < x2
                    invariant
                        z1 <= z < z2,
                        y1 <= y < y2,
                        x1 <= x,
                        x <= x2 || x == x1,
                        w == start.width,
                        h == start.height,
                        d == start.depth,
                        w > 0 && h > 0 && d > 0,
                        self@ == start.wrapped_fill_before(
                            x1 as int,
                            y1 as int,
                            z1 as int,
                            x2 as int,
                            y2 as int,
                            x as int,
                            y as int,
                            z as int,
                            new_val,
                        ),
                    decreases x2 - x,
                {
                    self.wrapped_set(x, y, z, new_val);
                    proof {
                        vstd::arithmetic::div_mod::lemma_mod_bound(x as int, w);
                        vstd::arithmetic::div_mod::lemma_mod_bound(y as int, h);
                        vstd::arithmetic::div_mod::lemma_mod_bound(z as int, d);
                        assert forall|c: int| #[trigger]
                            wraps_into(x1 as int, x + 1, w, c) <==> (wraps_into(
                                x1 as int,
                                x as int,
                                w,
                                c,
                            ) || wrap(x as int, w) == c) by {
                            lemma_wraps_into_next(x1 as int, x as int, w, c);
                        }
                        assert(self@.layers =~~= start.wrapped_fill_before(
                            x1 as int,
                            y1 as int,
                            z1 as int,
                            x2 as int,
                            y2 as int,
                            x + 1,
                            y as int,
                            z as int,
                            new_val,
                        ).layers);
                    }
                    x += 1;
                }
                proof {
                    assert forall|c: int| #[trigger]
                        wraps_into(y1 as int, y + 1, h, c) <==> (wraps_into(
                            y1 as int,
                            y as int,
                            h,
                            c,
                        ) || wrap(y as int, h) == c) by {
                        lemma_wraps_into_next(y1 as int, y as int, h, c);
                    }
                    assert(self@.layers =~~= start.wrapped_fill_before(
                        x1 as int,
                        y1 as int,
                        z1 as int,
                        x2 as int,
                        y2 as int,
                        x1 as int,
                        y + 1,
                        z as int,
                        new_val,
                    ).layers);
                }
                y += 1;
            }
            proof {
                assert forall|c: int| #[trigger]
                    wraps_into(z1 as int, z + 1, d, c) <==> (wraps_into(
                        z1 as int,
                        z as int,
                        d,
                        c,
                    ) || wrap(z as int, d) == c) by {
                    lemma_wraps_into_next(z1 as int, z as int, d, c);
                }
                assert(self@.layers =~~= start.wrapped_fill_before(
                    x1 as int,
                    y1 as int,
                    z1 as int,
                    x2 as int,
                    y2 as int,
                    x1 as int,
                    y1 as int,
                    z + 1,
                    new_val,
                ).layers);
            }
            z += 1;
        }
        assert(self@.layers =~~= start.wrapped_fill_box(
            x1 as int,
            y1 as int,
            z1 as int,
            x2 as int,
            y2 as int,
            z2 as int,
            new_val,
        ).layers);
    }

    /// Stores `new_val` in every cell of the box `[x1, x2)` by `[y1, y2)` by
    /// `[z1, z2)` that lies inside the array.
    pub fn bounded_fill(
        &mut self,
        x1: isize,
        y1: isize,
        z1: isize,
        x2: isize,
        y2: isize,
        z2: isize,
        new_val: T,
    )
        ensures
            final(self)@ == old(self)@.fill_box(
                x1 as int,
                y1 as int,
                z1 as int,
                x2 as int,
                y2 as int,
                z2 as int,
                new_val,
            ),
    {
        let ghost start = self@;
        let mut z = z1;
        assert(self@.layers =~~= start.fill_box_before(
            x1 as int,
            y1 as int,
            z1 as int,
            x2 as int,
            y2 as int,
            z2 as int,
            x1 as int,
            y1 as int,
            z as int,
            new_val,
        ).layers);
        while z < z2
            invariant
                z1 <= z,
                z <= z2 || z == z1,
                self@ == start.fill_box_before(
                    x1 as int,
                    y1 as int,
                    z1 as int,
                    x2 as int,
                    y2 as int,
                    z2 as int,
                    x1 as int,
                    y1 as int,
                    z as int,
                    new_val,
                ),
            decreases z2 - z,
        {
            let mut y = y1;
            while y < y2
                invariant
                    z1 <= z < z2,
                    y1 <= y,
                    y <= y2 || y == y1,
                    self@ == start.fill_box_before(
                        x1 as int,
                        y1 as int,
                        z1 as int,
                        x2 as int,
                        y2 as int,
                        z2 as int,
                        x1 as int,
                        y as int,
                        z as int,
                        new_val,
                    ),
                decreases y2 - y,
            {
                let mut x = x1;
                while x < x2
                    invariant
                        z1 <= z < z2,
                        y1 <= y < y2,
                        x1 <= x,
                        x <= x2 || x == x1,
                        self@ == start.fill_box_before(
                            x1 as int,
                            y1 as int,
                            z1 as int,
                            x2 as int,
                            y2 as int,
                            z2 as int,
                            x as int,
                            y as int,
                            z as int,
                            new_val,
                        ),
                    decreases x2 - x,
                {
                    self.bounded_set(x, y, z, new_val);
                    assert(self@.layers =~~= start.fill_box_before(
                        x1 as int,
                        y1 as int,
                        z1 as int,
                        x2 as int,
                        y2 as int,
                        z2 as int,
                        x + 1,
                        y as int,
                        z as int,
                        new_val,
                    ).layers);
                    x += 1;
                }
                assert(self@.layers =~~= start.fill_box_before(
                    x1 as int,
                    y1 as int,
                    z1 as int,
                    x2 as int,
                    y2 as int,
                    z2 as int,
                    x1 as int,
                    y + 1,
                    z as int,
                    new_val,
                ).layers);
                y += 1;
            }
            assert(self@.layers =~~= start.fill_box_before(
                x1 as int,
                y1 as int,
                z1 as int,
                x2 as int,
                y2 as int,
                z2 as int,
                x1 as int,
                y1 as int,
                z + 1,
                new_val,
            ).layers);
            z += 1;
        }
        assert(self@.layers =~~= start.fill_box(
            x1 as int,
            y1 as int,
            z1 as int,
            x2 as int,
            y2 as int,
            z2 as int,
            new_val,
        ).layers);
    }
}

impl<T: Default> ZArray3D<T> {
    /// An array of `xsize` by `ysize` by `zsize` cells that all hold a default value
    /// of `T`.
    pub fn new_with_default(xsize: usize, ysize: usize, zsize: usize) -> (r: ZArray3D<T>)
        requires
            block_count_fits(xsize as nat, ysize as nat, zsize as nat),
        ensures
            r@.width == xsize,
            r@.height == ysize,
            r@.depth == zsize,
            r@.wf(),
            forall|x: int, y: int, z: int|
                r@.contains(x, y, z) ==> call_ensures(T::default, (), #[trigger] r@.at(x, y, z)),
    {
        proof {
            lemma_block_count_fits(xsize as nat, ysize as nat, zsize as nat);
        }
        let px = block_count(xsize);
        let py = block_count(ysize);
        let pz = block_count(zsize);
        let patch_count = patch_total(px, py, pz);
        let mut p: Vec<Patch<T>> = Vec::with_capacity(patch_count);
        for i in 0..patch_count
            invariant
                p@.len() == i,
                forall|j: int, k: int|
                    0 <= j < i && 0 <= k < 512 ==> call_ensures(
                        T::default,
                        (),
                        #[trigger] p@[j].contents@[k],
                    ),
        {
            let make = |k: usize| -> (v: T)
                ensures
                    call_ensures(T::default, (), v),
                { T::default() };
            let default_contents: [T; 512] = init_array(make);
            p.push(Patch { contents: default_contents });
        }
        let r = ZArray3D { xsize, ysize, zsize, pxsize: px, pysize: py, patches: p };
        proof {
            assert forall|x: int, y: int, z: int| r@.contains(x, y, z) implies call_ensures(
                T::default,
                (),
                #[trigger] r@.at(x, y, z),
            ) by {
                lemma_block_of_bound(
                    x as nat,
                    y as nat,
                    z as nat,
                    xsize as nat,
                    ysize as nat,
                    zsize as nat,
                );
                lemma_block_slot_bound(x as nat, y as nat, z as nat);
            }
        }
        r
    }
}

impl<T: Clone> Clone for ZArray3D<T> {
    /// An array of the same size in which every cell is a clone of the cell at the
    /// same coordinate.
    fn clone(&self) -> (r: Self)
        ensures
            r@.width == self@.width,
            r@.height == self@.height,
            r@.depth == self@.depth,
            r@.wf(),
            forall|x: int, y: int, z: int|
                self@.contains(x, y, z) ==> cloned(self@.at(x, y, z), #[trigger] r@.at(x, y, z)),
    {
        proof {
            use_type_invariant(self);
        }
        let mut p: Vec<Patch<T>> = Vec::with_capacity(self.patches.len());
        for i in 0..self.patches.len()
            invariant
                p@.len() == i,
                forall|j: int, k: int|
                    0 <= j < i && 0 <= k < 512 ==> cloned(
                        self.patches@[j].contents@[k],
                        #[trigger] p@[j].contents@[k],
                    ),
        {
            p.push(Patch { contents: self.patches[i].contents.clone() });
        }
        let r = ZArray3D {
            xsize: self.xsize,
            ysize: self.ysize,
            zsize: self.zsize,
            pxsize: self.pxsize,
            pysize: self.pysize,
            patches: p,
        };
        proof {
            assert forall|x: int, y: int, z: int| self@.contains(x, y, z) implies cloned(
                self@.at(x, y, z),
                #[trigger] r@.at(x, y, z),
            ) by {
                lemma_block_of_bound(
                    x as nat,
                    y as nat,
                    z as nat,
                    self.xsize as nat,
                    self.ysize as nat,
                    self.zsize as nat,
                );
                lemma_block_slot_bound(x as nat, y as nat, z as nat);
                let b = block_of(
                    x as nat,
                    y as nat,
                    z as nat,
                    self.pxsize as nat,
                    self.pysize as nat,
                ) as int;
                let k = block_slot(x as nat, y as nat, z as nat) as int;
                assert(cloned(self.patches@[b].contents@[k], r.patches@[b].contents@[k]));
            }
        }
        r
    }
}

/// What the iterator over a `ZArray3D` yields: a coordinate and a reference to
/// the value of its cell.
#[derive(Debug)]
pub struct ZArray3DIteratorItem<'a, T> {
    /// x-dimension coordinate
    pub x: usize,
    /// y-dimension coordinate
    pub y: usize,
    /// z-dimension coordinate
    pub z: usize,
    /// reference to value at this coordinate
    pub value: &'a T,
}

/// Where an iterator stands: before the first cell, at a cell, or past the last.
enum IterState {
    Start,
    Processing,
    Done,
}

/// Walks the cells of a `ZArray3D` in the order of their storage places: block
/// after block, and inside a block in Z-order.
pub struct ZArray3DIterator<'a, T> {
    array: &'a ZArray3D<T>,
    patch: usize,
    index: usize,
    state: IterState,
}

impl<'a, T> ZArray3DIterator<'a, T> {
    /// The place of the iterator lies inside the storage of its array.
    #[verifier::type_invariant]
    spec fn inv(&self) -> bool {
        &&& self.index < 512
        &&& self.array.inv()
        &&& self.state is Start ==> self.patch == 0 && self.index == 0 && self.array.xsize > 0
            && self.array.ysize > 0 && self.array.zsize > 0
        &&& self.state is Processing ==> self.patch < self.array.patches.len()
    }

    /// The array that the iterator walks.
    pub closed spec fn grid(&self) -> Grid3D<T> {
        self.array@
    }

    /// The coordinates of the cells that the iterator has yet to yield, in order.
    pub closed spec fn remaining(&self) -> Seq<(usize, usize, usize)> {
        match self.state {
            IterState::Start => traversal(
                self.array.xsize as nat,
                self.array.ysize as nat,
                self.array.zsize as nat,
            ),
            IterState::Processing => traversal_from(
                self.array.xsize as nat,
                self.array.ysize as nat,
                self.array.zsize as nat,
                (512 * self.patch + self.index + 1) as nat,
            ),
            IterState::Done => Seq::empty(),
        }
    }

    /// An iterator before the first cell of `array`, or past the last if `array` is
    /// empty.
    fn new(array: &'a ZArray3D<T>) -> (it: ZArray3DIterator<'a, T>)
        ensures
            it.grid() == array@,
            it.remaining() == traversal(array@.width, array@.height, array@.depth),
    {
        proof {
            use_type_invariant(array);
        }
        if array.xsize == 0 || array.ysize == 0 || array.zsize == 0 {
            assert(block_total(array.xsize as nat, array.ysize as nat, array.zsize as nat) == 0)
                by (nonlinear_arith)
                requires
                    blocks(array.xsize as nat) == 0 || blocks(array.ysize as nat) == 0 || blocks(
                        array.zsize as nat,
                    ) == 0,
            ;
            ZArray3DIterator { array, patch: 0, index: 0, state: IterState::Done }
        } else {
            ZArray3DIterator { array, patch: 0, index: 0, state: IterState::Start }
        }
    }

    /// The next cell in storage order, or `None` when every cell has been yielded.
    pub fn next(&mut self) -> (r: Option<ZArray3DIteratorItem<'a, T>>)
        ensures
            final(self).grid() == old(self).grid(),
            match r {
                Some(item) => {
                    &&& old(self).remaining().len() > 0
                    &&& (item.x, item.y, item.z) == old(self).remaining()[0]
                    &&& old(self).grid().contains(item.x as int, item.y as int, item.z as int)
                    &&& *item.value == old(self).grid().at(
                        item.x as int,
                        item.y as int,
                        item.z as int,
                    )
                    &&& final(self).remaining() == old(self).remaining().drop_first()
                },
                None => old(self).remaining().len() == 0 && final(self).remaining().len() == 0,
            },
    {
        proof {
            use_type_invariant(&*self);
        }
        let array = self.array;
        let ghost w = array.xsize as nat;
        let ghost h = array.ysize as nat;
        let ghost d = array.zsize as nat;
        match self.state {
            IterState::Done => None,
            IterState::Start => {
                proof {
                    assert(block_total(w, h, d) > 0) by (nonlinear_arith)
                        requires
                            blocks(w) > 0,
                            blocks(h) > 0,
                            blocks(d) > 0,
                            block_total(w, h, d) == blocks(w) * blocks(h) * blocks(d),
                    ;
                }
                self.state = IterState::Processing;
                proof {
                    lemma_first_slot(w, h, d);
                    assert(traversal_from(w, h, d, 0).drop_first() =~= traversal_from(w, h, d, 1));
                }
                Some(
                    ZArray3DIteratorItem {
                        x: 0,
                        y: 0,
                        z: 0,
                        value: &array.patches[0].contents[0],
                    },
                )
            },
            IterState::Processing => {
                let mut patch = self.patch;
                let mut index = self.index;
                loop
                    invariant
                        index < 512,
                        patch < array.patches.len(),
                        array.inv(),
                        w == array.xsize,
                        h == array.ysize,
                        d == array.zsize,
                        self.array == array,
                        self.inv(),
                        self.state is Processing,
                        self.grid() == old(self).grid(),
                        old(self).remaining() == traversal_from(
                            w,
                            h,
                            d,
                            (512 * patch + index + 1) as nat,
                        ),
                    decreases 512 * array.patches.len() - (512 * patch + index),
                {
                    index += 1;
                    if index >= 512 {
                        index = 0;
                        patch += 1;
                    }
                    if patch >= array.patches.len() {
                        self.state = IterState::Done;
                        return None;
                    }
                    match array.slot_cell(patch, index) {
                        Some(c) => {
                            self.patch = patch;
                            self.index = index;
                            proof {
                                let slot = (512 * patch + index) as nat;
                                assert(traversal_from(w, h, d, slot).drop_first()
                                    =~= traversal_from(w, h, d, slot + 1));
                            }
                            return Some(
                                ZArray3DIteratorItem {
                                    x: c.0,
                                    y: c.1,
                                    z: c.2,
                                    value: &array.patches[patch].contents[index],
                                },
                            );
                        },
                        None => {},
                    }
                }
            },
        }
    }
}

} // verus!
