//! Two-dimensional arrays stored in blocks of 8 by 8 cells, each block in Z-order.

use vstd::prelude::*;
use vstd::arithmetic::power2::lemma2_to64;
use crate::LookUpError;
use crate::init::init_array;
use crate::extent::{blocks, block_count, wrap, wrap_coord, wraps_into, lemma_wraps_into_next};
use crate::grid2d::Grid2D;
use crate::interleave::{
    interleave2, deinterleave2, lemma_interleave2_split, lemma_interleave2_low_bits,
    lemma_deinterleave2_low_bits, lemma_interleave2_spare_bits, lemma_interleave2_bound,
};
use crate::layout2d::{
    block_slot, block_of, block_count_fits, slot_of, slot_coord, slot_in_grid, traversal_from,
    traversal, lemma_block_count_fits, lemma_block_of_bound, lemma_block_slot_bound,
    lemma_cell_places_differ, lemma_padded_block, lemma_block_grid, lemma_first_slot,
    lemma_slot_coord_of_slot_of, lemma_slot_of_slot_coord, lemma_slot_in_grid_of_cell,
};

verus! {

/// For each nibble, its bits moved apart: bit `i` stands at bit `2 * i`.
const ZLUT: [u8; 16] = [
    0b00000000,
    0b00000001,
    0b00000100,
    0b00000101,
    0b00010000,
    0b00010001,
    0b00010100,
    0b00010101,
    0b01000000,
    0b01000001,
    0b01000100,
    0b01000101,
    0b01010000,
    0b01010001,
    0b01010100,
    0b01010101,
];

/// For each index inside a block, its coordinates packed as `0byyyxxx`.
const REVERSE_ZLUT: [u8; 64] = [
    0, 1, 8, 9, 2, 3, 10, 11, 16, 17, 24, 25, 18, 19, 26, 27,
    4, 5, 12, 13, 6, 7, 14, 15, 20, 21, 28, 29, 22, 23, 30, 31,
    32, 33, 40, 41, 34, 35, 42, 43, 48, 49, 56, 57, 50, 51, 58, 59,
    36, 37, 44, 45, 38, 39, 46, 47, 52, 53, 60, 61, 54, 55, 62, 63,
];

/// The values that `ZLUT` holds: those with no bit at an odd position.
spec fn is_spread(v: u8) -> bool {
    v & 0xAA == 0
}

/// What `ZLUT` holds for a nibble: the index that the nibble gives on the first
/// axis alone.
proof fn lemma_zlut(n: int)
    requires
        0 <= n < 16,
    ensures
        ZLUT[n] as nat == interleave2(n as nat, 0, 4),
        is_spread(ZLUT[n]),
{
    reveal_with_fuel(interleave2, 5);
    assert(is_spread(0) && is_spread(1) && is_spread(4) && is_spread(5) && is_spread(16)
        && is_spread(17) && is_spread(20) && is_spread(21) && is_spread(64) && is_spread(65)
        && is_spread(68) && is_spread(69) && is_spread(80) && is_spread(81) && is_spread(84)
        && is_spread(85)) by (bit_vector);
}

/// What `REVERSE_ZLUT` holds for an index: its coordinates inside a block.
proof fn lemma_reverse_zlut(i: int)
    requires
        0 <= i < 64,
    ensures
        REVERSE_ZLUT[i] as nat == deinterleave2(i as nat, 3).x + 8 * deinterleave2(i as nat, 3).y,
{
    reveal_with_fuel(deinterleave2, 4);
}

/// An index is the sum of what each axis gives alone.
proof fn lemma_interleave2_axes(x: nat, y: nat, bits: nat)
    ensures
        interleave2(x, y, bits) == interleave2(x, 0, bits) + 2 * interleave2(y, 0, bits),
    decreases bits,
{
    if bits > 0 {
        lemma_interleave2_axes(x / 2, y / 2, (bits - 1) as nat);
        assert(interleave2(0, 0, (bits - 1) as nat) == 0) by {
            lemma_interleave2_axes(0, 0, (bits - 1) as nat);
        }
    }
}

/// Z-curve index of a coordinate of four bits per axis: for `x = 0b0000xxxx` and
/// `y = 0b0000yyyy` the result is `0byxyxyxyx`. Higher bits of `x` and `y` are
/// not used.
pub fn zorder_4bit_to_8bit(x: u8, y: u8) -> (r: u8)
    ensures
        r as nat == interleave2(x as nat, y as nat, 4),
{
    let xi: u8 = x & 0x0F;
    let yi: u8 = y & 0x0F;
    proof {
        assert(xi == x % 16 && yi == y % 16) by (bit_vector)
            requires
                xi == x & 0x0F,
                yi == y & 0x0F,
        ;
    }
    let x_bits: u8 = ZLUT[xi as usize];
    let y_half: u8 = ZLUT[yi as usize];
    proof {
        lemma_zlut(xi as int);
        lemma_zlut(yi as int);
        assert(y_half <= 0x55 && (y_half << 1) | x_bits == 2 * y_half + x_bits) by (bit_vector)
            requires
                is_spread(x_bits),
                is_spread(y_half),
        ;
        lemma2_to64();
        lemma_interleave2_low_bits(x as nat, y as nat, 4);
        lemma_interleave2_axes(xi as nat, yi as nat, 4);
    }
    let y_bits: u8 = y_half << 1;
    y_bits | x_bits
}

/// Z-curve index of a coordinate of eight bits per axis: bit `i` of `x` stands at
/// bit `2 * i` of the result, bit `i` of `y` at bit `2 * i + 1`.
pub fn zorder_8bit_to_16bit(x: u8, y: u8) -> (r: u16)
    ensures
        r as nat == interleave2(x as nat, y as nat, 8),
{
    let xh: u8 = x >> 4;
    let yh: u8 = y >> 4;
    let high: u8 = zorder_4bit_to_8bit(xh, yh);
    let low: u8 = zorder_4bit_to_8bit(x, y);
    proof {
        assert(xh == x / 16 && yh == y / 16) by (bit_vector)
            requires
                xh == x >> 4,
                yh == y >> 4,
        ;
        assert(((high as u16) << 8) | (low as u16) == 256 * high + low) by (bit_vector);
        lemma2_to64();
        lemma_interleave2_split(x as nat, y as nat, 4, 4);
    }
    ((high as u16) << 8) | (low as u16)
}

/// Z-curve index of a coordinate of sixteen bits per axis: bit `i` of `x` stands
/// at bit `2 * i` of the result, bit `i` of `y` at bit `2 * i + 1`.
pub fn zorder_16bit_to_32bit(x: u16, y: u16) -> (r: u32)
    ensures
        r as nat == interleave2(x as nat, y as nat, 16),
{
    let xh: u8 = (x >> 8) as u8;
    let yh: u8 = (y >> 8) as u8;
    let xl: u8 = (x & 0xFF) as u8;
    let yl: u8 = (y & 0xFF) as u8;
    let high: u16 = zorder_8bit_to_16bit(xh, yh);
    let low: u16 = zorder_8bit_to_16bit(xl, yl);
    proof {
        assert(x >> 8 == x / 256 && x >> 8 < 256 && x & 0xFF == x % 256) by (bit_vector);
        assert(y >> 8 == y / 256 && y >> 8 < 256 && y & 0xFF == y % 256) by (bit_vector);
        assert(((high as u32) << 16) | (low as u32) == 65536 * high + low) by (bit_vector);
        lemma2_to64();
        lemma_interleave2_split(x as nat, y as nat, 8, 8);
        lemma_interleave2_low_bits(x as nat, y as nat, 8);
    }
    ((high as u32) << 16) | (low as u32)
}

/// The coordinates inside a block of the cell at `index`, the inverse of the
/// Z-curve index of three bits per axis. Only the lower six bits of `index` are
/// used.
pub fn zorder_6bit_to_3bit(index: u8) -> (r: (u8, u8))
    ensures
        r.0 as nat == deinterleave2(index as nat, 3).x,
        r.1 as nat == deinterleave2(index as nat, 3).y,
        r.0 < 8,
        r.1 < 8,
{
    let i: u8 = index & 0x3F;
    proof {
        assert(i == index % 64) by (bit_vector)
            requires
                i == index & 0x3F,
        ;
        lemma_reverse_zlut(i as int);
        lemma2_to64();
        lemma_deinterleave2_low_bits(index as nat, 3);
    }
    let packed: u8 = REVERSE_ZLUT[i as usize];
    let dx: u8 = packed & 0x07;
    let dy: u8 = (packed >> 3) & 0x07;
    proof {
        assert(dx == packed % 8 && dy == (packed / 8) % 8) by (bit_vector)
            requires
                dx == packed & 0x07,
                dy == (packed >> 3) & 0x07,
        ;
    }
    (dx, dy)
}

/// A block of 8 by 8 cells in Z-order.
#[derive(Debug, PartialEq, Eq, Hash)]
struct Patch<T> {
    contents: [T; 64],
}

impl<T> Patch<T> {
    /// The cell at the lower three bits of `x` and `y`.
    fn get(&self, x: usize, y: usize) -> (r: &T)
        ensures
            block_slot(x as nat, y as nat) < 64,
            *r == self.contents@[block_slot(x as nat, y as nat) as int],
    {
        let i = local_index(x, y);
        &self.contents[i]
    }

    /// Stores `new_val` at the lower three bits of `x` and `y`.
    fn set(&mut self, x: usize, y: usize, new_val: T)
        ensures
            block_slot(x as nat, y as nat) < 64,
            final(self).contents@ == old(self).contents@.update(
                block_slot(x as nat, y as nat) as int,
                new_val,
            ),
    {
        let i = local_index(x, y);
        self.contents[i] = new_val;
    }
}

/// Index inside a block of the cell at the lower three bits of `x` and `y`.
fn local_index(x: usize, y: usize) -> (i: usize)
    ensures
        i == block_slot(x as nat, y as nat),
        i < 64,
{
    let lx: u8 = (x & 0x07) as u8;
    let ly: u8 = (y & 0x07) as u8;
    proof {
        assert(x & 0x07 == x % 8 && y & 0x07 == y % 8) by (bit_vector);
        lemma2_to64();
        lemma_interleave2_spare_bits(lx as nat, ly as nat, 3, 1);
        lemma_interleave2_bound(lx as nat, ly as nat, 3);
    }
    zorder_4bit_to_8bit(lx, ly) as usize
}

/// Index, in the sequence of blocks, of the block that holds the cell at `(x, y)`.
fn patch_index(x: usize, y: usize, pwidth: usize) -> (r: usize)
    requires
        block_of(x as nat, y as nat, pwidth as nat) <= usize::MAX,
    ensures
        r == block_of(x as nat, y as nat, pwidth as nat),
{
    let bx: usize = x >> 3;
    let by: usize = y >> 3;
    assert(x >> 3 == x / 8 && y >> 3 == y / 8) by (bit_vector);
    assert(by * pwidth >= 0) by (nonlinear_arith);
    bx + by * pwidth
}

/// The coordinates of the 64 cells of block `pindex`, in the order in which the
/// block stores them, for a grid `pwidth` blocks wide.
pub fn patch_coords(pwidth: usize, pindex: usize) -> (r: [(usize, usize); 64])
    requires
        pwidth > 0,
        8 * (pindex % pwidth) + 7 <= usize::MAX,
        8 * (pindex / pwidth) + 7 <= usize::MAX,
    ensures
        forall|i: int|
            0 <= i < 64 ==> #[trigger] r@[i] == slot_coord(
                (64 * pindex + i) as nat,
                pwidth as nat,
            ),
{
    let mut outbuffer = [(0usize, 0usize);64];
    let bx: usize = (pindex % pwidth) * 8;
    let by: usize = (pindex / pwidth) * 8;
    let mut i: usize = 0;
    while i < 64
        invariant
            0 <= i <= 64,
            pwidth > 0,
            bx == 8 * (pindex % pwidth),
            by == 8 * (pindex / pwidth),
            bx + 7 <= usize::MAX,
            by + 7 <= usize::MAX,
            forall|j: int|
                0 <= j < i ==> #[trigger] outbuffer@[j] == slot_coord(
                    (64 * pindex + j) as nat,
                    pwidth as nat,
                ),
        decreases 64 - i,
    {
        let (dx, dy) = zorder_6bit_to_3bit(i as u8);
        outbuffer[i] = (bx + dx as usize, by + dy as usize);
        i += 1;
    }
    outbuffer
}

/// A two-dimensional array of fixed size, stored in blocks of 8 by 8 cells.
#[derive(Debug, PartialEq, Eq, Hash)]
pub struct ZArray2D<T> {
    width: usize,
    height: usize,
    pwidth: usize,
    patches: Vec<Patch<T>>,
}

impl<T> View for ZArray2D<T> {
    type V = Grid2D<T>;

    closed spec fn view(&self) -> Grid2D<T> {
        Grid2D {
            width: self.width as nat,
            height: self.height as nat,
            rows: Seq::new(
                self.height as nat,
                |y: int| Seq::new(self.width as nat, |x: int| self.cell(x, y)),
            ),
        }
    }
}

impl<T> ZArray2D<T> {
    /// The blocks cover the array: their number follows from its size.
    #[verifier::type_invariant]
    spec fn inv(&self) -> bool {
        &&& self.pwidth == blocks(self.width as nat)
        &&& self.patches.len() == blocks(self.width as nat) * blocks(self.height as nat)
    }

    /// The stored value of the cell at `(x, y)`.
    spec fn cell(&self, x: int, y: int) -> T {
        self.patches@[block_of(x as nat, y as nat, self.pwidth as nat) as int].contents@[block_slot(
            x as nat,
            y as nat,
        ) as int]
    }

    /// The view of an array has as many rows and columns as the array.
    pub proof fn lemma_view_wf(&self)
        ensures
            self@.wf(),
    {
    }

    /// An array of `width` by `height` cells, each made by `constructor` from its
    /// coordinate. The constructor is called for every cell of every block, also
    /// for the cells of the blocks at the far edges that lie outside the array.
    pub fn new_with_constructor(
        width: usize,
        height: usize,
        constructor: impl Fn((usize, usize)) -> T,
    ) -> (r: ZArray2D<T>)
        requires
            block_count_fits(width as nat, height as nat),
            width > 0 && height > 0 ==> 8 * blocks(width as nat) - 1 <= usize::MAX && 8 * blocks(
                height as nat,
            ) - 1 <= usize::MAX,
            forall|x: usize, y: usize|
                width > 0 && height > 0 && x < 8 * blocks(width as nat) && y < 8 * blocks(
                    height as nat,
                ) ==> call_requires(constructor, ((x, y),)),
        ensures
            r@.width == width,
            r@.height == height,
            r@.wf(),
            forall|x: usize, y: usize|
                r@.contains(x as int, y as int) ==> call_ensures(
                    constructor,
                    ((x, y),),
                    #[trigger] r@.at(x as int, y as int),
                ),
    {
        proof {
            lemma_block_count_fits(width as nat, height as nat);
        }
        let pwidth = block_count(width);
        let pheight = block_count(height);
        let patch_count = pwidth * pheight;
        let mut p: Vec<Patch<T>> = Vec::with_capacity(patch_count);
        for pindex in 0..patch_count
            invariant
                p@.len() == pindex,
                pwidth == blocks(width as nat),
                pheight == blocks(height as nat),
                patch_count == pwidth * pheight,
                width > 0 && height > 0 ==> 8 * pwidth - 1 <= usize::MAX && 8 * pheight - 1
                    <= usize::MAX,
                forall|x: usize, y: usize|
                    width > 0 && height > 0 && x < 8 * pwidth && y < 8 * pheight ==> call_requires(
                        constructor,
                        ((x, y),),
                    ),
                forall|j: int, k: int|
                    0 <= j < pindex && 0 <= k < 64 ==> call_ensures(
                        constructor,
                        (slot_coord((64 * j + k) as nat, pwidth as nat),),
                        #[trigger] p@[j].contents@[k],
                    ),
        {
            proof {
                lemma_block_grid(pindex as nat, width as nat, height as nat);
                lemma_padded_block(pindex as nat, pwidth as nat, pheight as nat);
            }
            let lookup_table = patch_coords(pwidth, pindex);
            proof {
                assert forall|k: usize| k < 64 implies call_requires(
                    constructor,
                    (#[trigger] lookup_table@[k as int],),
                ) by {
                    lemma2_to64();
                    lemma_deinterleave2_low_bits(k as nat, 3);
                    let c = slot_coord((64 * pindex + k) as nat, pwidth as nat);
                    assert((64 * pindex + k) / 64 == pindex && (64 * pindex + k) % 64 == k);
                    assert(c.0 < 8 * pwidth && c.1 < 8 * pheight);
                }
            }
            let construct = &constructor;
            let make = |k: usize| -> (v: T)
                requires
                    k < 64,
                ensures
                    call_ensures(*construct, (lookup_table@[k as int],), v),
                { construct(lookup_table[k]) };
            let initial_contents: [T; 64] = init_array(make);
            p.push(Patch { contents: initial_contents });
        }
        let r = ZArray2D { width, height, pwidth, patches: p };
        proof {
            assert forall|x: usize, y: usize| r@.contains(x as int, y as int) implies call_ensures(
                constructor,
                ((x, y),),
                #[trigger] r@.at(x as int, y as int),
            ) by {
                lemma_block_of_bound(x as nat, y as nat, width as nat, height as nat);
                lemma_block_slot_bound(x as nat, y as nat);
                lemma_slot_coord_of_slot_of(x as nat, y as nat, width as nat);
                let j = block_of(x as nat, y as nat, pwidth as nat) as int;
                let k = block_slot(x as nat, y as nat) as int;
                assert(call_ensures(
                    constructor,
                    (slot_coord((64 * j + k) as nat, pwidth as nat),),
                    r.patches@[j].contents@[k],
                ));
            }
        }
        r
    }

    /// The size of the array as `(width, height)`.
    pub fn dimensions(&self) -> (r: (usize, usize))
        ensures
            r.0 == self@.width,
            r.1 == self@.height,
    {
        (self.width, self.height)
    }

    /// The size of the array along the x axis.
    pub fn xsize(&self) -> (r: usize)
        ensures
            r == self@.width,
    {
        self.width
    }

    /// The size of the array along the x axis.
    pub fn width(&self) -> (r: usize)
        ensures
            r == self@.width,
    {
        self.xsize()
    }

    /// The size of the array along the y axis.
    pub fn ysize(&self) -> (r: usize)
        ensures
            r == self@.height,
    {
        self.height
    }

    /// The size of the array along the y axis.
    pub fn height(&self) -> (r: usize)
        ensures
            r == self@.height,
    {
        self.ysize()
    }

    /// The number of blocks that the array is stored in.
    pub fn patch_count(&self) -> (r: usize)
        ensures
            r == blocks(self@.width) * blocks(self@.height),
    {
        proof {
            use_type_invariant(self);
        }
        self.patches.len()
    }

    /// The cell at `(x, y)`, or the error of a coordinate outside the array.
    pub fn get(&self, x: usize, y: usize) -> (r: Result<&T, LookUpError>)
        ensures
            match r {
                Ok(v) => self@.contains(x as int, y as int) && *v == self@.at(x as int, y as int),
                Err(e) => !self@.contains(x as int, y as int) && e.spec_coord() == seq![x, y]
                    && e.spec_bounds() == seq![self@.width as usize, self@.height as usize],
            },
    {
        if x < self.width && y < self.height {
            Ok(self.get_unchecked(x, y))
        } else {
            Err(LookUpError::new(vec![x, y], vec![self.width, self.height]))
        }
    }

    /// Stores `new_val` in the cell at `(x, y)`, or returns the error of a coordinate
    /// outside the array and leaves the array as it was.
    pub fn set(&mut self, x: usize, y: usize, new_val: T) -> (r: Result<(), LookUpError>)
        ensures
            match r {
                Ok(_) => old(self)@.contains(x as int, y as int) && final(self)@ == old(self)@.put(
                    x as int,
                    y as int,
                    new_val,
                ),
                Err(e) => !old(self)@.contains(x as int, y as int) && final(self)@ == old(self)@
                    && e.spec_coord() == seq![x, y] && e.spec_bounds() == seq![
                    old(self)@.width as usize,
                    old(self)@.height as usize,
                ],
            },
    {
        if x < self.width && y < self.height {
            self.set_unchecked(x, y, new_val);
            Ok(())
        } else {
            Err(LookUpError::new(vec![x, y], vec![self.width, self.height]))
        }
    }

    /// The cell at `(x, y)`, which must lie inside the array.
    pub fn get_unchecked(&self, x: usize, y: usize) -> (r: &T)
        requires
            self@.contains(x as int, y as int),
        ensures
            *r == self@.at(x as int, y as int),
    {
        proof {
            use_type_invariant(self);
            lemma_block_of_bound(x as nat, y as nat, self.width as nat, self.height as nat);
        }
        self.patches[patch_index(x, y, self.pwidth)].get(x, y)
    }

    /// Stores `new_val` in the cell at `(x, y)`, which must lie inside the array.
    pub fn set_unchecked(&mut self, x: usize, y: usize, new_val: T)
        requires
            old(self)@.contains(x as int, y as int),
        ensures
            final(self)@ == old(self)@.put(x as int, y as int, new_val),
    {
        proof {
            use_type_invariant(&*self);
            lemma_block_of_bound(x as nat, y as nat, self.width as nat, self.height as nat);
        }
        let pi = patch_index(x, y, self.pwidth);
        self.patches[pi].set(x, y, new_val);
        proof {
            let before = old(self)@.put(x as int, y as int, new_val);
            let after = self@;
            assert forall|cy: int, cx: int|
                0 <= cy < self.height && 0 <= cx < self.width implies #[trigger] after.rows[cy][cx]
                == before.rows[cy][cx] by {
                lemma_block_of_bound(cx as nat, cy as nat, self.width as nat, self.height as nat);
                lemma_block_slot_bound(cx as nat, cy as nat);
                if block_of(cx as nat, cy as nat, self.pwidth as nat) == pi && block_slot(
                    cx as nat,
                    cy as nat,
                ) == block_slot(x as nat, y as nat) {
                    lemma_cell_places_differ(
                        cx as nat,
                        cy as nat,
                        x as nat,
                        y as nat,
                        self.width as nat,
                    );
                }
            }
            assert(after.rows =~~= before.rows);
        }
    }

    /// The cell that `(x, y)` wraps to: coordinates below zero or beyond the size
    /// tile around the array. The array must not be empty.
    pub fn wrapped_get(&self, x: isize, y: isize) -> (r: &T)
        requires
            self@.width > 0,
            self@.height > 0,
        ensures
            *r == self@.at(wrap(x as int, self@.width as int), wrap(y as int, self@.height as int)),
    {
        let x = wrap_coord(x, self.width);
        let y = wrap_coord(y, self.height);
        self.get_unchecked(x, y)
    }

    /// Stores `new_val` in the cell that `(x, y)` wraps to. The array must not be
    /// empty.
    pub fn wrapped_set(&mut self, x: isize, y: isize, new_val: T)
        requires
            old(self)@.width > 0,
            old(self)@.height > 0,
        ensures
            final(self)@ == old(self)@.put(
                wrap(x as int, old(self)@.width as int),
                wrap(y as int, old(self)@.height as int),
                new_val,
            ),
    {
        let x = wrap_coord(x, self.width);
        let y = wrap_coord(y, self.height);
        self.set_unchecked(x, y, new_val);
    }

    /// The cell at `(x, y)`, or `None` for a coordinate outside the array.
    pub fn bounded_get(&self, x: isize, y: isize) -> (r: Option<&T>)
        ensures
            match r {
                Some(v) => self@.contains(x as int, y as int) && *v == self@.at(x as int, y as int),
                None => !self@.contains(x as int, y as int),
            },
    {
        if x >= 0 && y >= 0 && (x as usize) < self.width && (y as usize) < self.height {
            Some(self.get_unchecked(x as usize, y as usize))
        } else {
            None
        }
    }

    /// Stores `new_val` in the cell at `(x, y)`; does nothing for a coordinate
    /// outside the array.
    pub fn bounded_set(&mut self, x: isize, y: isize, new_val: T)
        ensures
            final(self)@ == if old(self)@.contains(x as int, y as int) {
                old(self)@.put(x as int, y as int, new_val)
            } else {
                old(self)@
            },
    {
        if x >= 0 && y >= 0 && (x as usize) < self.width && (y as usize) < self.height {
            self.set_unchecked(x as usize, y as usize, new_val);
        }
    }

    /// The coordinates of all cells of the array in storage order: block after
    /// block, and inside a block in Z-order.
    pub fn coords(&self) -> (r: Vec<(usize, usize)>)
        ensures
            r@ == traversal(self@.width, self@.height),
    {
        proof {
            use_type_invariant(self);
        }
        let ghost w = self.width as nat;
        let ghost h = self.height as nat;
        let mut out: Vec<(usize, usize)> = Vec::new();
        let mut pindex: usize = 0;
        while pindex < self.patches.len()
            invariant
                self.inv(),
                w == self.width,
                h == self.height,
                pindex <= self.patches.len(),
                out@ + traversal_from(w, h, (64 * pindex) as nat) == traversal(w, h),
            decreases self.patches.len() - pindex,
        {
            let mut index: usize = 0;
            while index < 64
                invariant
                    self.inv(),
                    w == self.width,
                    h == self.height,
                    pindex < self.patches.len(),
                    index <= 64,
                    out@ + traversal_from(w, h, (64 * pindex + index) as nat) == traversal(w, h),
                decreases 64 - index,
            {
                let ghost slot = (64 * pindex + index) as nat;
                let ghost before = out@;
                match self.slot_cell(pindex, index) {
                    Some(c) => {
                        out.push(c);
                        assert(out@ + traversal_from(w, h, slot + 1) =~= before + traversal_from(
                            w,
                            h,
                            slot,
                        ));
                    },
                    None => {},
                }
                index += 1;
            }
            pindex += 1;
        }
        assert(out@ + traversal_from(w, h, (64 * pindex) as nat) =~= out@);
        out
    }

    /// Replaces the value of every cell by what `transform_fn` makes of the cell's
    /// coordinate and value. The cells are visited in storage order, each once.
    pub fn transform(&mut self, transform_fn: impl Fn((usize, usize), &T) -> T)
        requires
            forall|x: usize, y: usize|
                #![trigger old(self)@.at(x as int, y as int)]
                old(self)@.contains(x as int, y as int) ==> call_requires(
                    transform_fn,
                    ((x, y), &old(self)@.at(x as int, y as int)),
                ),
        ensures
            final(self)@.width == old(self)@.width,
            final(self)@.height == old(self)@.height,
            final(self)@.wf(),
            forall|x: usize, y: usize|
                old(self)@.contains(x as int, y as int) ==> call_ensures(
                    transform_fn,
                    ((x, y), &old(self)@.at(x as int, y as int)),
                    #[trigger] final(self)@.at(x as int, y as int),
                ),
    {
        proof {
            use_type_invariant(&*self);
        }
        let ghost start = self@;
        let ghost pw = self.pwidth as nat;
        let count = self.patches.len();
        let mut pindex: usize = 0;
        while pindex < count
            invariant
                self.inv(),
                count == self.patches.len(),
                pw == self.pwidth,
                pindex <= count,
                start == old(self)@,
                self@.width == start.width,
                self@.height == start.height,
                forall|x: usize, y: usize|
                    #![trigger start.at(x as int, y as int)]
                    start.contains(x as int, y as int) ==> call_requires(
                        transform_fn,
                        ((x, y), &start.at(x as int, y as int)),
                    ),
                forall|x: usize, y: usize|
                    #![trigger self@.at(x as int, y as int)]
                    start.contains(x as int, y as int) ==> if slot_of(x as nat, y as nat, pw) < 64
                        * pindex {
                        call_ensures(
                            transform_fn,
                            ((x, y), &start.at(x as int, y as int)),
                            self@.at(x as int, y as int),
                        )
                    } else {
                        self@.at(x as int, y as int) == start.at(x as int, y as int)
                    },
            decreases count - pindex,
        {
            let mut index: usize = 0;
            while index < 64
                invariant
                    self.inv(),
                    count == self.patches.len(),
                    pw == self.pwidth,
                    pindex < count,
                    index <= 64,
                    start == old(self)@,
                    self@.width == start.width,
                    self@.height == start.height,
                    forall|x: usize, y: usize|
                        #![trigger start.at(x as int, y as int)]
                        start.contains(x as int, y as int) ==> call_requires(
                            transform_fn,
                            ((x, y), &start.at(x as int, y as int)),
                        ),
                    forall|x: usize, y: usize|
                        #![trigger self@.at(x as int, y as int)]
                        start.contains(x as int, y as int) ==> if slot_of(x as nat, y as nat, pw)
                            < 64 * pindex + index {
                            call_ensures(
                                transform_fn,
                                ((x, y), &start.at(x as int, y as int)),
                                self@.at(x as int, y as int),
                            )
                        } else {
                            self@.at(x as int, y as int) == start.at(x as int, y as int)
                        },
                decreases 64 - index,
            {
                match self.slot_cell(pindex, index) {
                    Some(c) => {
                        let ghost before = self@;
                        assert(before.at(c.0 as int, c.1 as int) == start.at(
                            c.0 as int,
                            c.1 as int,
                        ));
                        assert(call_requires(
                            transform_fn,
                            ((c.0, c.1), &start.at(c.0 as int, c.1 as int)),
                        ));
                        let new_val = transform_fn(c, self.get_unchecked(c.0, c.1));
                        self.set_unchecked(c.0, c.1, new_val);
                        proof {
                            use_type_invariant(&*self);
                            assert forall|x: usize, y: usize|
                                #![trigger self@.at(x as int, y as int)]
                                start.contains(x as int, y as int) implies if slot_of(
                                x as nat,
                                y as nat,
                                pw,
                            ) < 64 * pindex + index + 1 {
                                call_ensures(
                                    transform_fn,
                                    ((x, y), &start.at(x as int, y as int)),
                                    self@.at(x as int, y as int),
                                )
                            } else {
                                self@.at(x as int, y as int) == start.at(x as int, y as int)
                            } by {
                                if x == c.0 && y == c.1 {
                                } else {
                                    assert(self@.at(x as int, y as int) == before.at(
                                        x as int,
                                        y as int,
                                    ));
                                    if slot_of(x as nat, y as nat, pw) == 64 * pindex + index {
                                        lemma_slot_coord_of_slot_of(
                                            x as nat,
                                            y as nat,
                                            start.width,
                                        );
                                    }
                                }
                            }
                        }
                    },
                    None => {
                        proof {
                            assert forall|x: usize, y: usize|
                                start.contains(x as int, y as int) implies slot_of(
                                x as nat,
                                y as nat,
                                pw,
                            ) != 64 * pindex + index by {
                                lemma_slot_coord_of_slot_of(x as nat, y as nat, start.width);
                                lemma_slot_in_grid_of_cell(
                                    x as nat,
                                    y as nat,
                                    start.width,
                                    start.height,
                                );
                            }
                        }
                    },
                }
                index += 1;
            }
            pindex += 1;
        }
        proof {
            assert forall|x: usize, y: usize|
                start.contains(x as int, y as int) implies call_ensures(
                transform_fn,
                ((x, y), &start.at(x as int, y as int)),
                #[trigger] self@.at(x as int, y as int),
            ) by {
                lemma_block_of_bound(x as nat, y as nat, start.width, start.height);
                lemma_block_slot_bound(x as nat, y as nat);
            }
        }
    }

    /// The coordinates of the cell in place `index` of block `patch`, unless the
    /// place lies outside the array.
    fn slot_cell(&self, patch: usize, index: usize) -> (r: Option<(usize, usize)>)
        requires
            patch < self.patches.len(),
            index < 64,
        ensures
            match r {
                Some(c) => {
                    &&& slot_in_grid((64 * patch + index) as nat, self@.width, self@.height)
                    &&& c == slot_coord((64 * patch + index) as nat, blocks(self@.width))
                    &&& self@.contains(c.0 as int, c.1 as int)
                    &&& self@.at(c.0 as int, c.1 as int)
                        == self.patches@[patch as int].contents@[index as int]
                    &&& slot_of(c.0 as nat, c.1 as nat, blocks(self@.width)) == 64 * patch + index
                },
                None => !slot_in_grid((64 * patch + index) as nat, self@.width, self@.height),
            },
    {
        proof {
            use_type_invariant(self);
            lemma_block_grid(patch as nat, self.width as nat, self.height as nat);
        }
        let bx: usize = (patch % self.pwidth) * 8;
        let by: usize = (patch / self.pwidth) * 8;
        let (dx, dy) = zorder_6bit_to_3bit(index as u8);
        if (dx as usize) < self.width - bx && (dy as usize) < self.height - by {
            let x: usize = bx + dx as usize;
            let y: usize = by + dy as usize;
            proof {
                let slot = (64 * patch + index) as nat;
                assert(slot / 64 == patch && slot % 64 == index);
                assert(slot_in_grid(slot, self.width as nat, self.height as nat));
                lemma_slot_of_slot_coord(slot, self.width as nat, self.height as nat);
                assert((x, y) == slot_coord(slot, self.pwidth as nat));
                lemma_block_slot_bound(x as nat, y as nat);
                assert(block_of(x as nat, y as nat, self.pwidth as nat) == patch);
                assert(block_slot(x as nat, y as nat) == index);
            }
            Some((x, y))
        } else {
            None
        }
    }
}

impl<T: Copy> ZArray2D<T> {
    /// An array of `width` by `height` cells that all hold `default_val`.
    pub fn new(width: usize, height: usize, default_val: T) -> (r: ZArray2D<T>)
        requires
            block_count_fits(width as nat, height as nat),
        ensures
            r@ == Grid2D::filled(width as nat, height as nat, default_val),
    {
        proof {
            lemma_block_count_fits(width as nat, height as nat);
        }
        let pwidth = block_count(width);
        let pheight = block_count(height);
        let patch_count = pwidth * pheight;
        let mut p: Vec<Patch<T>> = Vec::with_capacity(patch_count);
        for i in 0..patch_count
            invariant
                p@.len() == i,
                forall|j: int, k: int|
                    0 <= j < i && 0 <= k < 64 ==> (#[trigger] p@[j].contents@[k]) == default_val,
        {
            p.push(Patch { contents: [default_val;64] });
        }
        let r = ZArray2D { width, height, pwidth, patches: p };
        proof {
            let want = Grid2D::filled(width as nat, height as nat, default_val);
            assert forall|cy: int, cx: int| 0 <= cy < height && 0 <= cx < width implies (
            #[trigger] r@.rows[cy][cx]) == default_val by {
                lemma_block_of_bound(cx as nat, cy as nat, width as nat, height as nat);
                lemma_block_slot_bound(cx as nat, cy as nat);
            }
            assert(r@.rows =~~= want.rows);
        }
        r
    }

    /// Stores `new_val` in every cell of the box `[x1, x2)` by `[y1, y2)`, row by
    /// row. At the first coordinate outside the array it stops and returns the
    /// error of that coordinate; the cells before it keep `new_val`.
    pub fn fill(&mut self, x1: usize, y1: usize, x2: usize, y2: usize, new_val: T) -> (r: Result<
        (),
        LookUpError,
    >)
        ensures
            match r {
                Ok(_) => old(self)@.first_outside(x1 as int, y1 as int, x2 as int, y2 as int)
                    is None && final(self)@ == old(self)@.fill_box(
                    x1 as int,
                    y1 as int,
                    x2 as int,
                    y2 as int,
                    new_val,
                ),
                Err(e) => {
                    let first = old(self)@.first_outside(
                        x1 as int,
                        y1 as int,
                        x2 as int,
                        y2 as int,
                    );
                    &&& first is Some
                    &&& e.spec_coord() == seq![first.unwrap().0 as usize, first.unwrap().1 as usize]
                    &&& e.spec_bounds() == seq![
                        old(self)@.width as usize,
                        old(self)@.height as usize,
                    ]
                    &&& final(self)@ == old(self)@.fill_box_before(
                        x1 as int,
                        y1 as int,
                        x2 as int,
                        y2 as int,
                        first.unwrap().0,
                        first.unwrap().1,
                        new_val,
                    )
                },
            },
    {
        let ghost start = self@;
        let mut y = y1;
        assert(self@.rows =~~= start.fill_box_before(
            x1 as int,
            y1 as int,
            x2 as int,
            y2 as int,
            x1 as int,
            y as int,
            new_val,
        ).rows);
        while y < y2
            invariant
                y1 <= y,
                y1 < y2 ==> y <= y2,
                start == old(self)@,
                (x1 < x2 && y > y1) ==> x2 <= start.width && y <= start.height,
                self@ == start.fill_box_before(
                    x1 as int,
                    y1 as int,
                    x2 as int,
                    y2 as int,
                    x1 as int,
                    y as int,
                    new_val,
                ),
            decreases y2 - y,
        {
            let mut x = x1;
            while x < x2
                invariant
                    y1 <= y < y2,
                    x1 <= x,
                    x1 < x2 ==> x <= x2,
                    start == old(self)@,
                    (x1 < x2 && y > y1) ==> x2 <= start.width && y <= start.height,
                    x > x1 ==> x <= start.width && y < start.height,
                    self@ == start.fill_box_before(
                        x1 as int,
                        y1 as int,
                        x2 as int,
                        y2 as int,
                        x as int,
                        y as int,
                        new_val,
                    ),
                decreases x2 - x,
            {
                match self.set(x, y, new_val) {
                    Ok(_) => {},
                    Err(e) => {
                        return Err(e);
                    },
                }
                assert(self@.rows =~~= start.fill_box_before(
                    x1 as int,
                    y1 as int,
                    x2 as int,
                    y2 as int,
                    x + 1,
                    y as int,
                    new_val,
                ).rows);
                x += 1;
            }
            assert(self@.rows =~~= start.fill_box_before(
                x1 as int,
                y1 as int,
                x2 as int,
                y2 as int,
                x1 as int,
                y + 1,
                new_val,
            ).rows);
            y += 1;
        }
        assert(self@.rows =~~= start.fill_box(
            x1 as int,
            y1 as int,
            x2 as int,
            y2 as int,
            new_val,
        ).rows);
        Ok(())
    }

    /// Stores `new_val` in every cell that a coordinate of the box `[x1, x2)` by
    /// `[y1, y2)` wraps to. The array must not be empty.
    pub fn wrapped_fill(&mut self, x1: isize, y1: isize, x2: isize, y2: isize, new_val: T)
        requires
            old(self)@.width > 0,
            old(self)@.height > 0,
        ensures
            final(self)@ == old(self)@.wrapped_fill_box(
                x1 as int,
                y1 as int,
                x2 as int,
                y2 as int,
                new_val,
            ),
    {
        let ghost start = self@;
        let mut y = y1;
        assert(self@.rows =~~= start.wrapped_fill_before(
            x1 as int,
            y1 as int,
            x2 as int,
            x1 as int,
            y as int,
            new_val,
        ).rows);
        while y < y2
            invariant
                y1 <= y,
                y <= y2 || y == y1,
                start.width > 0,
                start.height > 0,
                self@ == start.wrapped_fill_before(
                    x1 as int,
                    y1 as int,
                    x2 as int,
                    x1 as int,
                    y as int,
                    new_val,
                ),
            decreases y2 - y,
        {
            let mut x = x1;
            while x < x2
                invariant
                    y1 <= y < y2,
                    x1 <= x,
                    x <= x2 || x == x1,
                    start.width > 0,
                    start.height > 0,
                    self@ == start.wrapped_fill_before(
                        x1 as int,
                        y1 as int,
                        x2 as int,
                        x as int,
                        y as int,
                        new_val,
                    ),
                decreases x2 - x,
            {
                self.wrapped_set(x, y, new_val);
                proof {
                    let w = start.width as int;
                    vstd::arithmetic::div_mod::lemma_mod_bound(x as int, w);
                    vstd::arithmetic::div_mod::lemma_mod_bound(y as int, start.height as int);
                    assert forall|c: int| wraps_into(x1 as int, x + 1, w, c) <==> (wraps_into(
                        x1 as int,
                        x as int,
                        w,
                        c,
                    ) || wrap(x as int, w) == c) by {
                        lemma_wraps_into_next(x1 as int, x as int, w, c);
                    }
                    assert(self@.rows =~~= start.wrapped_fill_before(
                        x1 as int,
                        y1 as int,
                        x2 as int,
                        x + 1,
                        y as int,
                        new_val,
                    ).rows);
                }
                x += 1;
            }
            proof {
                let h = start.height as int;
                let w = start.width as int;
                assert forall|c: int| #[trigger]
                    wraps_into(y1 as int, y + 1, h, c) <==> (wraps_into(y1 as int, y as int, h, c)
                        || wrap(y as int, h) == c) by {
                    lemma_wraps_into_next(y1 as int, y as int, h, c);
                }
                assert(self@.rows =~~= start.wrapped_fill_before(
                    x1 as int,
                    y1 as int,
                    x2 as int,
                    x1 as int,
                    y + 1,
                    new_val,
                ).rows);
            }
            y += 1;
        }
        assert(self@.rows =~~= start.wrapped_fill_box(
            x1 as int,
            y1 as int,
            x2 as int,
            y2 as int,
            new_val,
        ).rows);
    }

    /// Stores `new_val` in every cell of the box `[x1, x2)` by `[y1, y2)` that lies
    /// inside the array.
    pub fn bounded_fill(&mut self, x1: isize, y1: isize, x2: isize, y2: isize, new_val: T)
        ensures
            final(self)@ == old(self)@.fill_box(
                x1 as int,
                y1 as int,
                x2 as int,
                y2 as int,
                new_val,
            ),
    {
        let ghost start = self@;
        let mut y = y1;
        assert(self@.rows =~~= start.fill_box_before(
            x1 as int,
            y1 as int,
            x2 as int,
            y2 as int,
            x1 as int,
            y as int,
            new_val,
        ).rows);
        while y < y2
            invariant
                y1 <= y,
                y1 < y2 ==> y <= y2,
                self@ == start.fill_box_before(
                    x1 as int,
                    y1 as int,
                    x2 as int,
                    y2 as int,
                    x1 as int,
                    y as int,
                    new_val,
                ),
            decreases y2 - y,
        {
            let mut x = x1;
            while x < x2
                invariant
                    y1 <= y < y2,
                    x1 <= x,
                    x1 < x2 ==> x <= x2,
                    self@ == start.fill_box_before(
                        x1 as int,
                        y1 as int,
                        x2 as int,
                        y2 as int,
                        x as int,
                        y as int,
                        new_val,
                    ),
                decreases x2 - x,
            {
                self.bounded_set(x, y, new_val);
                assert(self@.rows =~~= start.fill_box_before(
                    x1 as int,
                    y1 as int,
                    x2 as int,
                    y2 as int,
                    x + 1,
                    y as int,
                    new_val,
                ).rows);
                x += 1;
            }
            assert(self@.rows =~~= start.fill_box_before(
                x1 as int,
                y1 as int,
                x2 as int,
                y2 as int,
                x1 as int,
                y + 1,
                new_val,
            ).rows);
            y += 1;
        }
        assert(self@.rows =~~= start.fill_box(
            x1 as int,
            y1 as int,
            x2 as int,
            y2 as int,
            new_val,
        ).rows);
    }

    /// An iterator over the cells of the array in storage order.
    pub fn iter(&self) -> (it: ZArray2DIterator<'_, T>)
        ensures
            it.grid() == self@,
            it.remaining() == traversal(self@.width, self@.height),
    {
        ZArray2DIterator::new(self)
    }
}

impl<T: Default> ZArray2D<T> {
    /// An array of `width` by `height` cells that all hold a default value of `T`.
    pub fn new_with_default(width: usize, height: usize) -> (r: ZArray2D<T>)
        requires
            block_count_fits(width as nat, height as nat),
        ensures
            r@.width == width,
            r@.height == height,
            r@.wf(),
            forall|x: int, y: int|
                r@.contains(x, y) ==> call_ensures(T::default, (), #[trigger] r@.at(x, y)),
    {
        proof {
            lemma_block_count_fits(width as nat, height as nat);
        }
        let pwidth = block_count(width);
        let pheight = block_count(height);
        let patch_count = pwidth * pheight;
        let mut p: Vec<Patch<T>> = Vec::with_capacity(patch_count);
        for i in 0..patch_count
            invariant
                p@.len() == i,
                forall|j: int, k: int|
                    0 <= j < i && 0 <= k < 64 ==> call_ensures(
                        T::default,
                        (),
                        #[trigger] p@[j].contents@[k],
                    ),
        {
            let make = |k: usize| -> (v: T)
                ensures
                    call_ensures(T::default, (), v),
                { T::default() };
            let default_contents: [T; 64] = init_array(make);
            p.push(Patch { contents: default_contents });
        }
        let r = ZArray2D { width, height, pwidth, patches: p };
        proof {
            assert forall|x: int, y: int| r@.contains(x, y) implies call_ensures(
                T::default,
                (),
                #[trigger] r@.at(x, y),
            ) by {
                lemma_block_of_bound(x as nat, y as nat, width as nat, height as nat);
                lemma_block_slot_bound(x as nat, y as nat);
            }
        }
        r
    }
}

impl<T: Clone> Clone for ZArray2D<T> {
    /// An array of the same size in which every cell is a clone of the cell at the
    /// same coordinate.
    fn clone(&self) -> (r: Self)
        ensures
            r@.width == self@.width,
            r@.height == self@.height,
            r@.wf(),
            forall|x: int, y: int|
                self@.contains(x, y) ==> cloned(self@.at(x, y), #[trigger] r@.at(x, y)),
    {
        proof {
            use_type_invariant(self);
        }
        let mut p: Vec<Patch<T>> = Vec::with_capacity(self.patches.len());
        for i in 0..self.patches.len()
            invariant
                p@.len() == i,
                forall|j: int, k: int|
                    0 <= j < i && 0 <= k < 64 ==> cloned(
                        self.patches@[j].contents@[k],
                        #[trigger] p@[j].contents@[k],
                    ),
        {
            p.push(Patch { contents: self.patches[i].contents.clone() });
        }
        let r = ZArray2D {
            width: self.width,
            height: self.height,
            pwidth: self.pwidth,
            patches: p,
        };
        proof {
            assert forall|x: int, y: int| self@.contains(x, y) implies cloned(
                self@.at(x, y),
                #[trigger] r@.at(x, y),
            ) by {
                lemma_block_of_bound(x as nat, y as nat, self.width as nat, self.height as nat);
                lemma_block_slot_bound(x as nat, y as nat);
                let b = block_of(x as nat, y as nat, self.pwidth as nat) as int;
                let k = block_slot(x as nat, y as nat) as int;
                assert(cloned(self.patches@[b].contents@[k], r.patches@[b].contents@[k]));
            }
        }
        r
    }
}

/// What the iterator over a `ZArray2D` yields: a coordinate and the value of its
/// cell.
#[derive(Clone, PartialEq, Eq, Debug)]
pub struct ZArray2DIteratorItem<T> {
    /// x-dimension coordinate
    pub x: usize,
    /// y-dimension coordinate
    pub y: usize,
    /// value at this coordinate
    pub value: T,
}

/// Where an iterator stands: before the first cell, at a cell, or past the last.
enum IterState {
    Start,
    Processing,
    Done,
}

/// Walks the cells of a `ZArray2D` in the order of their storage places: block
/// after block, and inside a block in Z-order.
pub struct ZArray2DIterator<'a, T: Copy> {
    array: &'a ZArray2D<T>,
    patch: usize,
    index: usize,
    state: IterState,
}

impl<'a, T: Copy> ZArray2DIterator<'a, T> {
    /// The place of the iterator lies inside the storage of its array.
    #[verifier::type_invariant]
    spec fn inv(&self) -> bool {
        &&& self.index < 64
        &&& self.array.inv()
        &&& self.state is Start ==> self.patch == 0 && self.index == 0 && self.array.width > 0
            && self.array.height > 0
        &&& self.state is Processing ==> self.patch < self.array.patches.len()
    }

    /// The array that the iterator walks.
    pub closed spec fn grid(&self) -> Grid2D<T> {
        self.array@
    }

    /// The coordinates of the cells that the iterator has yet to yield, in order.
    pub closed spec fn remaining(&self) -> Seq<(usize, usize)> {
        match self.state {
            IterState::Start => traversal(self.array.width as nat, self.array.height as nat),
            IterState::Processing => traversal_from(
                self.array.width as nat,
                self.array.height as nat,
                (64 * self.patch + self.index + 1) as nat,
            ),
            IterState::Done => Seq::empty(),
        }
    }

    /// An iterator before the first cell of `array`, or past the last if `array` is
    /// empty.
    fn new(array: &'a ZArray2D<T>) -> (it: ZArray2DIterator<'a, T>)
        ensures
            it.grid() == array@,
            it.remaining() == traversal(array@.width, array@.height),
    {
        proof {
            use_type_invariant(array);
        }
        if array.width == 0 || array.height == 0 {
            assert(blocks(array.width as nat) * blocks(array.height as nat) == 0)
                by (nonlinear_arith)
                requires
                    blocks(array.width as nat) == 0 || blocks(array.height as nat) == 0,
            ;
            ZArray2DIterator { array, patch: 0, index: 0, state: IterState::Done }
        } else {
            ZArray2DIterator { array, patch: 0, index: 0, state: IterState::Start }
        }
    }

    /// The next cell in storage order, or `None` when every cell has been yielded.
    pub fn next(&mut self) -> (r: Option<ZArray2DIteratorItem<T>>)
        ensures
            final(self).grid() == old(self).grid(),
            match r {
                Some(item) => {
                    &&& old(self).remaining().len() > 0
                    &&& (item.x, item.y) == old(self).remaining()[0]
                    &&& old(self).grid().contains(item.x as int, item.y as int)
                    &&& item.value == old(self).grid().at(item.x as int, item.y as int)
                    &&& final(self).remaining() == old(self).remaining().drop_first()
                },
                None => old(self).remaining().len() == 0 && final(self).remaining().len() == 0,
            },
    {
        proof {
            use_type_invariant(&*self);
        }
        let array = self.array;
        let ghost w = array.width as nat;
        let ghost h = array.height as nat;
        match self.state {
            IterState::Done => None,
            IterState::Start => {
                proof {
                    assert(blocks(w) * blocks(h) > 0) by (nonlinear_arith)
                        requires
                            blocks(w) > 0,
                            blocks(h) > 0,
                    ;
                }
                self.state = IterState::Processing;
                proof {
                    lemma_first_slot(w, h);
                    assert(traversal_from(w, h, 0).drop_first() =~= traversal_from(w, h, 1));
                }
                Some(ZArray2DIteratorItem { x: 0, y: 0, value: array.patches[0].contents[0] })
            },
            IterState::Processing => {
                let mut patch = self.patch;
                let mut index = self.index;
                loop
                    invariant
                        index < 64,
                        patch < array.patches.len(),
                        array.inv(),
                        w == array.width,
                        h == array.height,
                        self.array == array,
                        self.inv(),
                        self.state is Processing,
                        self.grid() == old(self).grid(),
                        old(self).remaining() == traversal_from(
                            w,
                            h,
                            (64 * patch + index + 1) as nat,
                        ),
                    decreases 64 * array.patches.len() - (64 * patch + index),
                {
                    index += 1;
                    if index >= 64 {
                        index = 0;
                        patch += 1;
                    }
                    if patch >= array.patches.len() {
                        self.state = IterState::Done;
                        return None;
                    }
                    match array.slot_cell(patch, index) {
                        Some(c) => {
                            self.patch = patch;
                            self.index = index;
                            proof {
                                let slot = (64 * patch + index) as nat;
                                assert(traversal_from(w, h, slot).drop_first() =~= traversal_from(
                                    w,
                                    h,
                                    slot + 1,
                                ));
                            }
                            return Some(
                                ZArray2DIteratorItem {
                                    x: c.0,
                                    y: c.1,
                                    value: array.patches[patch].contents[index],
                                },
                            );
                        },
                        None => {},
                    }
                }
            },
        }
    }
}

} // verus!
