//! tests of the Z-curve index and its inverse
use zarray::z2d::{zorder_16bit_to_32bit, zorder_4bit_to_8bit, zorder_6bit_to_3bit, zorder_8bit_to_16bit};
use zarray::z3d::{zorder_4bit_to_12bit, zorder_8bit_to_24bit, zorder_9bit_to_3bit};

#[test]
fn zorder_4bit_to_8bit_values() {
	assert_eq!(zorder_4bit_to_8bit(0, 0), 0);
	assert_eq!(zorder_4bit_to_8bit(1, 0), 0b01);
	assert_eq!(zorder_4bit_to_8bit(0, 1), 0b10);
	assert_eq!(zorder_4bit_to_8bit(2, 0), 0b0100);
	assert_eq!(zorder_4bit_to_8bit(3, 5), 39);
	assert_eq!(zorder_4bit_to_8bit(0b1010, 0b0101), 0b01100110);
	assert_eq!(zorder_4bit_to_8bit(15, 15), 255);
	assert_eq!(zorder_4bit_to_8bit(15, 0), 0b01010101);
	assert_eq!(zorder_4bit_to_8bit(0, 15), 0b10101010);
}

#[test]
fn zorder_4bit_to_8bit_ignores_high_bits() {
	for x in 0..=255u8 {
		for y in 0..=255u8 {
			assert_eq!(zorder_4bit_to_8bit(x, y), zorder_4bit_to_8bit(x & 0x0F, y & 0x0F));
		}
	}
}

#[test]
fn zorder_8bit_to_16bit_values() {
	assert_eq!(zorder_8bit_to_16bit(0, 0), 0);
	assert_eq!(zorder_8bit_to_16bit(0xFF, 0), 0x5555);
	assert_eq!(zorder_8bit_to_16bit(0, 0xFF), 0xAAAA);
	assert_eq!(zorder_8bit_to_16bit(0x10, 0), 0x0100);
	assert_eq!(zorder_8bit_to_16bit(0, 0x80), 0x8000);
	assert_eq!(zorder_8bit_to_16bit(3, 5), 39);
}

#[test]
fn zorder_16bit_to_32bit_values() {
	assert_eq!(zorder_16bit_to_32bit(0, 0), 0);
	assert_eq!(zorder_16bit_to_32bit(1, 0), 1);
	assert_eq!(zorder_16bit_to_32bit(0, 1), 2);
	assert_eq!(zorder_16bit_to_32bit(0x0100, 0), 0x0001_0000);
	assert_eq!(zorder_16bit_to_32bit(0, 0x8000), 0x8000_0000);
	assert_eq!(zorder_16bit_to_32bit(0xFFFF, 0), 0x5555_5555);
	assert_eq!(zorder_16bit_to_32bit(0, 0xFFFF), 0xAAAA_AAAA);
	assert_eq!(zorder_16bit_to_32bit(0xFFFF, 0xFFFF), 0xFFFF_FFFF);
}

fn spread_bits(v: u32, stride: u32) -> u32 {
	let mut out = 0u32;
	for bit in 0..16 {
		if stride * bit < 32 {
			out |= ((v >> bit) & 1) << (stride * bit);
		}
	}
	out
}

#[test]
fn zorder_wide_indices_interleave_every_bit() {
	for x in (0..=0xFFFFu32).step_by(257) {
		for y in (0..=0xFFFFu32).step_by(263) {
			let want = spread_bits(x, 2) | (spread_bits(y, 2) << 1);
			assert_eq!(zorder_16bit_to_32bit(x as u16, y as u16), want);
		}
	}
	for x in 0..=255u32 {
		for y in (0..=255u32).step_by(3) {
			let want = spread_bits(x, 2) | (spread_bits(y, 2) << 1);
			assert_eq!(zorder_8bit_to_16bit(x as u8, y as u8) as u32, want);
		}
	}
}

#[test]
fn zorder_4bit_to_12bit_values() {
	assert_eq!(zorder_4bit_to_12bit(0, 0, 0), 0);
	assert_eq!(zorder_4bit_to_12bit(1, 0, 0), 0b001);
	assert_eq!(zorder_4bit_to_12bit(0, 1, 0), 0b010);
	assert_eq!(zorder_4bit_to_12bit(0, 0, 1), 0b100);
	assert_eq!(zorder_4bit_to_12bit(2, 0, 0), 0b001000);
	assert_eq!(zorder_4bit_to_12bit(7, 7, 7), 511);
	assert_eq!(zorder_4bit_to_12bit(15, 15, 15), 0xFFF);
	assert_eq!(zorder_4bit_to_12bit(15, 0, 0), 0b001001001001);
	assert_eq!(zorder_4bit_to_12bit(0x13, 0x25, 0x41), zorder_4bit_to_12bit(3, 5, 1));
}

#[test]
fn zorder_8bit_to_24bit_values() {
	assert_eq!(zorder_8bit_to_24bit(0, 0, 0), 0);
	assert_eq!(zorder_8bit_to_24bit(0xFF, 0, 0), 0x249249);
	assert_eq!(zorder_8bit_to_24bit(0, 0xFF, 0), 0x492492);
	assert_eq!(zorder_8bit_to_24bit(0, 0, 0xFF), 0x924924);
	assert_eq!(zorder_8bit_to_24bit(0x10, 0, 0), 0x1000);
	for x in (0..=255u32).step_by(5) {
		for y in (0..=255u32).step_by(7) {
			for z in (0..=255u32).step_by(11) {
				let want = spread_bits(x, 3) | (spread_bits(y, 3) << 1) | (spread_bits(z, 3) << 2);
				assert_eq!(zorder_8bit_to_24bit(x as u8, y as u8, z as u8), want);
			}
		}
	}
}

#[test]
fn zorder_2d_block_bijection() {
	let mut seen = [false; 64];
	for y in 0..8u8 {
		for x in 0..8u8 {
			let i = zorder_4bit_to_8bit(x, y);
			assert!(i < 64);
			assert!(!seen[i as usize]);
			seen[i as usize] = true;
			assert_eq!(zorder_6bit_to_3bit(i), (x, y));
		}
	}
	assert!(seen.iter().all(|s| *s));
	for i in 0..64u8 {
		let (x, y) = zorder_6bit_to_3bit(i);
		assert_eq!(zorder_4bit_to_8bit(x, y), i);
	}
}

#[test]
fn zorder_6bit_to_3bit_values() {
	assert_eq!(zorder_6bit_to_3bit(0), (0, 0));
	assert_eq!(zorder_6bit_to_3bit(1), (1, 0));
	assert_eq!(zorder_6bit_to_3bit(2), (0, 1));
	assert_eq!(zorder_6bit_to_3bit(3), (1, 1));
	assert_eq!(zorder_6bit_to_3bit(4), (2, 0));
	assert_eq!(zorder_6bit_to_3bit(39), (3, 5));
	assert_eq!(zorder_6bit_to_3bit(63), (7, 7));
	assert_eq!(zorder_6bit_to_3bit(64 + 39), (3, 5));
	assert_eq!(zorder_6bit_to_3bit(255), (7, 7));
}

#[test]
fn zorder_3d_block_bijection() {
	let mut seen = [false; 512];
	for z in 0..8u8 {
		for y in 0..8u8 {
			for x in 0..8u8 {
				let i = zorder_4bit_to_12bit(x, y, z);
				assert!(i < 512);
				assert!(!seen[i as usize]);
				seen[i as usize] = true;
				assert_eq!(zorder_9bit_to_3bit(i), (x, y, z));
			}
		}
	}
	assert!(seen.iter().all(|s| *s));
	for i in 0..512u16 {
		let (x, y, z) = zorder_9bit_to_3bit(i);
		assert_eq!(zorder_4bit_to_12bit(x, y, z), i);
	}
}

#[test]
fn zorder_9bit_to_3bit_values() {
	assert_eq!(zorder_9bit_to_3bit(0), (0, 0, 0));
	assert_eq!(zorder_9bit_to_3bit(1), (1, 0, 0));
	assert_eq!(zorder_9bit_to_3bit(2), (0, 1, 0));
	assert_eq!(zorder_9bit_to_3bit(4), (0, 0, 1));
	assert_eq!(zorder_9bit_to_3bit(8), (2, 0, 0));
	assert_eq!(zorder_9bit_to_3bit(511), (7, 7, 7));
	assert_eq!(zorder_9bit_to_3bit(512 + 8), (2, 0, 0));
	assert_eq!(zorder_9bit_to_3bit(0xFFFF), (7, 7, 7));
}

#[test]
fn patch_coords_2d_values() {
	let coords = zarray::z2d::patch_coords(2, 3);
	assert_eq!(coords[0], (8, 8));
	assert_eq!(coords[1], (9, 8));
	assert_eq!(coords[2], (8, 9));
	assert_eq!(coords[3], (9, 9));
	assert_eq!(coords[4], (10, 8));
	assert_eq!(coords[63], (15, 15));
	let coords = zarray::z2d::patch_coords(3, 2);
	assert_eq!(coords[0], (16, 0));
	assert_eq!(coords[63], (23, 7));
}

#[test]
fn patch_coords_3d_values() {
	let coords = zarray::z3d::patch_coords(2, 3, 11);
	// block 11 of a grid 2 blocks wide and 3 blocks high: block coordinates (1, 2, 1)
	assert_eq!(coords[0], (8, 16, 8));
	assert_eq!(coords[1], (9, 16, 8));
	assert_eq!(coords[2], (8, 17, 8));
	assert_eq!(coords[4], (8, 16, 9));
	assert_eq!(coords[511], (15, 23, 15));
}
