//! tests of the three-dimensional array
use std::cell::Cell;
use zarray::z3d::ZArray3D;

fn value_at(x: usize, y: usize, z: usize) -> u32 {
	(x as u32).wrapping_mul(2654435761).wrapping_add((y as u32).wrapping_mul(40503)).wrapping_add((z as u32).wrapping_mul(97)) ^ 0x5bd1e995
}

fn filled_pair(w: usize, h: usize, d: usize) -> (Vec<Vec<Vec<u32>>>, ZArray3D<u32>) {
	let mut naive = vec![vec![vec![0u32; w]; h]; d];
	let mut map = ZArray3D::new(w, h, d, 0u32);
	for z in 0..d {
		for y in 0..h {
			for x in 0..w {
				naive[z][y][x] = value_at(x, y, z);
				map.set(x, y, z, value_at(x, y, z)).unwrap();
			}
		}
	}
	(naive, map)
}

fn assert_same(naive: &Vec<Vec<Vec<u32>>>, map: &ZArray3D<u32>) {
	for z in 0..naive.len() {
		for y in 0..naive[z].len() {
			for x in 0..naive[z][y].len() {
				assert_eq!(naive[z][y][x], *map.get(x, y, z).unwrap(), "at ({}, {}, {})", x, y, z);
			}
		}
	}
}

#[test]
fn grid3d_matches_layers_of_rows() {
	for (w, h, d) in [(1, 1, 1), (2, 3, 2), (8, 8, 8), (9, 9, 9), (17, 8, 3), (5, 23, 11)] {
		let (naive, map) = filled_pair(w, h, d);
		assert_eq!(map.dimensions(), (w, h, d));
		assert_eq!((map.xsize(), map.ysize(), map.zsize()), (w, h, d));
		assert_eq!((map.width(), map.height(), map.depth()), (w, h, d));
		assert_same(&naive, &map);
	}
}

#[test]
fn grid3d_set_changes_one_cell() {
	let (mut naive, mut map) = filled_pair(19, 11, 9);
	map.set(8, 7, 8, 1).unwrap();
	naive[8][7][8] = 1;
	assert_same(&naive, &map);
	map.set_unchecked(18, 10, 0, 2);
	naive[0][10][18] = 2;
	assert_same(&naive, &map);
	assert_eq!(*map.get_unchecked(18, 10, 0), 2);
}

#[test]
fn grid3d_empty() {
	for (w, h, d) in [(0usize, 0usize, 0usize), (0, 5, 5), (5, 0, 5), (5, 5, 0)] {
		let mut map = ZArray3D::new(w, h, d, 0u8);
		assert_eq!(map.dimensions(), (w, h, d));
		assert_eq!(map.patch_count(), 0);
		assert!(map.get(0, 0, 0).is_err());
		assert!(map.set(0, 0, 0, 1).is_err());
		assert!(map.bounded_get(0, 0, 0).is_none());
		map.bounded_set(0, 0, 0, 1);
		map.bounded_fill(-3, -3, -3, 3, 3, 3, 1);
		assert!(map.fill(0, 0, 0, 0, 0, 0, 1).is_ok());
		assert!(map.iter().next().is_none());
		assert_eq!(map.coords(), vec![]);
		map.transform(|_c: (usize, usize, usize), v: &u8| *v);
	}
}

#[test]
fn grid3d_patch_count_is_ceiling_of_eighths() {
	for (w, h, d, n) in [(1, 1, 1, 1), (8, 8, 8, 1), (9, 8, 8, 2), (8, 9, 8, 2), (8, 8, 9, 2), (9, 9, 9, 8), (100, 200, 25, 13 * 25 * 4)] {
		assert_eq!(ZArray3D::new(w, h, d, 0u8).patch_count(), n);
	}
}

#[test]
fn grid3d_wrapped_scenario() {
	let mut map = ZArray3D::new(20, 20, 20, 0u8);
	map.wrapped_set(3 * 101, 101, 101 / 2, 9);
	assert_eq!(*map.get(3, 1, 10).unwrap(), 9);
	assert_eq!(*map.wrapped_get(3 - 20, 1 + 40, 10 - 60), 9);
}

#[test]
fn grid3d_wrap_has_the_size_as_period() {
	let (_, map) = filled_pair(5, 3, 4);
	for k in -3..4isize {
		for z in -4..8isize {
			for y in -3..6isize {
				for x in -5..10isize {
					assert_eq!(*map.wrapped_get(x + k * 5, y + k * 3, z + k * 4), *map.wrapped_get(x, y, z));
				}
			}
		}
	}
	assert_eq!(*map.wrapped_get(-1, -1, -1), value_at(4, 2, 3));
}

#[test]
fn grid3d_bounded_access_outside_does_nothing() {
	let (naive, mut map) = filled_pair(6, 6, 6);
	for (x, y, z) in [(-1isize, 0isize, 0isize), (0, -1, 0), (0, 0, -1), (6, 0, 0), (0, 6, 0), (0, 0, 6), (6, 6, 6)] {
		assert!(map.bounded_get(x, y, z).is_none());
		map.bounded_set(x, y, z, 12345);
		assert_same(&naive, &map);
	}
	assert_eq!(*map.bounded_get(5, 5, 5).unwrap(), value_at(5, 5, 5));
}

#[test]
fn grid3d_fill_region() {
	let (mut naive, mut map) = filled_pair(30, 20, 12);
	map.fill(10, 5, 3, 25, 15, 9, 255).unwrap();
	for z in 3..9 {
		for y in 5..15 {
			for x in 10..25 {
				naive[z][y][x] = 255;
			}
		}
	}
	assert_same(&naive, &map);
	assert!(map.fill(4, 4, 4, 4, 9, 9, 1).is_ok());
	assert!(map.fill(40, 4, 4, 40, 9, 9, 1).is_ok());
	assert_same(&naive, &map);
}

#[test]
fn grid3d_fill_stops_at_first_coordinate_outside() {
	// the first row runs over the edge of the x axis
	let (mut naive, mut map) = filled_pair(4, 4, 4);
	let e = map.fill(2, 1, 1, 6, 6, 6, 7).unwrap_err();
	assert_eq!(e.coord(), &vec![4usize, 1, 1]);
	assert_eq!(e.bounds(), &vec![4usize, 4, 4]);
	naive[1][1][2] = 7;
	naive[1][1][3] = 7;
	assert_same(&naive, &map);
	// the first layer runs over the edge of the y axis
	let (mut naive, mut map) = filled_pair(4, 4, 4);
	let e = map.fill(2, 1, 1, 4, 6, 6, 7).unwrap_err();
	assert_eq!(e.coord(), &vec![2usize, 4, 1]);
	for y in 1..4 {
		for x in 2..4 {
			naive[1][y][x] = 7;
		}
	}
	assert_same(&naive, &map);
	// the box runs over the edge of the z axis
	let (mut naive, mut map) = filled_pair(4, 4, 4);
	let e = map.fill(2, 1, 1, 4, 4, 6, 7).unwrap_err();
	assert_eq!(e.coord(), &vec![2usize, 1, 4]);
	for z in 1..4 {
		for y in 1..4 {
			for x in 2..4 {
				naive[z][y][x] = 7;
			}
		}
	}
	assert_same(&naive, &map);
	// the box starts outside
	let (naive, mut map) = filled_pair(4, 4, 4);
	let e = map.fill(0, 0, 4, 1, 1, 5, 7).unwrap_err();
	assert_eq!(e.coord(), &vec![0usize, 0, 4]);
	assert_same(&naive, &map);
}

#[test]
fn grid3d_bounded_fill_keeps_to_the_array() {
	let (mut naive, mut map) = filled_pair(6, 5, 4);
	map.bounded_fill(-5, 3, 2, 2, 30, 9, 1);
	for z in 2..4 {
		for y in 3..5 {
			for x in 0..2 {
				naive[z][y][x] = 1;
			}
		}
	}
	assert_same(&naive, &map);
}

#[test]
fn grid3d_wrapped_fill_tiles() {
	let (mut naive, mut map) = filled_pair(5, 4, 3);
	map.wrapped_fill(-1, -1, -1, 1, 1, 1, 1);
	for z in [2, 0] {
		for y in [3, 0] {
			for x in [4, 0] {
				naive[z][y][x] = 1;
			}
		}
	}
	assert_same(&naive, &map);
	map.wrapped_fill(0, 1, 4, 5, 2, 5, 2);
	for x in 0..5 {
		naive[1][1][x] = 2;
	}
	assert_same(&naive, &map);
}

#[test]
fn grid3d_iterator_yields_each_cell_once() {
	for (w, h, d) in [(1, 1, 1), (8, 8, 8), (3, 5, 4), (11, 5, 3), (3, 11, 1), (9, 9, 9), (17, 2, 10)] {
		let (naive, map) = filled_pair(w, h, d);
		let mut seen = vec![vec![vec![false; w]; h]; d];
		let mut count = 0;
		let mut items = map.iter();
		while let Some(item) = items.next() {
			assert!(item.x < w && item.y < h && item.z < d);
			assert!(!seen[item.z][item.y][item.x]);
			seen[item.z][item.y][item.x] = true;
			assert_eq!(*item.value, naive[item.z][item.y][item.x]);
			count += 1;
		}
		assert_eq!(count, w * h * d);
		assert!(items.next().is_none());
	}
}

#[test]
fn grid3d_iterator_order() {
	let map = ZArray3D::new(2, 2, 2, 0u8);
	assert_eq!(
		map.coords(),
		vec![(0, 0, 0), (1, 0, 0), (0, 1, 0), (1, 1, 0), (0, 0, 1), (1, 0, 1), (0, 1, 1), (1, 1, 1)]
	);
	// blocks follow each other along x first, then y, then z
	let map = ZArray3D::new(9, 9, 9, 0u8);
	let coords = map.coords();
	assert_eq!(coords.len(), 729);
	assert_eq!(coords[0], (0, 0, 0));
	assert_eq!(coords[511], (7, 7, 7));
	assert_eq!(coords[512], (8, 0, 0));
	assert_eq!(coords[512 + 64], (0, 8, 0));
	assert_eq!(coords[728], (8, 8, 8));
	let mut items = map.iter();
	for c in &coords {
		let item = items.next().unwrap();
		assert_eq!((item.x, item.y, item.z), *c);
	}
	assert!(items.next().is_none());
}

#[test]
fn grid3d_transform_applies_to_each_cell_once() {
	let (naive, mut map) = filled_pair(9, 4, 3);
	let calls = Cell::new(0usize);
	map.transform(|c: (usize, usize, usize), old: &u32| {
		calls.set(calls.get() + 1);
		old.wrapping_add((c.0 + 100 * c.1 + 10000 * c.2) as u32)
	});
	assert_eq!(calls.get(), 9 * 4 * 3);
	for z in 0..3 {
		for y in 0..4 {
			for x in 0..9 {
				assert_eq!(*map.get(x, y, z).unwrap(), naive[z][y][x].wrapping_add((x + 100 * y + 10000 * z) as u32));
			}
		}
	}
}

#[test]
fn grid3d_new_with_constructor() {
	let calls = Cell::new(0usize);
	let largest = Cell::new((0usize, 0usize, 0usize));
	let map = ZArray3D::new_with_constructor(9, 3, 2, |c: (usize, usize, usize)| {
		calls.set(calls.get() + 1);
		let l = largest.get();
		largest.set((l.0.max(c.0), l.1.max(c.1), l.2.max(c.2)));
		c.0 + 1000 * c.1 + 1000000 * c.2
	});
	assert_eq!(calls.get(), 1024);
	assert_eq!(largest.get(), (15, 7, 7));
	for z in 0..2 {
		for y in 0..3 {
			for x in 0..9 {
				assert_eq!(*map.get(x, y, z).unwrap(), x + 1000 * y + 1000000 * z);
			}
		}
	}
}

#[test]
fn grid3d_new_with_default() {
	let mut map = ZArray3D::<Vec<u8>>::new_with_default(3, 9, 2);
	assert_eq!(map.patch_count(), 2);
	map.set(2, 8, 1, vec![1, 2, 3]).unwrap();
	assert_eq!(map.get(2, 8, 1).unwrap(), &vec![1, 2, 3]);
	assert_eq!(map.get(0, 0, 0).unwrap(), &Vec::<u8>::new());
	assert_eq!(map.get(2, 8, 0).unwrap(), &Vec::<u8>::new());
}

#[test]
fn grid3d_clone_and_equality() {
	let (_, map) = filled_pair(5, 5, 5);
	let mut copy = map.clone();
	assert!(copy == map);
	copy.set(3, 3, 3, 0).unwrap();
	assert!(copy != map);
	assert_eq!(*map.get(3, 3, 3).unwrap(), value_at(3, 3, 3));
}
