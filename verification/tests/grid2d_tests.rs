//! tests of the two-dimensional array
use std::cell::Cell;
use zarray::z2d::ZArray2D;

fn value_at(x: usize, y: usize) -> u32 {
	(x as u32).wrapping_mul(2654435761).wrapping_add((y as u32).wrapping_mul(40503)) ^ 0x5bd1e995
}

fn filled_pair(w: usize, h: usize) -> (Vec<Vec<u32>>, ZArray2D<u32>) {
	let mut naive = vec![vec![0u32; w]; h];
	let mut map = ZArray2D::new(w, h, 0u32);
	for y in 0..h {
		for x in 0..w {
			naive[y][x] = value_at(x, y);
			map.set(x, y, value_at(x, y)).unwrap();
		}
	}
	(naive, map)
}

fn assert_same(naive: &Vec<Vec<u32>>, map: &ZArray2D<u32>) {
	for y in 0..naive.len() {
		for x in 0..naive[y].len() {
			assert_eq!(naive[y][x], *map.get(x, y).unwrap(), "at ({}, {})", x, y);
		}
	}
}

#[test]
fn grid2d_matches_rows_of_cells() {
	for (w, h) in [(1, 1), (5, 3), (8, 8), (9, 9), (17, 8), (64, 64), (23, 41)] {
		let (naive, map) = filled_pair(w, h);
		assert_eq!(map.dimensions(), (w, h));
		assert_same(&naive, &map);
	}
}

#[test]
fn grid2d_set_changes_one_cell() {
	let (mut naive, mut map) = filled_pair(19, 11);
	map.set(8, 7, 1).unwrap();
	naive[7][8] = 1;
	assert_same(&naive, &map);
	map.set_unchecked(18, 10, 2);
	naive[10][18] = 2;
	assert_same(&naive, &map);
	assert_eq!(*map.get_unchecked(18, 10), 2);
}

#[test]
fn grid2d_new_holds_default_value_everywhere() {
	let map = ZArray2D::new(13, 9, 77u8);
	for y in 0..9 {
		for x in 0..13 {
			assert_eq!(*map.get(x, y).unwrap(), 77);
		}
	}
}

#[test]
fn grid2d_empty() {
	for (w, h) in [(0usize, 0usize), (0, 5), (5, 0)] {
		let mut map = ZArray2D::new(w, h, 0u8);
		assert_eq!(map.dimensions(), (w, h));
		assert_eq!(map.width(), w);
		assert_eq!(map.height(), h);
		assert_eq!(map.patch_count(), 0);
		assert!(map.get(0, 0).is_err());
		assert!(map.set(0, 0, 1).is_err());
		assert!(map.bounded_get(0, 0).is_none());
		map.bounded_set(0, 0, 1);
		map.bounded_fill(-3, -3, 3, 3, 1);
		assert!(map.fill(0, 0, 0, 0, 1).is_ok());
		assert!(map.iter().next().is_none());
		assert_eq!(map.coords(), vec![]);
	}
}

#[test]
fn grid2d_patch_count_is_ceiling_of_eighths() {
	for (w, h, n) in [(1, 1, 1), (8, 8, 1), (9, 8, 2), (8, 9, 2), (9, 9, 4), (16, 17, 6), (809, 601, 102 * 76)] {
		assert_eq!(ZArray2D::new(w, h, 0u8).patch_count(), n);
	}
}

#[test]
fn grid2d_wrapped_scenario() {
	let mut map = ZArray2D::new(20, 20, 0u8);
	map.wrapped_set(3 * 101, 101, 9);
	assert_eq!(*map.get((3 * 101) % 20, 101 % 20).unwrap(), 9);
	assert_eq!(*map.get(3, 1).unwrap(), 9);
	let mut count = 0;
	for y in 0..20 {
		for x in 0..20 {
			if *map.get(x, y).unwrap() != 0 {
				count += 1;
			}
		}
	}
	assert_eq!(count, 1);
}

#[test]
fn grid2d_wrapped_negative_coordinates() {
	let (_, mut map) = filled_pair(7, 5);
	assert_eq!(*map.wrapped_get(-1, -1), value_at(6, 4));
	assert_eq!(*map.wrapped_get(-7, -5), value_at(0, 0));
	assert_eq!(*map.wrapped_get(-8, -6), value_at(6, 4));
	assert_eq!(*map.wrapped_get(7, 5), value_at(0, 0));
	assert_eq!(*map.wrapped_get(isize::MIN, isize::MAX), value_at((isize::MIN).rem_euclid(7) as usize, (isize::MAX).rem_euclid(5) as usize));
	map.wrapped_set(-2, 11, 5);
	assert_eq!(*map.get(5, 1).unwrap(), 5);
}

#[test]
fn grid2d_wrap_has_the_size_as_period() {
	let (_, map) = filled_pair(11, 6);
	for k in -4..5isize {
		for y in -6..12isize {
			for x in -11..22isize {
				assert_eq!(*map.wrapped_get(x + k * 11, y + k * 6), *map.wrapped_get(x, y));
			}
		}
	}
}

#[test]
fn grid2d_bounded_access_outside_does_nothing() {
	let (naive, mut map) = filled_pair(10, 10);
	for (x, y) in [(-1isize, 0isize), (0, -1), (10, 0), (0, 10), (10, 10), (-1, -1), (isize::MAX, 3), (3, isize::MIN)] {
		assert!(map.bounded_get(x, y).is_none());
		map.bounded_set(x, y, 12345);
		assert_same(&naive, &map);
	}
	assert_eq!(*map.bounded_get(9, 9).unwrap(), value_at(9, 9));
	map.bounded_set(9, 9, 4);
	assert_eq!(*map.bounded_get(9, 9).unwrap(), 4);
}

#[test]
fn grid2d_fill_region() {
	let (mut naive, mut map) = filled_pair(300, 200);
	map.fill(100, 100, 200, 150, 255).unwrap();
	for y in 100..150 {
		for x in 100..200 {
			naive[y][x] = 255;
		}
	}
	assert_same(&naive, &map);
}

#[test]
fn grid2d_fill_empty_box_is_ok() {
	let (naive, mut map) = filled_pair(10, 10);
	assert!(map.fill(5, 5, 5, 9, 1).is_ok());
	assert!(map.fill(5, 5, 9, 5, 1).is_ok());
	assert!(map.fill(50, 50, 50, 90, 1).is_ok());
	assert!(map.fill(7, 7, 3, 3, 1).is_ok());
	assert_same(&naive, &map);
}

#[test]
fn grid2d_fill_stops_at_first_coordinate_outside() {
	// the row runs over the right edge
	let (mut naive, mut map) = filled_pair(20, 20);
	let e = map.fill(18, 18, 25, 25, 2).unwrap_err();
	assert_eq!(e.coord(), &vec![20usize, 18]);
	assert_eq!(e.bounds(), &vec![20usize, 20]);
	naive[18][18] = 2;
	naive[18][19] = 2;
	assert_same(&naive, &map);
	// the box runs over the lower edge
	let (mut naive, mut map) = filled_pair(20, 20);
	let e = map.fill(3, 18, 6, 25, 2).unwrap_err();
	assert_eq!(e.coord(), &vec![3usize, 20]);
	for y in 18..20 {
		for x in 3..6 {
			naive[y][x] = 2;
		}
	}
	assert_same(&naive, &map);
	// the box starts outside
	let (naive, mut map) = filled_pair(20, 20);
	let e = map.fill(25, 0, 30, 5, 2).unwrap_err();
	assert_eq!(e.coord(), &vec![25usize, 0]);
	assert_same(&naive, &map);
	let e = map.fill(0, 20, 5, 25, 2).unwrap_err();
	assert_eq!(e.coord(), &vec![0usize, 20]);
	assert_same(&naive, &map);
}

#[test]
fn grid2d_bounded_fill_keeps_to_the_array() {
	let (mut naive, mut map) = filled_pair(12, 9);
	map.bounded_fill(-5, 6, 4, 30, 1);
	for y in 6..9 {
		for x in 0..4 {
			naive[y][x] = 1;
		}
	}
	assert_same(&naive, &map);
	map.bounded_fill(20, 20, 30, 30, 2);
	map.bounded_fill(5, 5, 2, 2, 2);
	assert_same(&naive, &map);
}

#[test]
fn grid2d_wrapped_fill_tiles() {
	let (mut naive, mut map) = filled_pair(5, 4);
	map.wrapped_fill(-1, -1, 1, 1, 1);
	for (x, y) in [(4, 3), (0, 3), (4, 0), (0, 0)] {
		naive[y][x] = 1;
	}
	assert_same(&naive, &map);
	map.wrapped_fill(3, 2, 100, 3, 2);
	for x in 0..5 {
		naive[2][x] = 2;
	}
	assert_same(&naive, &map);
	map.wrapped_fill(3, 2, 3, 30, 3);
	assert_same(&naive, &map);
}

#[test]
fn grid2d_iterator_yields_each_cell_once() {
	for (w, h) in [(1, 1), (8, 8), (3, 5), (11, 5), (3, 11), (57, 101), (9, 9)] {
		let (naive, map) = filled_pair(w, h);
		let mut seen = vec![vec![false; w]; h];
		let mut count = 0;
		let mut items = map.iter();
		while let Some(item) = items.next() {
			assert!(item.x < w && item.y < h);
			assert!(!seen[item.y][item.x]);
			seen[item.y][item.x] = true;
			assert_eq!(item.value, naive[item.y][item.x]);
			count += 1;
		}
		assert_eq!(count, w * h);
		assert!(items.next().is_none());
		assert!(items.next().is_none());
	}
}

#[test]
fn grid2d_iterator_order() {
	let map = ZArray2D::new(3, 2, 0u8);
	let mut items = map.iter();
	let mut order = vec![];
	while let Some(item) = items.next() {
		order.push((item.x, item.y));
	}
	assert_eq!(order, vec![(0, 0), (1, 0), (0, 1), (1, 1), (2, 0), (2, 1)]);
	// two blocks side by side: the first block is walked before the second
	let map = ZArray2D::new(9, 2, 0u8);
	let order = map.coords();
	assert_eq!(order.len(), 18);
	assert_eq!(&order[0..4], &[(0, 0), (1, 0), (0, 1), (1, 1)]);
	assert_eq!(&order[16..18], &[(8, 0), (8, 1)]);
	// two blocks one above the other
	let map = ZArray2D::new(2, 9, 0u8);
	let order = map.coords();
	assert_eq!(order.len(), 18);
	assert_eq!(&order[0..4], &[(0, 0), (1, 0), (0, 1), (1, 1)]);
	assert_eq!(&order[16..18], &[(0, 8), (1, 8)]);
}

#[test]
fn grid2d_coords_is_the_order_of_the_iterator() {
	for (w, h) in [(1, 1), (3, 5), (9, 9), (20, 13)] {
		let map = ZArray2D::new(w, h, 0u8);
		let coords = map.coords();
		let mut items = map.iter();
		for c in &coords {
			let item = items.next().unwrap();
			assert_eq!((item.x, item.y), *c);
		}
		assert!(items.next().is_none());
		assert_eq!(coords.len(), w * h);
	}
}

#[test]
fn grid2d_transform_applies_to_each_cell_once() {
	let (naive, mut map) = filled_pair(13, 10);
	let calls = Cell::new(0usize);
	map.transform(|c: (usize, usize), old: &u32| {
		calls.set(calls.get() + 1);
		old.wrapping_add((c.0 + 100 * c.1) as u32)
	});
	assert_eq!(calls.get(), 130);
	for y in 0..10 {
		for x in 0..13 {
			assert_eq!(*map.get(x, y).unwrap(), naive[y][x].wrapping_add((x + 100 * y) as u32));
		}
	}
}

#[test]
fn grid2d_new_with_constructor() {
	let calls = Cell::new(0usize);
	let largest = Cell::new((0usize, 0usize));
	let map = ZArray2D::new_with_constructor(9, 3, |c: (usize, usize)| {
		calls.set(calls.get() + 1);
		largest.set((largest.get().0.max(c.0), largest.get().1.max(c.1)));
		c.0 + 1000 * c.1
	});
	// every place of both blocks is made, the padding too
	assert_eq!(calls.get(), 128);
	assert_eq!(largest.get(), (15, 7));
	assert_eq!(map.dimensions(), (9, 3));
	for y in 0..3 {
		for x in 0..9 {
			assert_eq!(*map.get(x, y).unwrap(), x + 1000 * y);
		}
	}
	assert!(map.get(9, 0).is_err());
	let empty = ZArray2D::new_with_constructor(0, 3, |c: (usize, usize)| c.0);
	assert_eq!(empty.patch_count(), 0);
}

#[test]
fn grid2d_new_with_default() {
	let mut map = ZArray2D::<String>::new_with_default(9, 2);
	assert_eq!(map.patch_count(), 2);
	map.set(8, 1, "hello".to_string()).unwrap();
	for y in 0..2 {
		for x in 0..9 {
			if (x, y) == (8, 1) {
				assert_eq!(map.get(x, y).unwrap(), "hello");
			} else {
				assert_eq!(map.get(x, y).unwrap(), "");
			}
		}
	}
}

#[test]
fn grid2d_clone_and_equality() {
	let (_, map) = filled_pair(10, 10);
	let mut copy = map.clone();
	assert!(copy == map);
	copy.set(3, 3, 0).unwrap();
	assert!(copy != map);
	assert_eq!(*map.get(3, 3).unwrap(), value_at(3, 3));
}
