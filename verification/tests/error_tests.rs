//! tests of the out-of-bounds error
use zarray::LookUpError;
use zarray::z2d::ZArray2D;
use zarray::z3d::ZArray3D;

#[test]
fn lookup_error_message_2d() {
	let map = ZArray2D::new(20, 20, 0u8);
	let e = map.get(20, 4).unwrap_err();
	assert_eq!(e.coord(), &vec![20usize, 4]);
	assert_eq!(e.bounds(), &vec![20usize, 20]);
	assert_eq!(
		e.to_string(),
		"Error: could not access coordinate (20, 4) because it is out of range for size (20, 20)"
	);
}

#[test]
fn lookup_error_message_3d() {
	let mut map = ZArray3D::new(100, 200, 25, 0u8);
	let e = map.set(7, 1234, 5, 1).unwrap_err();
	assert_eq!(e.coord(), &vec![7usize, 1234, 5]);
	assert_eq!(e.bounds(), &vec![100usize, 200, 25]);
	assert_eq!(
		e.to_string(),
		"Error: could not access coordinate (7, 1234, 5) because it is out of range for size (100, 200, 25)"
	);
}

#[test]
fn lookup_error_message_numbers() {
	let e = LookUpError::new(vec![0, 9, 10, 99, 100, 1000000007], vec![]);
	assert_eq!(
		e.to_string(),
		"Error: could not access coordinate (0, 9, 10, 99, 100, 1000000007) because it is out of range for size ()"
	);
	let e = LookUpError::new(vec![usize::MAX], vec![42]);
	assert_eq!(
		e.to_string(),
		format!("Error: could not access coordinate ({}) because it is out of range for size (42)", usize::MAX)
	);
}

#[test]
fn lookup_error_on_each_axis() {
	let mut map = ZArray2D::new(5, 3, 0u8);
	assert!(map.get(4, 2).is_ok());
	assert!(map.get(5, 2).is_err());
	assert!(map.get(4, 3).is_err());
	assert!(map.set(5, 0, 1).is_err());
	assert!(map.set(0, 3, 1).is_err());
	assert!(map.set(usize::MAX, usize::MAX, 1).is_err());
	let mut map = ZArray3D::new(5, 3, 2, 0u8);
	assert!(map.get(4, 2, 1).is_ok());
	assert!(map.get(5, 2, 1).is_err());
	assert!(map.get(4, 3, 1).is_err());
	assert!(map.get(4, 2, 2).is_err());
	assert!(map.set(4, 2, 2, 1).is_err());
	for z in 0..2 {
		for y in 0..3 {
			for x in 0..5 {
				assert_eq!(*map.get(x, y, z).unwrap(), 0);
			}
		}
	}
}
