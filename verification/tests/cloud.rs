use laszy::pointstructure::PointStructure;
use laszy::units::{GROUND, UNCLASSIFIED};
use laszy::{Bounds, Metadata, Point, PointCloud, Vector};

fn at(x: i64, y: i64, z: i64, classification: u8) -> Point {
    Point { x, y, z, classification }
}

#[test]
fn test_point_iterator() {
    let mut ps = PointStructure::new();
    let first = Point { x: 1000, y: 2000, z: 3000, classification: 0 };
    ps.add_point(first.clone());
    let second = Point { x: 5000, y: 2200, z: 1500, classification: 0 };
    ps.add_point(second.clone());
    let mut point_iterator = ps.points.into_iter();
    assert_eq!(point_iterator.next(), Some(first));
    assert_eq!(point_iterator.next(), Some(second));
    assert_eq!(point_iterator.next(), None);
}

#[test]
fn point_structure_default_is_empty() {
    assert!(PointStructure::default().points.is_empty());
    assert!(PointStructure::new().points.is_empty());
}

#[test]
fn new_cloud_is_empty_with_empty_bounds() {
    let cloud = PointCloud::new();
    assert_eq!(cloud.len(), 0);
    assert!(cloud.points().is_empty());
    assert_eq!(*cloud.bounds(), Bounds::new());
}

#[test]
fn cloud_keeps_insertion_order_and_grows_its_bounds() {
    let mut cloud = PointCloud::new();
    let a = at(10, 20, 30, UNCLASSIFIED);
    let b = at(-5, 40, 0, GROUND);
    let c = at(7, 7, 99, 5);
    cloud.add_point(a);
    assert_eq!(cloud.len(), 1);
    assert_eq!(cloud.bounds().min, Vector { x: 10, y: 20, z: 30 });
    assert_eq!(cloud.bounds().max, Vector { x: 10, y: 20, z: 30 });
    cloud.add_point(b);
    cloud.add_point(c);
    assert_eq!(cloud.len(), 3);
    assert_eq!(*cloud.points(), vec![a, b, c]);
    assert_eq!((cloud.point(0), cloud.point(1), cloud.point(2)), (a, b, c));
    assert_eq!(cloud.bounds().min, Vector { x: -5, y: 7, z: 0 });
    assert_eq!(cloud.bounds().max, Vector { x: 10, y: 40, z: 99 });
}

#[test]
fn add_points_appends_in_order() {
    let mut cloud = PointCloud::new();
    cloud.add_point(at(1, 1, 1, 0));
    cloud.add_points(vec![at(2, 2, 2, 0), at(3, 3, 3, 0)]);
    cloud.add_points(Vec::new());
    assert_eq!(*cloud.points(), vec![at(1, 1, 1, 0), at(2, 2, 2, 0), at(3, 3, 3, 0)]);
    assert_eq!(cloud.bounds().min, Vector { x: 1, y: 1, z: 1 });
    assert_eq!(cloud.bounds().max, Vector { x: 3, y: 3, z: 3 });
}

#[test]
fn cloud_exports_coordinates_and_ground_flags() {
    let mut cloud = PointCloud::new();
    cloud.add_points(vec![at(1, 2, 3, GROUND), at(4, 5, 6, UNCLASSIFIED), at(7, 8, 9, GROUND)]);
    assert_eq!(cloud.coordinates(), vec![[1, 2, 3], [4, 5, 6], [7, 8, 9]]);
    assert_eq!(cloud.ground_points(), vec![true, false, true]);
    assert_eq!(PointCloud::new().coordinates(), Vec::<[i64; 3]>::new());
    assert_eq!(PointCloud::new().ground_points(), Vec::<bool>::new());
}

#[test]
fn metadata_hands_back_what_it_was_given() {
    let bounds = Bounds {
        min: Vector { x: -10, y: -20, z: -30 },
        max: Vector { x: 10, y: 21, z: 30 },
    };
    let format = las::point::Format::new(3).unwrap();
    let metadata = Metadata::new(17, bounds, format);
    assert_eq!(metadata.point_count(), 17);
    assert_eq!(*metadata.bounds(), bounds);
    assert_eq!(*metadata.point_format(), format);
}

#[test]
fn center_is_the_midpoint_rounded_down() {
    let format = las::point::Format::default();
    let even = Bounds { min: Vector { x: 0, y: 10, z: 0 }, max: Vector { x: 10, y: 30, z: 0 } };
    assert_eq!(Metadata::new(0, even, format).center2d(), (5, 20));
    let odd = Bounds { min: Vector { x: 0, y: -3, z: 0 }, max: Vector { x: 5, y: 0, z: 0 } };
    assert_eq!(Metadata::new(0, odd, format).center2d(), (2, -2));
    let wide = Bounds {
        min: Vector { x: i64::MIN, y: i64::MAX - 1, z: 0 },
        max: Vector { x: i64::MAX, y: i64::MAX, z: 0 },
    };
    assert_eq!(Metadata::new(0, wide, format).center2d(), (-1, i64::MAX - 1));
}
