use laszy::builder::PassState;
use laszy::csf::surface::ClothSurface;
use laszy::units::{GROUND, UNCLASSIFIED};
use laszy::{
    Bounds, CroppingMethod, LaszyError, Metadata, Point, PointCloudBuilder, ThinningMethod, Vector,
};

/// A lattice of `columns * rows` points around the planar position
/// (183 557, 332 410) metres, with gently varying elevations.
fn lattice(columns: i64, rows: i64, step_x: i64, step_y: i64) -> Vec<Point> {
    let mut points = Vec::new();
    for i in 0..columns {
        for j in 0..rows {
            points.push(Point {
                x: 183_540_000 + step_x * i,
                y: 332_390_000 + step_y * j,
                z: 1_000 + ((i * 7 + j * 13) % 50) * 10,
                classification: UNCLASSIFIED,
            });
        }
    }
    points
}

fn field() -> Vec<Point> {
    lattice(51, 45, 700, 900)
}

fn builder_over(points: &Vec<Point>) -> PointCloudBuilder {
    let mut bounds = Bounds::new();
    for p in points {
        bounds.grow(p);
    }
    let metadata = Metadata::new(points.len() as u64, bounds, las::point::Format::default());
    PointCloudBuilder::new(vec!["test.las".to_string()], metadata)
}

fn get_test_builder() -> (PointCloudBuilder, Vec<Point>) {
    let points = field();
    (builder_over(&points), points)
}

fn inner_crop() -> CroppingMethod {
    CroppingMethod::BoundingBox {
        lower_left: (183_551_470, 332_414_450),
        upper_right: (183_564_090, 332_424_130),
    }
}

#[test]
fn test_from_file() {
    let (builder, _) = get_test_builder();
    assert_eq!(builder.filepaths().len(), 1);
    assert_eq!(builder.filepaths()[0], "test.las".to_string());
}

#[test]
fn test_get_metadata() {
    let bounds = Bounds {
        min: Vector { x: 183_550_000, y: 332_390_000, z: 0 },
        max: Vector { x: 183_565_150, y: 332_420_814, z: 0 },
    };
    let builder = PointCloudBuilder::new(
        vec!["test.las".to_string()],
        Metadata::new(52_469, bounds, las::point::Format::default()),
    );
    let metadata = builder.get_metadata();
    assert_eq!(metadata.point_count(), 52_469);
    assert_eq!(metadata.center2d(), (183_557_575, 332_405_407));
}

#[test]
fn test_with_crop() {
    let (mut builder, points) = get_test_builder();
    let crop = inner_crop();
    builder.with_crop(crop);
    let cloud = builder.to_cloud(&points).unwrap();
    assert!(cloud.len() > 0);
    assert!(cloud.bounds().min.x > 183_551_470, "min x is {}", cloud.bounds().min.x);
    assert!(cloud.bounds().min.y > 332_414_450, "min y is {}", cloud.bounds().min.y);
    assert!(cloud.bounds().max.x < 183_564_090, "max x is {}", cloud.bounds().max.x);
    assert!(cloud.bounds().max.y < 332_424_130, "max y is {}", cloud.bounds().max.y);
}

#[test]
fn test_with_thinning() {
    let points = lattice(250, 200, 140, 200);
    assert_eq!(points.len(), 50_000);
    let mut builder = builder_over(&points);
    let thinning = ThinningMethod::Random { percent: 100 };
    builder.with_thinning(thinning);
    let cloud = builder.to_cloud(&points).unwrap();
    assert!(cloud.len() < 5_400);
}

#[test]
fn test_incorrect_crop() {
    let (mut builder, points) = get_test_builder();
    let re = builder
        .with_crop(CroppingMethod::BoundingBox {
            lower_left: (182_011_300, 335_505_400),
            upper_right: (182_997_800, 336_497_500),
        })
        .with_thinning(ThinningMethod::EveryNth { nth: 40 })
        .with_csf_ground_reclassification(500, 5_000, 100, 1_000)
        .to_file(&String::from("result.las"), &points);
    assert!(re.is_err());
    assert!(matches!(re, Err(LaszyError::EmptyCloud(_))));
}

#[test]
fn test_extreme_thinning() {
    let (mut builder, points) = get_test_builder();
    let crop = inner_crop();
    let re = builder
        .with_crop(crop)
        .with_thinning(ThinningMethod::EveryNth { nth: 40_000_000 })
        .with_csf_ground_reclassification(500, 5_000, 100, 1_000)
        .to_file(&String::from("result.las"), &points);
    assert!(re.is_ok());
    assert_eq!(re.unwrap().len(), 1);
}

#[test]
fn test_to_file() {
    let (mut builder, points) = get_test_builder();
    let crop = inner_crop();
    let re = builder
        .with_crop(crop)
        .with_thinning(ThinningMethod::EveryNth { nth: 40 })
        .with_csf_ground_reclassification(500, 5_000, 100, 1_000)
        .to_file(&String::from("result.las"), &points);
    assert!(re.is_ok());
    let inside = points.iter().filter(|p| crop.is_in_bounds(p)).count();
    assert_eq!(re.unwrap().len(), (inside + 39) / 40);
}

#[test]
fn new_builder_crops_and_thins_nothing() {
    let (builder, points) = get_test_builder();
    let cloud = builder.to_cloud(&points).unwrap();
    assert_eq!(*cloud.points(), points);
    assert_eq!(*cloud.bounds(), *builder.get_metadata().bounds());
    assert_eq!(
        builder.get_crop_corners(),
        ((183_540_000, 332_390_000), (183_575_000, 332_429_600))
    );
}

#[test]
fn crop_corners_follow_the_crop_box() {
    let (mut builder, _) = get_test_builder();
    builder.with_crop(inner_crop());
    assert_eq!(
        builder.get_crop_corners(),
        ((183_551_470, 332_414_450), (183_564_090, 332_424_130))
    );
}

#[test]
fn every_emitted_point_lies_within_the_crop_box() {
    let (mut builder, points) = get_test_builder();
    let crop = inner_crop();
    for thinning in [
        ThinningMethod::Off,
        ThinningMethod::EveryNth { nth: 3 },
        ThinningMethod::Random { percent: 500 },
    ] {
        builder.with_crop(crop).with_thinning(thinning);
        let emitted = builder.run_building_iterator(&points).unwrap();
        assert!(!emitted.is_empty());
        for p in &emitted {
            assert!(183_551_470 <= p.x && p.x <= 183_564_090);
            assert!(332_414_450 <= p.y && p.y <= 332_424_130);
            assert!(points.contains(p));
        }
    }
}

#[test]
fn crop_keeps_points_on_the_edges_of_the_box() {
    let points = vec![
        Point { x: 0, y: 0, z: 1, classification: 1 },
        Point { x: 10, y: 10, z: 2, classification: 1 },
        Point { x: 11, y: 10, z: 3, classification: 1 },
        Point { x: 5, y: -1, z: 4, classification: 1 },
        Point { x: 0, y: 10, z: 5, classification: 1 },
    ];
    let mut builder = builder_over(&points);
    builder.with_crop(CroppingMethod::BoundingBox { lower_left: (0, 0), upper_right: (10, 10) });
    let emitted = builder.run_building_iterator(&points).unwrap();
    assert_eq!(emitted, vec![points[0], points[1], points[4]]);
}

#[test]
fn every_nth_counts_only_points_that_passed_the_crop() {
    let (mut builder, points) = get_test_builder();
    let crop = inner_crop();
    let inside: Vec<Point> = points.iter().filter(|p| crop.is_in_bounds(p)).cloned().collect();
    assert!(inside.len() > 100);
    for nth in [1usize, 2, 7, 40, 1_000] {
        builder.with_crop(crop).with_thinning(ThinningMethod::EveryNth { nth });
        let emitted = builder.run_building_iterator(&points).unwrap();
        let expected: Vec<Point> = inside.iter().step_by(nth).cloned().collect();
        assert_eq!(emitted, expected);
        assert_eq!(emitted.len(), (inside.len() + nth - 1) / nth);
        assert_eq!(emitted[0], inside[0]);
    }
}

#[test]
fn unsupported_thinning_fails_the_run_before_any_point() {
    let (mut builder, points) = get_test_builder();
    for thinning in [
        ThinningMethod::EveryNthRandom { nth: 2 },
        ThinningMethod::Grid2D { cell_amount: 1, max_points_per_cell: 1 },
        ThinningMethod::Grid3D { cell_amount: 1, max_points_per_cell: 1 },
        ThinningMethod::EveryNth { nth: 0 },
        ThinningMethod::Random { percent: 2_000 },
    ] {
        builder.with_thinning(thinning);
        assert!(matches!(builder.run_building_iterator(&points), Err(LaszyError::LaszyError(_))));
        assert!(matches!(builder.run_building_iterator(&Vec::new()), Err(LaszyError::LaszyError(_))));
        assert!(matches!(builder.to_cloud(&points), Err(LaszyError::LaszyError(_))));
        assert!(matches!(
            builder.perform_csf_simulation(&points, 500, 5_000, 10, 500),
            Err(LaszyError::LaszyError(_))
        ));
    }
}

#[test]
fn cloth_that_cannot_be_laid_out_is_a_configuration_error() {
    let (mut builder, points) = get_test_builder();
    assert!(matches!(builder.lay_cloth(500, 0, 10, 500), Err(LaszyError::LaszyError(_))));
    assert!(matches!(builder.lay_cloth(1_001, 5_000, 10, 500), Err(LaszyError::LaszyError(_))));
    assert!(matches!(builder.lay_cloth(-1, 5_000, 10, 500), Err(LaszyError::LaszyError(_))));
    assert!(matches!(builder.lay_cloth(500, 1, 10, 500), Err(LaszyError::LaszyError(_))));
    builder.with_crop(CroppingMethod::BoundingBox { lower_left: (5, 5), upper_right: (5, 9) });
    assert!(matches!(builder.lay_cloth(500, 5_000, 10, 500), Err(LaszyError::LaszyError(_))));
    builder.with_csf_ground_reclassification(500, 5_000, 10, 500);
    assert!(matches!(builder.to_cloud(&points), Err(LaszyError::LaszyError(_))));
    let single = vec![Point { x: 1, y: 2, z: 3, classification: 1 }];
    let mut flat = builder_over(&single);
    flat.with_csf_ground_reclassification(500, 5_000, 10, 500);
    assert!(matches!(flat.to_cloud(&single), Err(LaszyError::LaszyError(_))));
}

#[test]
fn cloth_is_laid_out_ten_metres_below_the_lowest_point() {
    let (mut builder, points) = get_test_builder();
    let lowest = points.iter().map(|p| p.z).min().unwrap();
    let cloth = builder.lay_cloth(250, 5_000, 10, 400).unwrap();
    assert_eq!((cloth.nrows(), cloth.ncols()), (8, 7));
    assert_eq!(cloth.bounds(), ((183_540_000, 332_390_000), (183_570_000, 332_425_000)));
    assert_eq!(cloth.particle(3, 4).z, lowest - 10_000);
    assert_eq!(cloth.rigidness(), 250);
    assert_eq!(cloth.simulation_threshold(), 10);
    assert_eq!(cloth.classification_threshold(), 400);
    builder.with_crop(inner_crop());
    let cropped = builder.lay_cloth(250, 5_000, 10, 400).unwrap();
    assert_eq!((cropped.nrows(), cropped.ncols()), (2, 3));
    assert_eq!(cropped.bounds(), ((183_551_470, 332_414_450), (183_561_470, 332_419_450)));
}

#[test]
fn first_pass_without_survivors_is_the_empty_cloud_failure() {
    let (mut builder, points) = get_test_builder();
    builder.with_crop(CroppingMethod::BoundingBox {
        lower_left: (182_011_300, 335_505_400),
        upper_right: (182_997_800, 336_497_500),
    });
    assert!(matches!(
        builder.perform_csf_simulation(&points, 500, 5_000, 10, 500),
        Err(LaszyError::EmptyCloud(_))
    ));
    builder.with_csf_ground_reclassification(500, 5_000, 10, 500);
    assert!(matches!(builder.to_cloud(&points), Err(LaszyError::EmptyCloud(_))));
    assert!(matches!(builder.run_building_iterator(&points), Err(LaszyError::EmptyCloud(_))));
    assert!(matches!(
        builder.to_dtm_using_csf(&"dtm.asc".to_string(), &points, 500, 5_000, 10),
        Err(LaszyError::EmptyCloud(_))
    ));
    let cloth = ClothSurface::initialize((0, 0), (10, 10), 5, 10, 500, 500, 0);
    assert!(matches!(PointCloudBuilder::settle_cloth(cloth), Err(LaszyError::EmptyCloud(_))));
}

#[test]
fn empty_crop_without_reclassification_gives_an_empty_cloud() {
    let (mut builder, points) = get_test_builder();
    builder.with_crop(CroppingMethod::BoundingBox {
        lower_left: (182_011_300, 335_505_400),
        upper_right: (182_997_800, 336_497_500),
    });
    let cloud = builder.to_cloud(&points).unwrap();
    assert_eq!(cloud.len(), 0);
}

#[test]
fn output_path_must_name_a_file_of_the_right_kind() {
    let (builder, points) = get_test_builder();
    assert!(builder.to_file(&"out.las".to_string(), &points).is_ok());
    assert!(builder.to_file(&"out.laz".to_string(), &points).is_ok());
    for path in ["out.txt", "out", "out.las.bak", "las", ""] {
        match builder.to_file(&path.to_string(), &points) {
            Err(LaszyError::InvalidFileExtension(text)) => assert_eq!(text, path),
            other => panic!("unexpected {:?}", other.map(|v| v.len())),
        }
    }
    for path in ["dtm.las", "dtm", "dtm.asc.txt"] {
        assert!(matches!(
            builder.to_dtm_using_csf(&path.to_string(), &points, 500, 5_000, 10),
            Err(LaszyError::InvalidFileExtension(_))
        ));
    }
}

#[test]
fn terrain_raster_of_four_points() {
    let points = vec![
        Point { x: 1_000, y: 9_000, z: 300, classification: 1 },
        Point { x: 6_000, y: 9_000, z: 800, classification: 1 },
        Point { x: 1_000, y: 1_000, z: 200, classification: 1 },
        Point { x: 7_000, y: 2_000, z: 400, classification: 1 },
    ];
    let builder = builder_over(&points);
    let text = builder.to_dtm_using_csf(&"dtm.asc".to_string(), &points, 500, 5_000, 10).unwrap();
    assert_eq!(
        text,
        "ncols 2\nnrows 2\nxllcorner 1\nyllcorner 1\ncellsize 5\nNODATA_value -9999\n0.3 0.362\n0.2 0.343\n"
    );
    let cloth = builder.perform_csf_simulation(&points, 500, 5_000, 10, 0).unwrap();
    assert_eq!(cloth.to_asc(), text);
    assert_eq!(cloth.classification_threshold(), 0);
    for p in &points {
        assert!(!cloth.is_ground_point(p));
    }
}

#[test]
fn raised_cluster_over_flat_ground_is_told_apart() {
    let base = 1_000i64;
    let mut points = Vec::new();
    for i in 0..100i64 {
        for j in 0..100i64 {
            points.push(Point { x: i * 1_000 + 500, y: j * 1_000 + 500, z: base, classification: UNCLASSIFIED });
        }
    }
    let plane = points.len();
    for i in 0..40i64 {
        for j in 0..40i64 {
            let classification = if (i + j) % 3 == 0 { 5 } else { GROUND };
            points.push(Point { x: 250 * i + 100, y: 250 * j + 100, z: base + 5_000, classification });
        }
    }
    let mut builder = builder_over(&points);
    builder.with_csf_ground_reclassification(500, 5_000, 10, 500);
    let cloud = builder.to_cloud(&points).unwrap();
    assert_eq!(cloud.len(), points.len());
    for (k, p) in cloud.points().iter().enumerate() {
        assert_eq!((p.x, p.y, p.z), (points[k].x, points[k].y, points[k].z));
        if k < plane {
            assert_eq!(p.classification, GROUND);
        } else if points[k].classification == GROUND {
            assert_eq!(p.classification, UNCLASSIFIED);
        } else {
            assert_eq!(p.classification, 5);
        }
    }
    let flags = cloud.ground_points();
    assert_eq!(flags.iter().filter(|g| **g).count(), plane);
}

#[test]
fn ground_at_elevation_zero_counts_as_a_gap() {
    // A ceiling of zero marks a cell that no point has reached, so a plane
    // at elevation zero is filled from the cluster above it.
    let mut points = Vec::new();
    for i in 0..100i64 {
        for j in 0..100i64 {
            points.push(Point { x: i * 1_000 + 500, y: j * 1_000 + 500, z: 0, classification: UNCLASSIFIED });
        }
    }
    let plane = points.len();
    for i in 0..40i64 {
        for j in 0..40i64 {
            points.push(Point { x: 250 * i + 100, y: 250 * j + 100, z: 5_000, classification: UNCLASSIFIED });
        }
    }
    let mut builder = builder_over(&points);
    builder.with_csf_ground_reclassification(500, 5_000, 10, 500);
    let cloud = builder.to_cloud(&points).unwrap();
    for (k, p) in cloud.points().iter().enumerate() {
        assert_eq!(p.classification == GROUND, k >= plane);
    }
}

#[test]
fn reclassification_only_demotes_former_ground() {
    let mut cloth = ClothSurface::initialize((0, 0), (10_000, 10_000), 5_000, 10, 500, 500, -1_000);
    for p in [(1_000, 9_000, 300), (6_000, 9_000, 800), (1_000, 1_000, 200), (7_000, 2_000, 400)] {
        cloth.set_max_z_if_closest_to_particle(&Point { x: p.0, y: p.1, z: p.2, classification: 1 });
    }
    let cloth = PointCloudBuilder::settle_cloth(cloth).unwrap();
    assert_eq!(cloth.particle(0, 0).z, 300);
    let near = |classification: u8| Point { x: 1_000, y: 9_000, z: 350, classification };
    let far = |classification: u8| Point { x: 1_000, y: 9_000, z: 5_000, classification };
    let outside = |classification: u8| Point { x: -5, y: 9_000, z: 300, classification };
    for code in [0u8, 1, 2, 5, 9, 255] {
        assert_eq!(PointCloudBuilder::reclassify(&cloth, near(code)), near(GROUND));
    }
    assert_eq!(PointCloudBuilder::reclassify(&cloth, far(GROUND)), far(UNCLASSIFIED));
    assert_eq!(PointCloudBuilder::reclassify(&cloth, outside(GROUND)), outside(UNCLASSIFIED));
    for code in [0u8, 1, 5, 9, 255] {
        assert_eq!(PointCloudBuilder::reclassify(&cloth, far(code)), far(code));
        assert_eq!(PointCloudBuilder::reclassify(&cloth, outside(code)), outside(code));
    }
}

#[test]
fn screening_step_by_step_matches_a_whole_run() {
    let (mut builder, points) = get_test_builder();
    builder.with_crop(inner_crop()).with_thinning(ThinningMethod::EveryNth { nth: 5 });
    let mut state = PassState::new();
    let mut kept = Vec::new();
    let mut passed_crop = 0usize;
    for p in &points {
        if inner_crop().is_in_bounds(p) {
            passed_crop += 1;
        }
        if builder.screen(&mut state, p).unwrap() {
            kept.push(*p);
        }
        assert_eq!(state.thin_count, passed_crop);
        assert_eq!(state.count, kept.len());
    }
    assert_eq!(kept, builder.run_building_iterator(&points).unwrap());
    assert_eq!(state.count, (passed_crop + 4) / 5);
}

#[test]
fn screening_reports_unsupported_thinning_only_for_points_within_the_crop() {
    let (mut builder, _) = get_test_builder();
    builder
        .with_crop(CroppingMethod::BoundingBox { lower_left: (0, 0), upper_right: (10, 10) })
        .with_thinning(ThinningMethod::Grid2D { cell_amount: 1, max_points_per_cell: 1 });
    let mut state = PassState::new();
    let outside = Point { x: 11, y: 0, z: 0, classification: 1 };
    let inside = Point { x: 10, y: 0, z: 0, classification: 1 };
    assert_eq!(builder.screen(&mut state, &outside).unwrap(), false);
    assert!(matches!(builder.screen(&mut state, &inside), Err(LaszyError::LaszyError(_))));
    assert_eq!((state.thin_count, state.count), (0, 0));
}

#[test]
fn each_pass_starts_its_counters_at_zero() {
    let (mut builder, points) = get_test_builder();
    builder
        .with_crop(inner_crop())
        .with_thinning(ThinningMethod::EveryNth { nth: 7 })
        .with_csf_ground_reclassification(500, 5_000, 10, 1_000);
    let with_cloth = builder.run_building_iterator(&points).unwrap();
    let mut plain = builder_over(&points);
    plain.with_crop(inner_crop()).with_thinning(ThinningMethod::EveryNth { nth: 7 });
    let without_cloth = plain.run_building_iterator(&points).unwrap();
    assert_eq!(with_cloth.len(), without_cloth.len());
    for (a, b) in with_cloth.iter().zip(without_cloth.iter()) {
        assert_eq!((a.x, a.y, a.z), (b.x, b.y, b.z));
    }
}

#[test]
fn deterministic_runs_repeat_exactly() {
    let (mut builder, points) = get_test_builder();
    builder
        .with_crop(inner_crop())
        .with_thinning(ThinningMethod::EveryNth { nth: 3 })
        .with_csf_ground_reclassification(500, 5_000, 10, 1_000);
    let first = builder.run_building_iterator(&points).unwrap();
    let second = builder.run_building_iterator(&points).unwrap();
    assert_eq!(first, second);
    assert!(first.iter().any(|p| p.classification == GROUND));
}

#[test]
fn random_thinning_draws_anew_in_each_pass() {
    // With random thinning the simulation pass and the output pass each make
    // their own trials: the points that shape the cloth and the points that
    // are emitted are two independent samples of the cropped stream, and two
    // runs need not agree. Only what holds of every outcome is checked.
    let (mut builder, points) = get_test_builder();
    builder
        .with_crop(inner_crop())
        .with_thinning(ThinningMethod::Random { percent: 500 })
        .with_csf_ground_reclassification(500, 5_000, 10, 1_000);
    let inside: Vec<Point> = points.iter().filter(|p| inner_crop().is_in_bounds(p)).cloned().collect();
    let emitted = builder.run_building_iterator(&points).unwrap();
    assert!(emitted.len() <= inside.len());
    let mut cursor = 0usize;
    for p in &emitted {
        while (inside[cursor].x, inside[cursor].y, inside[cursor].z) != (p.x, p.y, p.z) {
            cursor += 1;
        }
        cursor += 1;
    }
    builder.with_thinning(ThinningMethod::Random { percent: 1_000 });
    assert_eq!(builder.run_building_iterator(&points).unwrap().len(), inside.len());
    builder.with_thinning(ThinningMethod::Random { percent: 0 });
    assert!(matches!(builder.run_building_iterator(&points), Err(LaszyError::EmptyCloud(_))));
}

#[test]
fn setters_replace_one_setting_each() {
    let (mut builder, points) = get_test_builder();
    builder.with_thinning(ThinningMethod::EveryNth { nth: 2 });
    builder.with_thinning(ThinningMethod::Off);
    builder.with_crop(inner_crop());
    builder.with_crop(CroppingMethod::Off);
    assert_eq!(builder.run_building_iterator(&points).unwrap(), points);
    assert_eq!(builder.filepaths(), &vec!["test.las".to_string()]);
    assert_eq!(builder.get_metadata().point_count(), points.len() as u64);
}

#[test]
fn thinning_shorthands_set_the_matching_method() {
    let (mut builder, points) = get_test_builder();
    builder.with_thinning_every_nth(9);
    assert!(matches!(builder.thinning(), ThinningMethod::EveryNth { nth: 9 }));
    assert_eq!(builder.run_building_iterator(&points).unwrap().len(), (points.len() + 8) / 9);
    builder.with_thinning_random(1_000);
    assert!(matches!(builder.thinning(), ThinningMethod::Random { percent: 1_000 }));
    assert_eq!(builder.run_building_iterator(&points).unwrap(), points);
    builder.with_thinning_random(0).with_crop(inner_crop());
    assert!(matches!(builder.crop(), CroppingMethod::BoundingBox { .. }));
    assert!(builder.run_building_iterator(&points).unwrap().is_empty());
    assert_eq!(builder.csf_filter(), None);
    builder.with_csf_ground_reclassification(1, 2, 3, 4);
    assert_eq!(builder.csf_filter(), Some((1, 2, 3, 4)));
}

#[test]
fn survivors_beside_the_grid_are_the_empty_cloud_failure() {
    // The right edge of the box passes the crop, but the grid has no cell
    // for it when the width is a whole number of cells.
    let points = vec![
        Point { x: 10_000, y: 5_000, z: 7, classification: 1 },
        Point { x: 10_000, y: 2_000, z: 9, classification: 1 },
    ];
    let crop = CroppingMethod::BoundingBox { lower_left: (0, 0), upper_right: (10_000, 10_000) };
    assert!(crop.is_in_bounds(&points[0]));
    let mut builder = builder_over(&points);
    builder.with_crop(crop);
    assert_eq!(builder.lay_cloth(500, 5_000, 10, 500).unwrap().get_closest_cell(&points[0]), None);
    assert!(matches!(
        builder.perform_csf_simulation(&points, 500, 5_000, 10, 500),
        Err(LaszyError::EmptyCloud(_))
    ));
    assert!(matches!(
        builder.to_dtm_using_csf(&"dtm.asc".to_string(), &points, 500, 5_000, 10),
        Err(LaszyError::EmptyCloud(_))
    ));
    builder.with_csf_ground_reclassification(500, 5_000, 10, 500);
    assert!(matches!(builder.to_cloud(&points), Err(LaszyError::EmptyCloud(_))));
    assert!(matches!(builder.run_building_iterator(&points), Err(LaszyError::EmptyCloud(_))));
    assert!(matches!(
        builder.to_file(&"out.las".to_string(), &points),
        Err(LaszyError::EmptyCloud(_))
    ));
}

#[test]
fn survivors_at_elevation_zero_are_the_empty_cloud_failure() {
    let mut points = Vec::new();
    for i in 0..20i64 {
        for j in 0..20i64 {
            points.push(Point { x: i * 1_000, y: j * 1_000, z: 0, classification: GROUND });
        }
    }
    let mut builder = builder_over(&points);
    assert!(matches!(
        builder.perform_csf_simulation(&points, 500, 5_000, 10, 500),
        Err(LaszyError::EmptyCloud(_))
    ));
    builder.with_csf_ground_reclassification(500, 5_000, 10, 500);
    assert!(matches!(builder.to_cloud(&points), Err(LaszyError::EmptyCloud(_))));
    // The point nearest to the node of its cell sets that cell's ceiling.
    assert_eq!((points[4].x, points[4].y), (0, 4_000));
    points[4].z = 1;
    let cloth = builder.perform_csf_simulation(&points, 500, 5_000, 10, 500).unwrap();
    for i in 0..cloth.nrows() {
        for j in 0..cloth.ncols() {
            assert!(cloth.particle(i, j).max_z != 0);
        }
    }
    assert_eq!(builder.to_cloud(&points).unwrap().len(), points.len());
}

#[test]
fn settling_tests_the_cloth_for_a_ceiling() {
    let mut cloth = ClothSurface::initialize((0, 0), (10_000, 10_000), 5_000, 10, 500, 500, -1_000);
    assert!(!cloth.has_source());
    cloth.set_max_z_if_closest_to_particle(&Point { x: 10_000, y: 0, z: 5, classification: 1 });
    cloth.set_max_z_if_closest_to_particle(&Point { x: 1_000, y: 1_000, z: 0, classification: 1 });
    assert!(!cloth.has_source());
    assert!(matches!(PointCloudBuilder::settle_cloth(cloth), Err(LaszyError::EmptyCloud(_))));
    let mut cloth = ClothSurface::initialize((0, 0), (10_000, 10_000), 5_000, 10, 500, 500, -1_000);
    cloth.set_max_z_if_closest_to_particle(&Point { x: 9_000, y: 1_000, z: -5, classification: 1 });
    assert!(cloth.has_source());
    let settled = PointCloudBuilder::settle_cloth(cloth).unwrap();
    for i in 0..2 {
        for j in 0..2 {
            assert_eq!(settled.particle(i, j).max_z, -5);
            assert_eq!(settled.particle(i, j).z, -5);
        }
    }
}

#[test]
fn cloth_still_in_motion_is_not_handed_out() {
    let mut cloth = ClothSurface::initialize((0, 0), (5_000, 5_000), 5_000, 10, 500, 500, -10_000_000);
    cloth.set_max_z_if_closest_to_particle(&Point { x: 100, y: 100, z: 3_000, classification: 1 });
    cloth.set_max_iterations(100_000);
    assert!(matches!(PointCloudBuilder::settle_cloth(cloth), Err(LaszyError::LaszyError(_))));
    let mut cloth = ClothSurface::initialize((0, 0), (5_000, 5_000), 5_000, 10, 500, 500, -10_000_000);
    cloth.set_max_z_if_closest_to_particle(&Point { x: 100, y: 100, z: 3_000, classification: 1 });
    let settled = PointCloudBuilder::settle_cloth(cloth).unwrap();
    assert_eq!(settled.particle(0, 0).z, 3_000);
    assert!(!settled.particle(0, 0).is_moveable);
}

#[test]
fn wide_relief_is_simulated_to_rest() {
    let points = vec![
        Point { x: 0, y: 0, z: -6_000_000, classification: 1 },
        Point { x: 4_000, y: 4_000, z: 2_000_000, classification: GROUND },
    ];
    let mut builder = builder_over(&points);
    builder.with_csf_ground_reclassification(500, 5_000, 10, 500);
    let cloud = builder.to_cloud(&points).unwrap();
    assert_eq!(cloud.len(), 2);
    let cloth = builder.perform_csf_simulation(&points, 500, 5_000, 10, 500).unwrap();
    for i in 0..cloth.nrows() {
        for j in 0..cloth.ncols() {
            let node = cloth.particle(i, j);
            assert!(!node.is_moveable);
            assert_eq!(node.z, node.max_z);
        }
    }
}

#[test]
fn simulation_threshold_below_one_unit_cannot_come_to_rest() {
    let (mut builder, points) = get_test_builder();
    for threshold in [0i64, -1, i64::MIN] {
        assert!(matches!(
            builder.perform_csf_simulation(&points, 500, 5_000, threshold, 500),
            Err(LaszyError::LaszyError(_))
        ));
        builder.with_csf_ground_reclassification(500, 5_000, threshold, 500);
        assert!(matches!(builder.to_cloud(&points), Err(LaszyError::LaszyError(_))));
    }
    builder.with_csf_ground_reclassification(500, 5_000, 1, 500);
    assert_eq!(builder.to_cloud(&points).unwrap().len(), points.len());
}
