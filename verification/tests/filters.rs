use laszy::builder::has_suffix;
use laszy::units::{ceil_div_exec, floor_div_exec, trunc_div_exec, GROUND, UNCLASSIFIED};
use laszy::{Bounds, CroppingMethod, LaszyError, Point, ThinningMethod, Vector};

fn at(x: i64, y: i64, z: i64) -> Point {
    Point { x, y, z, classification: UNCLASSIFIED }
}

#[test]
fn crop_off_keeps_every_point() {
    let crop = CroppingMethod::Off;
    assert!(crop.is_in_bounds(&at(0, 0, 0)));
    assert!(crop.is_in_bounds(&at(i64::MIN, i64::MAX, -7)));
}

#[test]
fn crop_box_is_inclusive_on_every_edge() {
    let crop = CroppingMethod::BoundingBox { lower_left: (10, 20), upper_right: (30, 40) };
    assert!(crop.is_in_bounds(&at(10, 20, 0)));
    assert!(crop.is_in_bounds(&at(30, 40, 0)));
    assert!(crop.is_in_bounds(&at(10, 40, 0)));
    assert!(crop.is_in_bounds(&at(30, 20, 0)));
    assert!(crop.is_in_bounds(&at(20, 30, 0)));
    assert!(!crop.is_in_bounds(&at(9, 30, 0)));
    assert!(!crop.is_in_bounds(&at(31, 30, 0)));
    assert!(!crop.is_in_bounds(&at(20, 19, 0)));
    assert!(!crop.is_in_bounds(&at(20, 41, 0)));
}

#[test]
fn crop_box_ignores_elevation() {
    let crop = CroppingMethod::BoundingBox { lower_left: (0, 0), upper_right: (5, 5) };
    assert!(crop.is_in_bounds(&at(1, 1, i64::MAX)));
    assert!(crop.is_in_bounds(&at(1, 1, i64::MIN)));
}

#[test]
fn crop_default_is_off() {
    assert!(matches!(CroppingMethod::default(), CroppingMethod::Off));
}

#[test]
fn thinning_default_is_off() {
    assert!(matches!(ThinningMethod::default(), ThinningMethod::Off));
}

#[test]
fn thinning_off_keeps_every_index() {
    let thinning = ThinningMethod::Off;
    for i in [0usize, 1, 2, 17, usize::MAX] {
        assert_eq!(thinning.is_included(i).unwrap(), true);
    }
}

#[test]
fn every_nth_keeps_index_zero_and_multiples() {
    let thinning = ThinningMethod::EveryNth { nth: 4 };
    let kept: Vec<usize> = (0..10usize).filter(|i| thinning.is_included(*i).unwrap()).collect();
    assert_eq!(kept, vec![0, 4, 8]);
    for nth in [1usize, 2, 3, 40, 40_000_000] {
        assert!(ThinningMethod::EveryNth { nth }.is_included(0).unwrap());
    }
}

#[test]
fn every_nth_count_is_ceiling_of_quotient() {
    for nth in 1usize..8 {
        for total in 0usize..40 {
            let thinning = ThinningMethod::EveryNth { nth };
            let kept = (0..total).filter(|i| thinning.is_included(*i).unwrap()).count();
            assert_eq!(kept, (total + nth - 1) / nth);
        }
    }
}

#[test]
fn every_nth_with_stride_zero_is_a_configuration_error() {
    let thinning = ThinningMethod::EveryNth { nth: 0 };
    assert!(!thinning.is_supported());
    assert!(matches!(thinning.is_included(0), Err(LaszyError::LaszyError(_))));
    assert!(matches!(thinning.decide(5, true), Err(LaszyError::LaszyError(_))));
}

#[test]
fn unimplemented_thinning_variants_are_configuration_errors() {
    let variants = [
        ThinningMethod::EveryNthRandom { nth: 3 },
        ThinningMethod::Grid2D { cell_amount: 4, max_points_per_cell: 2 },
        ThinningMethod::Grid3D { cell_amount: 4, max_points_per_cell: 2 },
    ];
    for thinning in variants {
        assert!(!thinning.is_supported());
        assert!(matches!(thinning.is_included(0), Err(LaszyError::LaszyError(_))));
        assert!(matches!(thinning.is_included(7), Err(LaszyError::LaszyError(_))));
        assert!(matches!(thinning.decide(7, false), Err(LaszyError::LaszyError(_))));
    }
}

#[test]
fn random_thinning_with_probability_above_one_is_a_configuration_error() {
    let thinning = ThinningMethod::Random { percent: 1001 };
    assert!(!thinning.is_supported());
    assert!(matches!(thinning.is_included(0), Err(LaszyError::LaszyError(_))));
}

#[test]
fn random_thinning_is_certain_at_both_ends() {
    let never = ThinningMethod::Random { percent: 0 };
    let always = ThinningMethod::Random { percent: 1000 };
    for i in 0..2000usize {
        assert_eq!(never.is_included(i).unwrap(), false);
        assert_eq!(always.is_included(i).unwrap(), true);
    }
}

#[test]
fn random_thinning_keeps_about_its_share() {
    let thinning = ThinningMethod::Random { percent: 100 };
    let kept = (0..50_000usize).filter(|i| thinning.is_included(*i).unwrap()).count();
    // 50 000 trials at one in ten: mean 5 000, standard deviation 67.
    assert!(kept > 4_500 && kept < 5_500, "kept {}", kept);
}

#[test]
fn decide_follows_the_draw_only_for_random() {
    let random = ThinningMethod::Random { percent: 500 };
    assert_eq!(random.decide(3, true).unwrap(), true);
    assert_eq!(random.decide(3, false).unwrap(), false);
    let nth = ThinningMethod::EveryNth { nth: 3 };
    assert_eq!(nth.decide(3, false).unwrap(), true);
    assert_eq!(nth.decide(4, true).unwrap(), false);
    assert_eq!(ThinningMethod::Off.decide(4, false).unwrap(), true);
}

#[test]
fn supported_methods_are_reported_as_such() {
    assert!(ThinningMethod::Off.is_supported());
    assert!(ThinningMethod::Random { percent: 0 }.is_supported());
    assert!(ThinningMethod::Random { percent: 1000 }.is_supported());
    assert!(ThinningMethod::EveryNth { nth: 1 }.is_supported());
}

#[test]
fn bounds_start_empty_and_grow_to_hold_points() {
    let mut bounds = Bounds::new();
    assert_eq!(bounds.min, Vector { x: i64::MAX, y: i64::MAX, z: i64::MAX });
    assert_eq!(bounds.max, Vector { x: i64::MIN, y: i64::MIN, z: i64::MIN });
    assert_eq!(Bounds::default(), bounds);
    bounds.grow(&at(1000, 2000, 3000));
    assert_eq!(bounds.min, Vector { x: 1000, y: 2000, z: 3000 });
    assert_eq!(bounds.max, Vector { x: 1000, y: 2000, z: 3000 });
    bounds.grow(&at(-5, 2500, 10));
    assert_eq!(bounds.min, Vector { x: -5, y: 2000, z: 10 });
    assert_eq!(bounds.max, Vector { x: 1000, y: 2500, z: 3000 });
}

#[test]
fn integer_quotients_round_as_named() {
    assert_eq!(floor_div_exec(7, 2), 3);
    assert_eq!(floor_div_exec(-7, 2), -4);
    assert_eq!(floor_div_exec(-8, 2), -4);
    assert_eq!(floor_div_exec(0, 5), 0);
    assert_eq!(ceil_div_exec(7, 2), 4);
    assert_eq!(ceil_div_exec(-7, 2), -3);
    assert_eq!(ceil_div_exec(8, 2), 4);
    assert_eq!(ceil_div_exec(1, 5000), 1);
    assert_eq!(trunc_div_exec(7, 2), 3);
    assert_eq!(trunc_div_exec(-7, 2), -3);
    assert_eq!(trunc_div_exec(-275_000, 2000), -137);
}

#[test]
fn suffix_test_compares_the_end_of_the_text() {
    assert!(has_suffix("result.las", ".las"));
    assert!(has_suffix("result.laz", ".laz"));
    assert!(!has_suffix("result.las", ".laz"));
    assert!(!has_suffix("las", ".las"));
    assert!(has_suffix(".asc", ".asc"));
    assert!(!has_suffix("dtm.ASC", ".asc"));
    assert!(has_suffix("anything", ""));
}

#[test]
fn classification_codes_are_the_standard_ones() {
    assert_eq!(GROUND, 2);
    assert_eq!(UNCLASSIFIED, 1);
}
