use laszy::csf::particle::Particle;
use laszy::csf::raster::push_decimal;
use laszy::csf::surface::{ClothSurface, SimulationReport};
use laszy::Point;

fn at(x: i64, y: i64, z: i64) -> Point {
    Point { x, y, z, classification: 1 }
}

fn heights(surface: &ClothSurface) -> Vec<Vec<i64>> {
    (0..surface.nrows())
        .map(|i| (0..surface.ncols()).map(|j| surface.particle(i, j).z).collect())
        .collect()
}

fn ceilings(surface: &ClothSurface) -> Vec<Vec<i64>> {
    (0..surface.nrows())
        .map(|i| (0..surface.ncols()).map(|j| surface.particle(i, j).max_z).collect())
        .collect()
}

fn two_by_two(simulation_threshold: i64) -> ClothSurface {
    let mut surface =
        ClothSurface::initialize((0, 0), (10_000, 10_000), 5_000, simulation_threshold, 500, 500, -1_000);
    for p in [at(1_000, 9_000, 300), at(6_000, 9_000, 800), at(1_000, 1_000, 200), at(7_000, 2_000, 400)] {
        surface.set_max_z_if_closest_to_particle(&p);
    }
    surface
}

fn decimal(value: i64) -> String {
    let mut text = String::new();
    push_decimal(&mut text, value);
    text
}

#[test]
fn particle_new_starts_moveable_at_rest() {
    let p = Particle::new(1, 2, 3, 4);
    assert_eq!(
        p,
        Particle {
            x: 1,
            y: 2,
            z: 3,
            max_z: 4,
            prev_z: 3,
            is_moveable: true,
            closest_pt_distance: u128::MAX
        }
    );
}

#[test]
fn particle_default_is_blank() {
    assert_eq!(
        Particle::default(),
        Particle {
            x: 0,
            y: 0,
            z: 0,
            max_z: 0,
            prev_z: 0,
            is_moveable: true,
            closest_pt_distance: u128::MAX
        }
    );
}

#[test]
fn z_difference_is_exact_over_the_whole_range() {
    let high = Particle::new(0, 0, i64::MAX, 0);
    let low = Particle::new(0, 0, i64::MIN, 0);
    assert_eq!(high.z_difference(&low), i64::MAX as i128 - i64::MIN as i128);
    assert_eq!(low.z_difference(&high), i64::MIN as i128 - i64::MAX as i128);
    assert_eq!(Particle::new(0, 0, 5, 0).z_difference(&Particle::new(0, 0, 7, 0)), -2);
}

#[test]
fn forces_move_node_and_neighbour_toward_each_other() {
    let mut node = Particle::new(0, 0, 1_000, 100_000);
    let mut others = vec![Particle::new(5, 0, 0, 100_000)];
    node.apply_force(500, &mut others, 50);
    assert_eq!(node.z, 800);
    assert_eq!(others[0].z, 250);
    assert!(node.is_moveable && others[0].is_moveable);
    assert_eq!(node.prev_z, 1_000);
    assert_eq!((node.x, node.y, node.max_z), (0, 0, 100_000));
}

#[test]
fn internal_force_rounds_toward_zero() {
    let mut node = Particle::new(0, 0, 0, 100_000);
    let mut others = vec![Particle::new(5, 0, 550, 100_000)];
    node.apply_force(500, &mut others, 50);
    assert_eq!(others[0].z, 413);
    assert_eq!(node.z, 187);
}

#[test]
fn pinned_neighbour_is_not_moved() {
    let mut node = Particle::new(0, 0, 1_000, 100_000);
    let mut pinned = Particle::new(5, 0, 0, 0);
    pinned.is_moveable = false;
    let mut others = vec![pinned];
    node.apply_force(500, &mut others, 50);
    assert_eq!(others[0], pinned);
    assert_eq!(node.z, 800);
}

#[test]
fn pinned_node_is_not_moved() {
    let mut node = Particle::new(0, 0, 300, 300);
    node.is_moveable = false;
    let mut others = vec![Particle::new(5, 0, 100, 100_000)];
    node.apply_force(500, &mut others, 50);
    assert_eq!(node.z, 300);
    assert!(!node.is_moveable);
    assert_eq!(others[0].z, 150);
}

#[test]
fn node_that_would_pass_its_ceiling_is_pinned_to_it() {
    let mut node = Particle::new(0, 0, 1_000, 780);
    let mut others = vec![Particle::new(5, 0, 0, 100_000)];
    node.apply_force(500, &mut others, 50);
    assert_eq!(node.z, 780);
    assert!(!node.is_moveable);
    let mut exact = Particle::new(0, 0, 950, 1_000);
    exact.apply_force(500, &mut Vec::new(), 50);
    assert_eq!(exact.z, 1_000);
    assert!(exact.is_moveable);
    exact.apply_force(500, &mut Vec::new(), 50);
    assert_eq!(exact.z, 1_000);
    assert!(!exact.is_moveable);
}

#[test]
fn rigidness_scales_the_exchange() {
    let mut loose = Particle::new(0, 0, 1_000, 100_000);
    let mut others = vec![Particle::new(5, 0, 0, 100_000)];
    loose.apply_force(0, &mut others, 50);
    assert_eq!((loose.z, others[0].z), (1_050, 0));
    let mut stiff = Particle::new(0, 0, 1_000, 100_000);
    let mut others = vec![Particle::new(5, 0, 0, 100_000), Particle::new(0, 5, 0, 100_000)];
    stiff.apply_force(1_000, &mut others, 50);
    assert_eq!((stiff.z, others[0].z, others[1].z), (300, 500, 250));
}

#[test]
fn forces_do_not_overflow_at_the_ends_of_the_range() {
    let mut node = Particle::new(0, 0, i64::MAX, i64::MAX);
    let mut others = vec![Particle::new(5, 0, i64::MIN, i64::MAX)];
    node.apply_force(1_000, &mut others, i64::MAX);
    assert_eq!(others[0].z, -1);
    assert_eq!(node.z, i64::MAX);
    assert!(node.is_moveable);
    let mut low = Particle::new(0, 0, i64::MAX, i64::MIN);
    low.apply_force(1_000, &mut Vec::new(), i64::MAX);
    assert_eq!(low.z, i64::MIN);
    assert!(!low.is_moveable);
}

#[test]
fn grid_covers_the_requested_box() {
    let surface = ClothSurface::initialize((0, 0), (100_000, 100_000), 5_000, 100, 500, 500, -10_000);
    assert_eq!((surface.nrows(), surface.ncols()), (20, 20));
    assert_eq!(surface.bounds(), ((0, 0), (95_000, 95_000)));
    assert_eq!(surface.cell_resolution(), 5_000);
    let odd = ClothSurface::initialize((-3_000, 1_000), (9_000, 8_000), 5_000, 100, 500, 500, 7);
    assert_eq!((odd.nrows(), odd.ncols()), (2, 3));
    assert_eq!(odd.bounds(), ((-3_000, 1_000), (7_000, 6_000)));
    let tiny = ClothSurface::initialize((0, 0), (1, 1), 5_000, 100, 500, 500, 7);
    assert_eq!((tiny.nrows(), tiny.ncols()), (1, 1));
    assert_eq!(tiny.bounds(), ((0, 0), (0, 0)));
}

#[test]
fn fresh_cloth_is_flat_with_unset_ceilings() {
    let surface = ClothSurface::initialize((-3_000, 1_000), (9_000, 8_000), 5_000, 100, 400, 250, -777);
    for i in 0..2usize {
        for j in 0..3usize {
            assert_eq!(
                surface.particle(i, j),
                Particle {
                    x: -3_000 + 5_000 * j as i64,
                    y: 1_000 + 5_000 * i as i64,
                    z: -777,
                    max_z: 0,
                    prev_z: -777,
                    is_moveable: true,
                    closest_pt_distance: u128::MAX
                }
            );
        }
    }
    assert_eq!(surface.simulation_threshold(), 100);
    assert_eq!(surface.classification_threshold(), 400);
    assert_eq!(surface.rigidness(), 250);
    assert_eq!(surface.displacement(), 50);
    assert_eq!(surface.max_iterations(), usize::MAX);
}

#[test]
fn layout_is_refused_for_what_no_grid_can_cover() {
    assert!(ClothSurface::can_initialize((0, 0), (10, 10), 5, 500));
    assert!(ClothSurface::can_initialize((0, 0), (10, 10), 5, 0));
    assert!(ClothSurface::can_initialize((0, 0), (10, 10), 5, 1_000));
    assert!(!ClothSurface::can_initialize((0, 0), (10, 10), 0, 500));
    assert!(!ClothSurface::can_initialize((0, 0), (10, 10), -5, 500));
    assert!(!ClothSurface::can_initialize((0, 0), (10, 10), 5, -1));
    assert!(!ClothSurface::can_initialize((0, 0), (10, 10), 5, 1_001));
    assert!(!ClothSurface::can_initialize((0, 0), (0, 10), 5, 500));
    assert!(!ClothSurface::can_initialize((0, 0), (10, 0), 5, 500));
    assert!(!ClothSurface::can_initialize((10, 10), (0, 0), 5, 500));
    assert!(!ClothSurface::can_initialize((0, 0), (0x100_0000_0001, 10), 5_000, 500));
    assert!(!ClothSurface::can_initialize((-0x100_0000_0001, 0), (0, 10), 5_000, 500));
    assert!(ClothSurface::can_initialize((0, 0), (4_096, 4_096), 1, 500));
    assert!(!ClothSurface::can_initialize((0, 0), (4_097, 4_096), 1, 500));
}

#[test]
fn points_are_mapped_to_cells_by_floor_and_ceiling() {
    let surface = ClothSurface::initialize((0, 0), (10_000, 10_000), 5_000, 10, 500, 500, -1_000);
    assert_eq!(surface.get_closest_cell(&at(1_000, 9_000, 0)), Some((0, 0)));
    assert_eq!(surface.get_closest_cell(&at(0, 0, 0)), Some((1, 0)));
    assert_eq!(surface.get_closest_cell(&at(0, 1, 0)), Some((1, 0)));
    assert_eq!(surface.get_closest_cell(&at(0, 5_000, 0)), Some((0, 0)));
    assert_eq!(surface.get_closest_cell(&at(0, 5_001, 0)), Some((0, 0)));
    assert_eq!(surface.get_closest_cell(&at(0, 9_999, 0)), Some((0, 0)));
    assert_eq!(surface.get_closest_cell(&at(4_999, 4_999, 0)), Some((1, 0)));
    assert_eq!(surface.get_closest_cell(&at(5_000, 4_999, 0)), Some((1, 1)));
    assert_eq!(surface.get_closest_cell(&at(9_999, 5_000, 0)), Some((0, 1)));
}

#[test]
fn points_beside_the_grid_have_no_cell() {
    let surface = ClothSurface::initialize((0, 0), (10_000, 10_000), 5_000, 10, 500, 500, -1_000);
    assert_eq!(surface.get_closest_cell(&at(10_000, 0, 0)), None);
    assert_eq!(surface.get_closest_cell(&at(0, 10_000, 0)), None);
    assert_eq!(surface.get_closest_cell(&at(-1, 0, 0)), None);
    assert_eq!(surface.get_closest_cell(&at(0, -1, 0)), None);
    assert_eq!(surface.get_closest_cell(&at(i64::MAX, i64::MAX, 0)), None);
    assert_eq!(surface.get_closest_cell(&at(i64::MIN, i64::MIN, 0)), None);
}

#[test]
fn ceiling_follows_the_nearest_point_seen() {
    let mut surface = ClothSurface::initialize((0, 0), (10_000, 10_000), 5_000, 10, 500, 500, -1_000);
    surface.set_max_z_if_closest_to_particle(&at(1_000, 9_000, 300));
    let cell = surface.particle(0, 0);
    assert_eq!((cell.max_z, cell.closest_pt_distance), (300, 82_000_000));
    surface.set_max_z_if_closest_to_particle(&at(2_000, 9_500, 999));
    assert_eq!(surface.particle(0, 0).max_z, 300);
    surface.set_max_z_if_closest_to_particle(&at(1_000, 9_000, 555));
    assert_eq!(surface.particle(0, 0).max_z, 300);
    surface.set_max_z_if_closest_to_particle(&at(500, 6_000, -40));
    let cell = surface.particle(0, 0);
    assert_eq!((cell.max_z, cell.closest_pt_distance), (-40, 36_250_000));
    assert_eq!((cell.z, cell.prev_z, cell.is_moveable), (-1_000, -1_000, true));
    assert_eq!(ceilings(&surface), vec![vec![-40, 0], vec![0, 0]]);
}

#[test]
fn point_beside_the_grid_changes_nothing() {
    let mut surface = two_by_two(10);
    let before: Vec<Particle> = (0..2).flat_map(|i| (0..2).map(move |j| (i, j))).map(|(i, j)| surface.particle(i, j)).collect();
    surface.set_max_z_if_closest_to_particle(&at(10_000, 0, 9));
    surface.set_max_z_if_closest_to_particle(&at(0, -1, 9));
    let after: Vec<Particle> = (0..2).flat_map(|i| (0..2).map(move |j| (i, j))).map(|(i, j)| surface.particle(i, j)).collect();
    assert_eq!(before, after);
}

#[test]
fn gaps_take_the_ceiling_of_the_nearest_filled_cell() {
    let mut surface = ClothSurface::initialize((0, 0), (15_000, 15_000), 5_000, 10, 500, 500, -1_000);
    surface.set_max_z_if_closest_to_particle(&at(100, 12_000, 700));
    surface.set_max_z_if_closest_to_particle(&at(12_000, 100, 900));
    assert_eq!(ceilings(&surface), vec![vec![700, 0, 0], vec![0, 0, 0], vec![0, 0, 900]]);
    surface.fix_zero_max_heights();
    assert_eq!(ceilings(&surface), vec![vec![700, 700, 700], vec![700, 700, 900], vec![700, 900, 900]]);
    assert_eq!(heights(&surface), vec![vec![-1_000; 3]; 3]);
}

#[test]
fn equally_near_cells_are_resolved_in_row_major_order() {
    let mut surface = ClothSurface::initialize((0, 0), (15_000, 5_000), 5_000, 10, 500, 500, -1_000);
    surface.set_max_z_if_closest_to_particle(&at(12_000, 100, 900));
    surface.set_max_z_if_closest_to_particle(&at(100, 100, 700));
    surface.fix_zero_max_heights();
    assert_eq!(ceilings(&surface), vec![vec![700, 700, 900]]);
}

#[test]
fn no_ceiling_is_zero_after_gap_filling_unless_all_were() {
    let mut surface = ClothSurface::initialize((0, 0), (50_000, 40_000), 5_000, 10, 500, 500, -1_000);
    surface.set_max_z_if_closest_to_particle(&at(23_000, 17_000, -3));
    surface.fix_zero_max_heights();
    for row in ceilings(&surface) {
        for ceiling in row {
            assert_eq!(ceiling, -3);
        }
    }
    let mut empty = ClothSurface::initialize((0, 0), (50_000, 40_000), 5_000, 10, 500, 500, -1_000);
    empty.fix_zero_max_heights();
    assert_eq!(ceilings(&empty), vec![vec![0; 10]; 8]);
    let mut zeros = ClothSurface::initialize((0, 0), (50_000, 40_000), 5_000, 10, 500, 500, -1_000);
    zeros.set_max_z_if_closest_to_particle(&at(23_000, 17_000, 0));
    zeros.fix_zero_max_heights();
    assert_eq!(ceilings(&zeros), vec![vec![0; 10]; 8]);
}

#[test]
fn neighbours_are_listed_before_after_left_right() {
    let surface = ClothSurface::initialize((0, 0), (15_000, 15_000), 5_000, 10, 500, 500, 0);
    assert_eq!(surface.get_neighbours(1, 1), vec![(0, 1), (2, 1), (1, 0), (1, 2)]);
    assert_eq!(surface.get_neighbours(0, 0), vec![(1, 0), (0, 1)]);
    assert_eq!(surface.get_neighbours(2, 2), vec![(1, 2), (2, 1)]);
    assert_eq!(surface.get_neighbours(0, 1), vec![(1, 1), (0, 0), (0, 2)]);
    assert_eq!(surface.get_neighbours(2, 0), vec![(1, 0), (2, 1)]);
    let single = ClothSurface::initialize((0, 0), (5_000, 5_000), 5_000, 10, 500, 500, 0);
    assert_eq!(single.get_neighbours(0, 0), Vec::<(usize, usize)>::new());
}

#[test]
fn sweep_updates_in_place_in_row_major_order() {
    let mut surface = two_by_two(10);
    assert_eq!(ceilings(&surface), vec![vec![300, 800], vec![200, 400]]);
    assert_eq!(surface.iterate(), 77);
    assert_eq!(heights(&surface), vec![vec![-971, -953], vec![-953, -923]]);
    assert_eq!(surface.particle(1, 1).prev_z, -923);
    assert_eq!(surface.iterate(), 56);
    assert_eq!(heights(&surface), vec![vec![-930, -901], vec![-902, -867]]);
    assert_eq!(surface.iterate(), 51);
    assert_eq!(heights(&surface), vec![vec![-883, -850], vec![-851, -816]]);
}

#[test]
fn simulation_stops_when_no_node_moved_as_far_as_the_threshold() {
    let mut surface = two_by_two(100);
    assert_eq!(surface.simulate(), SimulationReport { sweeps: 1, still: true });
    assert_eq!(heights(&surface), vec![vec![-971, -953], vec![-953, -923]]);
    let mut surface = two_by_two(77);
    assert_eq!(surface.simulate(), SimulationReport { sweeps: 2, still: true });
    assert_eq!(heights(&surface), vec![vec![-930, -901], vec![-902, -867]]);
    let mut surface = two_by_two(57);
    assert_eq!(surface.simulate(), SimulationReport { sweeps: 2, still: true });
    let mut surface = two_by_two(56);
    assert_eq!(surface.simulate(), SimulationReport { sweeps: 3, still: true });
    assert_eq!(heights(&surface), vec![vec![-883, -850], vec![-851, -816]]);
}

#[test]
fn simulation_stops_at_the_iteration_cap() {
    let mut surface = two_by_two(0);
    surface.set_max_iterations(3);
    assert_eq!(surface.simulate(), SimulationReport { sweeps: 3, still: false });
    assert_eq!(heights(&surface), vec![vec![-883, -850], vec![-851, -816]]);
    let mut idle = two_by_two(0);
    idle.set_max_iterations(0);
    assert_eq!(idle.simulate(), SimulationReport { sweeps: 0, still: false });
    assert_eq!(heights(&idle), vec![vec![-1_000; 2]; 2]);
}

#[test]
fn simulation_converges_onto_the_ceilings() {
    let mut surface = two_by_two(10);
    surface.iterate();
    surface.iterate();
    assert_eq!(surface.simulate(), SimulationReport { sweeps: 28, still: true });
    assert_eq!(heights(&surface), vec![vec![300, 362], vec![200, 343]]);
    assert!(!surface.particle(0, 0).is_moveable);
    assert!(surface.particle(0, 1).is_moveable);
    assert!(!surface.particle(1, 0).is_moveable);
    assert!(surface.particle(1, 1).is_moveable);
    assert_eq!(ceilings(&surface), vec![vec![300, 800], vec![200, 400]]);
}

#[test]
fn pinned_nodes_stay_pinned_and_in_place() {
    let mut surface = two_by_two(10);
    surface.simulate();
    let pinned = surface.particle(0, 0);
    assert!(!pinned.is_moveable);
    for _ in 0..50 {
        surface.iterate();
        let now = surface.particle(0, 0);
        assert!(!now.is_moveable);
        assert_eq!(now.z, pinned.z);
    }
}

#[test]
fn ground_test_is_strict_on_the_threshold() {
    let mut surface = two_by_two(10);
    surface.simulate();
    assert_eq!(surface.particle(0, 1).z, 362);
    assert!(surface.is_ground_point(&at(1_000, 9_000, 300)));
    assert!(surface.is_ground_point(&at(6_000, 9_000, 800)));
    assert!(surface.is_ground_point(&at(6_000, 9_000, 861)));
    assert!(!surface.is_ground_point(&at(6_000, 9_000, 862)));
    assert!(surface.is_ground_point(&at(6_000, 9_000, -137)));
    assert!(!surface.is_ground_point(&at(6_000, 9_000, -138)));
    assert!(!surface.is_ground_point(&at(6_000, 9_000, i64::MIN)));
    assert!(!surface.is_ground_point(&at(6_000, 9_000, i64::MAX)));
}

#[test]
fn points_beside_the_grid_are_never_ground() {
    let mut surface = two_by_two(10);
    surface.set_classification_threshold(i64::MAX);
    surface.simulate();
    assert!(surface.is_ground_point(&at(0, 0, 0)));
    assert!(!surface.is_ground_point(&at(10_000, 0, 300)));
    assert!(!surface.is_ground_point(&at(0, 10_000, 300)));
    assert!(!surface.is_ground_point(&at(-1, 5, 300)));
}

#[test]
fn ground_test_gives_the_same_answer_when_repeated() {
    let mut surface = two_by_two(10);
    surface.simulate();
    for p in [at(1_000, 9_000, 300), at(6_000, 9_000, 862), at(20_000, 0, 0), at(7_000, 2_000, 0)] {
        let first = surface.is_ground_point(&p);
        for _ in 0..20 {
            assert_eq!(surface.is_ground_point(&p), first);
        }
    }
}

#[test]
fn flat_input_settles_the_cloth_on_the_input() {
    for (z0, threshold) in
        [(2_000i64, 13i64), (2_000, 10), (-3_000, 10), (0, 10), (2_000, 1), (-7, 1), (0, 1)]
    {
        let mut surface = ClothSurface::initialize(
            (300, 700),
            (29_300, 29_700),
            5_000,
            threshold,
            500,
            500,
            z0 - 10_000,
        );
        for i in 0..30i64 {
            for j in 0..30i64 {
                surface.set_max_z_if_closest_to_particle(&at(i * 1_000 + 300, j * 1_000 + 700, z0));
            }
        }
        surface.fix_zero_max_heights();
        let report = surface.simulate();
        assert!(report.still);
        for row in heights(&surface) {
            for z in row {
                assert!((z - z0).abs() < surface.classification_threshold());
                assert!(z0 - threshold < z && z <= z0);
                if threshold <= 1 {
                    assert_eq!(z, z0);
                }
            }
        }
    }
}

#[test]
fn coarse_simulation_threshold_stops_the_cloth_far_below_flat_input() {
    let z0 = 2_000i64;
    let mut surface =
        ClothSurface::initialize((300, 700), (29_300, 29_700), 5_000, 100, 500, 500, z0 - 10_000);
    for i in 0..30i64 {
        for j in 0..30i64 {
            surface.set_max_z_if_closest_to_particle(&at(i * 1_000 + 300, j * 1_000 + 700, z0));
        }
    }
    surface.fix_zero_max_heights();
    assert_eq!(surface.simulate(), SimulationReport { sweeps: 1, still: true });
    for row in heights(&surface) {
        for z in row {
            assert!(z < z0 - 9_000);
        }
    }
}

#[test]
fn decimal_text_of_thousandths() {
    assert_eq!(decimal(0), "0");
    assert_eq!(decimal(5), "0.005");
    assert_eq!(decimal(-50), "-0.05");
    assert_eq!(decimal(100), "0.1");
    assert_eq!(decimal(120), "0.12");
    assert_eq!(decimal(1_000), "1");
    assert_eq!(decimal(12_345), "12.345");
    assert_eq!(decimal(-9_999_000), "-9999");
    assert_eq!(decimal(183_551_470), "183551.47");
    assert_eq!(decimal(i64::MAX), "9223372036854775.807");
    assert_eq!(decimal(i64::MIN), "-9223372036854775.808");
    let mut text = String::from("z=");
    push_decimal(&mut text, -1_001);
    assert_eq!(text, "z=-1.001");
}

#[test]
fn raster_text_of_a_fresh_cloth() {
    let surface = ClothSurface::initialize(
        (183_551_470, -332_414_450),
        (183_558_470, -332_410_450),
        2_500,
        100,
        500,
        500,
        -12_050,
    );
    assert_eq!(
        surface.to_asc(),
        "ncols 3\nnrows 2\nxllcorner 183551.47\nyllcorner -332414.45\ncellsize 2.5\nNODATA_value -9999\n-12.05 -12.05 -12.05\n-12.05 -12.05 -12.05\n"
    );
}

#[test]
fn raster_text_of_a_simulated_cloth() {
    let mut surface = two_by_two(10);
    surface.simulate();
    assert_eq!(
        surface.to_asc(),
        "ncols 2\nnrows 2\nxllcorner 0\nyllcorner 0\ncellsize 5\nNODATA_value -9999\n0.3 0.362\n0.2 0.343\n"
    );
    let single = ClothSurface::initialize((0, 0), (5_000, 5_000), 5_000, 10, 500, 500, 1_500);
    assert_eq!(
        single.to_asc(),
        "ncols 1\nnrows 1\nxllcorner 0\nyllcorner 0\ncellsize 5\nNODATA_value -9999\n1.5\n"
    );
}

#[test]
fn parameters_are_read_and_set_through_the_surface() {
    let mut surface = ClothSurface::initialize((0, 0), (10_000, 10_000), 5_000, 10, 400, 250, -1_000);
    assert_eq!(surface.simulation_threshold(), 10);
    assert_eq!(surface.classification_threshold(), 400);
    assert_eq!(surface.rigidness(), 250);
    assert_eq!(surface.displacement(), 50);
    assert_eq!(surface.max_iterations(), usize::MAX);
    surface.set_simulation_threshold(0);
    surface.set_classification_threshold(9);
    surface.set_max_iterations(2);
    assert_eq!(surface.simulation_threshold(), 0);
    assert_eq!(surface.classification_threshold(), 9);
    assert_eq!(surface.max_iterations(), 2);
    assert_eq!((surface.rigidness(), surface.displacement()), (250, 50));
    assert_eq!(surface.simulate(), SimulationReport { sweeps: 2, still: false });
}

#[test]
fn order_of_points_matters_only_between_equally_near_ones() {
    let near = at(500, 6_000, 11);
    let far = at(1_000, 9_000, 22);
    let elsewhere = at(6_000, 1_000, 33);
    let mut one = ClothSurface::initialize((0, 0), (10_000, 10_000), 5_000, 10, 500, 500, -1_000);
    let mut other = ClothSurface::initialize((0, 0), (10_000, 10_000), 5_000, 10, 500, 500, -1_000);
    for p in [near, far, elsewhere] {
        one.set_max_z_if_closest_to_particle(&p);
    }
    for p in [elsewhere, far, near] {
        other.set_max_z_if_closest_to_particle(&p);
    }
    assert_eq!(ceilings(&one), vec![vec![11, 0], vec![0, 33]]);
    assert_eq!(ceilings(&one), ceilings(&other));
    let tie = at(1_000, 9_000, 44);
    let mut first_wins = ClothSurface::initialize((0, 0), (10_000, 10_000), 5_000, 10, 500, 500, -1_000);
    first_wins.set_max_z_if_closest_to_particle(&far);
    first_wins.set_max_z_if_closest_to_particle(&tie);
    assert_eq!(first_wins.particle(0, 0).max_z, 22);
    let mut reversed = ClothSurface::initialize((0, 0), (10_000, 10_000), 5_000, 10, 500, 500, -1_000);
    reversed.set_max_z_if_closest_to_particle(&tie);
    reversed.set_max_z_if_closest_to_particle(&far);
    assert_eq!(reversed.particle(0, 0).max_z, 44);
}

#[test]
fn simulation_runs_until_the_cloth_is_still() {
    // One node laid out 10 003 m below a ceiling at 3 m: 200 060 sweeps of
    // 50 mm each, far more than any fixed small budget.
    let mut surface =
        ClothSurface::initialize((0, 0), (5_000, 5_000), 5_000, 10, 500, 500, -10_000_000);
    let source = at(100, 100, 3_000);
    surface.set_max_z_if_closest_to_particle(&source);
    surface.fix_zero_max_heights();
    let report = surface.simulate();
    assert!(report.still);
    assert_eq!(report.sweeps, 200_061);
    let node = surface.particle(0, 0);
    assert_eq!((node.z, node.is_moveable), (3_000, false));
    assert!(surface.is_ground_point(&source));
}
