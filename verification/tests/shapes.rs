use rand::rngs::StdRng;
use rand::SeedableRng;
use shrubbery::algorithm_settings::AlgorithmSettings;
use shrubbery::attractor::Attractor;
use shrubbery::attractor_generator_settings::AttractorGeneratorSettings;
use shrubbery::error::ConfigurationError;
use shrubbery::shape::{axis_in_world, centered, count_cells, jitter, BoxShape, Shape};
use shrubbery::shrubbery::Shrubbery;
use shrubbery::vec::{Vector3, COORD_LIMIT};

fn rng() -> StdRng {
    StdRng::seed_from_u64(20240229)
}

#[test]
fn jitter_stays_within_half_the_spacing() {
    let mut rng = rng();
    let mut low = false;
    let mut high = false;
    let mut i = 0;
    while i < 2000 {
        let j = jitter(&mut rng, 3);
        assert!(-3 <= j && j <= 3);
        low = low || j == -3;
        high = high || j == 3;
        i += 1;
    }
    assert!(low && high);
}

#[test]
fn jitter_of_a_lattice_without_room_is_zero() {
    let mut rng = rng();
    assert_eq!(jitter(&mut rng, 0), 0);
}

#[test]
fn jitter_of_one_unit_has_three_values() {
    let mut rng = rng();
    let mut seen = [false; 3];
    let mut i = 0;
    while i < 200 {
        let j = jitter(&mut rng, 1);
        assert!(-1 <= j && j <= 1);
        seen[(j + 1) as usize] = true;
        i += 1;
    }
    assert_eq!(seen, [true, true, true]);
}

#[test]
fn cells_are_counted_rounding_down() {
    assert_eq!(count_cells(10000, 2350), 4);
    assert_eq!(count_cells(2350, 2350), 1);
    assert_eq!(count_cells(2349, 2350), 0);
    assert_eq!(count_cells(0, 2350), 0);
    assert_eq!(count_cells(-10000, 2350), 0);
}

#[test]
fn axis_must_lie_in_the_world() {
    assert!(axis_in_world(0, 10000, 2350));
    assert!(axis_in_world(COORD_LIMIT - 5000, 10000, 2500));
    assert!(!axis_in_world(COORD_LIMIT - 4999, 10000, 2500));
    assert!(!axis_in_world(-COORD_LIMIT + 4999, 10000, 2500));
    assert!(axis_in_world(COORD_LIMIT, -10, 2500));
}

#[test]
fn box_is_filled_with_a_lattice() {
    let mut rng = rng();
    let shape = BoxShape { x: 10000, y: 5000, z: 10000 };
    let mut attractors: Vec<Attractor> = Vec::new();
    let kept = Attractor::new(Vector3::new(7, 7, 7));
    attractors.push(kept);
    let r = shape.generate(
        Vector3::new(0, 10000, 0),
        &mut attractors,
        &AlgorithmSettings::default(),
        &AttractorGeneratorSettings::default(),
        &mut rng,
    );
    assert_eq!(r, Ok(()));
    // spacing (5000 - 300) / 2 = 2350: 4 by 2 by 4 cells
    assert_eq!(attractors.len(), 1 + 32);
    assert_eq!(attractors[0], kept);
    let mut distinct = false;
    let mut k: i64 = 0;
    while k < 32 {
        let a = attractors[1 + k as usize];
        assert!(!a.reached);
        let ix = (k / 4) / 2;
        let iy = (k / 4) % 2;
        let iz = k % 4;
        let x0 = -5000 + ix * 2350;
        let y0 = 10000 - 2500 + iy * 2350;
        let z0 = -5000 + iz * 2350;
        assert!(x0 <= a.pos.x && a.pos.x <= x0 + 2350);
        assert!(y0 <= a.pos.y && a.pos.y <= y0 + 2350);
        assert!(z0 <= a.pos.z && a.pos.z <= z0 + 2350);
        distinct = distinct || a.pos.x != x0 + 1175;
        k += 1;
    }
    assert!(distinct);
}

#[test]
fn higher_density_gives_a_finer_lattice() {
    let mut rng = rng();
    let shape = BoxShape { x: 10000, y: 5000, z: 10000 };
    let mut attractors: Vec<Attractor> = Vec::new();
    let generator =
        AttractorGeneratorSettings { max_leaves: None, min_leaves: None, density: 2000 };
    let r = shape.generate(
        Vector3::zero(),
        &mut attractors,
        &AlgorithmSettings::default(),
        &generator,
        &mut rng,
    );
    assert_eq!(r, Ok(()));
    // spacing 1175: 8 by 4 by 8 cells
    assert_eq!(attractors.len(), 256);
}

#[test]
fn box_smaller_than_the_spacing_stays_empty() {
    let mut rng = rng();
    let shape = BoxShape { x: 10000, y: 2000, z: 10000 };
    let mut attractors: Vec<Attractor> = Vec::new();
    let r = shape.generate(
        Vector3::zero(),
        &mut attractors,
        &AlgorithmSettings::default(),
        &AttractorGeneratorSettings::default(),
        &mut rng,
    );
    assert_eq!(r, Ok(()));
    assert_eq!(attractors.len(), 0);
}

#[test]
fn box_refuses_faulty_settings() {
    let mut rng = rng();
    let shape = BoxShape { x: 10000, y: 5000, z: 10000 };
    let mut attractors: Vec<Attractor> = Vec::new();
    let mut settings = AlgorithmSettings::default();
    settings.kill_distance = settings.leaf_attraction_dist;
    let r = shape.generate(
        Vector3::zero(),
        &mut attractors,
        &settings,
        &AttractorGeneratorSettings::default(),
        &mut rng,
    );
    assert_eq!(r, Err(ConfigurationError::KillDistanceNotBelowAttraction));
    let generator = AttractorGeneratorSettings { max_leaves: None, min_leaves: None, density: 0 };
    let r = shape.generate(
        Vector3::zero(),
        &mut attractors,
        &AlgorithmSettings::default(),
        &generator,
        &mut rng,
    );
    assert_eq!(r, Err(ConfigurationError::NonPositiveDensity));
    assert_eq!(attractors.len(), 0);
}

#[test]
fn box_refuses_a_spacing_of_nothing() {
    let mut rng = rng();
    let shape = BoxShape { x: 10000, y: 5000, z: 10000 };
    let mut attractors: Vec<Attractor> = Vec::new();
    // (5000 - 300) * 1000 / (2 * density) is below one unit
    let generator =
        AttractorGeneratorSettings { max_leaves: None, min_leaves: None, density: 2_350_001 };
    let r = shape.generate(
        Vector3::zero(),
        &mut attractors,
        &AlgorithmSettings::default(),
        &generator,
        &mut rng,
    );
    assert_eq!(r, Err(ConfigurationError::SpacingVanishes));
    let generator =
        AttractorGeneratorSettings { max_leaves: None, min_leaves: None, density: 2_350_000 };
    let shape = BoxShape { x: 3, y: 2, z: 1 };
    let r = shape.generate(
        Vector3::zero(),
        &mut attractors,
        &AlgorithmSettings::default(),
        &generator,
        &mut rng,
    );
    assert_eq!(r, Ok(()));
    assert_eq!(attractors.len(), 6);
    assert_eq!(attractors[0].pos, Vector3::new(-1, -1, 0));
    assert_eq!(attractors[5].pos, Vector3::new(1, 0, 0));
}

#[test]
fn box_refuses_to_leave_the_world() {
    let mut rng = rng();
    let shape = BoxShape { x: 10000, y: 5000, z: 10000 };
    let mut attractors: Vec<Attractor> = Vec::new();
    let r = shape.generate(
        Vector3::new(COORD_LIMIT - 10, 0, 0),
        &mut attractors,
        &AlgorithmSettings::default(),
        &AttractorGeneratorSettings::default(),
        &mut rng,
    );
    assert_eq!(r, Err(ConfigurationError::OutOfWorld));
    let shape = BoxShape { x: 2 * COORD_LIMIT + 1, y: 5000, z: 10000 };
    let r = shape.generate(
        Vector3::zero(),
        &mut attractors,
        &AlgorithmSettings::default(),
        &AttractorGeneratorSettings::default(),
        &mut rng,
    );
    assert_eq!(r, Err(ConfigurationError::OutOfWorld));
    assert_eq!(attractors.len(), 0);
}

#[test]
fn box_refuses_too_many_attractors() {
    let mut rng = rng();
    let settings = AlgorithmSettings {
        kill_distance: 1,
        branch_len: 1,
        leaf_attraction_dist: 3,
        min_trunk_height: 1,
    };
    // spacing of one unit: 1001 by 1000 by 1000 cells
    let shape = BoxShape { x: 1001, y: 1000, z: 1000 };
    let mut attractors: Vec<Attractor> = Vec::new();
    let r = shape.generate(
        Vector3::zero(),
        &mut attractors,
        &settings,
        &AttractorGeneratorSettings::default(),
        &mut rng,
    );
    assert_eq!(r, Err(ConfigurationError::TooManyAttractors));
    assert_eq!(attractors.len(), 0);
}

#[test]
fn shrub_spawns_attractors_from_a_shape() {
    let mut rng = rng();
    let mut shrub = Shrubbery::new(
        Vector3::zero(),
        Vector3::new(0, 1000, 0),
        AlgorithmSettings {
            kill_distance: 2000,
            branch_len: 2000,
            leaf_attraction_dist: 6000,
            min_trunk_height: 3000,
        },
        AttractorGeneratorSettings::default(),
    )
    .unwrap();
    let r = shrub.spawn_attractors_from_shape(
        Vector3::new(0, 13000, 0),
        BoxShape { x: 15000, y: 10000, z: 15000 },
        &mut rng,
    );
    assert_eq!(r, Ok(()));
    // spacing 2000: 7 by 5 by 7 cells
    assert_eq!(shrub.attractors.len(), 245);
    assert_eq!(shrub.branches.len(), 1);
    assert!(shrub.is_wf());
    shrub.build_trunk();
    let mut round = 0;
    while round < 30 {
        shrub.grow();
        round += 1;
    }
    assert!(shrub.is_wf());
    assert!(shrub.branches.len() > 30);
    assert!(shrub.attractors.len() < 245);
}

#[test]
fn shrub_keeps_its_attractors_when_the_shape_refuses() {
    let mut rng = rng();
    let mut shrub = Shrubbery::new(
        Vector3::zero(),
        Vector3::new(0, 1000, 0),
        AlgorithmSettings::default(),
        AttractorGeneratorSettings::default(),
    )
    .unwrap();
    shrub.attractors.push(Attractor::new(Vector3::new(1, 2, 3)));
    let r = shrub.spawn_attractors_from_shape(
        Vector3::new(0, COORD_LIMIT, 0),
        BoxShape { x: 15000, y: 10000, z: 15000 },
        &mut rng,
    );
    assert_eq!(r, Err(ConfigurationError::OutOfWorld));
    assert_eq!(shrub.attractors.len(), 1);
    assert!(shrub.is_wf());
}

#[test]
fn drawn_number_is_centered_on_zero() {
    assert_eq!(centered(0, 3), -3);
    assert_eq!(centered(3, 3), 0);
    assert_eq!(centered(6, 3), 3);
    assert_eq!(centered(0, 0), 0);
    assert_eq!(centered(2350, 1175), 1175);
}
