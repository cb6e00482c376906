use rand::rngs::StdRng;
use rand::SeedableRng;
use shrubbery::algorithm_settings::AlgorithmSettings;
use shrubbery::attractor::Attractor;
use shrubbery::attractor_generator_settings::AttractorGeneratorSettings;
use shrubbery::branch::Branch;
use shrubbery::leaf_classifier::LeafClassifier;
use shrubbery::shape::BoxShape;
use shrubbery::shrubbery::Shrubbery;
use shrubbery::vec::{IVector3, Vector3};
use shrubbery::math_utils::cells_up;
use shrubbery::voxel::{
    count_greenery, drop_leaves, drop_picked, generate_leaf, is_inside_sphere,
    process_voxel, voxelize, BranchRootSizeIncreaser, BranchSizeSetting, LeafSetting, LeafShape,
    VoxelType, VoxelizeSettings,
};

fn rng() -> StdRng {
    StdRng::seed_from_u64(77)
}

/// A trunk of one segment from the origin to height three, in bounds of
/// four by three by four cells.
fn stem() -> Shrubbery {
    let mut shrub = Shrubbery::new(
        Vector3::zero(),
        Vector3::new(0, 1000, 0),
        AlgorithmSettings::default(),
        AttractorGeneratorSettings::default(),
    )
    .unwrap();
    shrub.branches[0].child_count = 1;
    shrub.branches.push(Branch {
        pos: Vector3::new(0, 3000, 0),
        parent_index: Some(0),
        dir: Vector3::new(0, 1000, 0),
        original_dir: Vector3::new(0, 1000, 0),
        attractors_count: 0,
        child_count: 0,
        generation: 0,
    });
    shrub.min_bounds = Vector3::new(-2000, 0, -2000);
    shrub.max_bounds = Vector3::new(2000, 3000, 2000);
    assert!(shrub.is_wf());
    shrub
}

fn plain(distance: i64) -> VoxelizeSettings {
    VoxelizeSettings {
        leaf_settings: LeafSetting::NoLeaves,
        branch_size_setting: BranchSizeSetting::Value { distance },
        branch_root_size_increaser: None,
    }
}

fn count(voxels: &Vec<(IVector3, VoxelType)>, kind: VoxelType) -> usize {
    voxels.iter().filter(|v| v.1 == kind).count()
}

fn no_coordinate_twice(voxels: &Vec<(IVector3, VoxelType)>) -> bool {
    let mut i = 0;
    while i < voxels.len() {
        let mut j = i + 1;
        while j < voxels.len() {
            if voxels[i].0 == voxels[j].0 {
                return false;
            }
            j += 1;
        }
        i += 1;
    }
    true
}

#[test]
fn tiered_size_is_clamped_to_the_last_entry() {
    let tiers = BranchSizeSetting::Generation { distances: vec![2000, 1000] };
    assert_eq!(tiers.size_for(0), Some(2000));
    assert_eq!(tiers.size_for(1), Some(1000));
    assert_eq!(tiers.size_for(5), Some(1000));
}

#[test]
fn tiered_size_without_entries_matches_nothing() {
    let tiers = BranchSizeSetting::Generation { distances: Vec::new() };
    assert_eq!(tiers.size_for(0), None);
    assert_eq!(tiers.size_for(3), None);
    let mut settings = plain(0);
    settings.branch_size_setting = tiers;
    settings.branch_root_size_increaser =
        Some(BranchRootSizeIncreaser { height: 5000, additional_size: 5000 });
    assert_eq!(voxelize(&stem(), &settings).len(), 0);
}

#[test]
fn uniform_size_ignores_the_generation() {
    let size = BranchSizeSetting::Value { distance: 1500 };
    assert_eq!(size.size_for(0), Some(1500));
    assert_eq!(size.size_for(9), Some(1500));
}

#[test]
fn root_bonus_fades_with_the_height() {
    let increaser = BranchRootSizeIncreaser { height: 2000, additional_size: 1000 };
    assert_eq!(increaser.bonus(0), 1000);
    assert_eq!(increaser.bonus(500), 750);
    assert_eq!(increaser.bonus(1000), 500);
    assert_eq!(increaser.bonus(1999), 0);
    assert_eq!(increaser.bonus(2000), 0);
    assert_eq!(increaser.bonus(3000), 0);
}

#[test]
fn root_bonus_without_a_height_is_nothing() {
    let increaser = BranchRootSizeIncreaser { height: 0, additional_size: 1000 };
    assert_eq!(increaser.bonus(0), 0);
    assert_eq!(increaser.bonus(5000), 0);
    assert_eq!(increaser.bonus(-5000), 0);
}

#[test]
fn root_bonus_below_the_ground_grows_with_the_depth() {
    let increaser = BranchRootSizeIncreaser { height: 2000, additional_size: 1000 };
    assert_eq!(increaser.bonus(-1000), 1500);
}

#[test]
fn root_bonus_under_a_negative_threshold() {
    // one less the height as a share of the threshold: 1 + 1000 / 2000
    let increaser = BranchRootSizeIncreaser { height: -2000, additional_size: 1000 };
    assert_eq!(increaser.bonus(1000), 1500);
    assert_eq!(increaser.bonus(0), 1000);
    assert_eq!(increaser.bonus(-2000), 0);
    assert_eq!(increaser.bonus(-3000), 0);
}

#[test]
fn root_bonus_may_thin_the_branches() {
    let increaser = BranchRootSizeIncreaser { height: 2000, additional_size: -1000 };
    assert_eq!(increaser.bonus(0), -1000);
    assert_eq!(increaser.bonus(1500), -250);
    assert_eq!(increaser.bonus(1999), 0);
}

#[test]
fn sphere_includes_its_surface() {
    let center = Vector3::new(0, 3000, 0);
    assert!(is_inside_sphere(Vector3::new(0, 2000, 0), center, 1000));
    assert!(is_inside_sphere(Vector3::new(600, 3800, 0), center, 1000));
    assert!(!is_inside_sphere(Vector3::new(0, 1999, 0), center, 1000));
    assert!(!is_inside_sphere(center, center, -1));
    assert!(is_inside_sphere(center, center, 0));
}

#[test]
fn cells_round_up() {
    assert_eq!(cells_up(0), 0);
    assert_eq!(cells_up(1), 1);
    assert_eq!(cells_up(1000), 1);
    assert_eq!(cells_up(1001), 2);
    assert_eq!(cells_up(-1), 0);
    assert_eq!(cells_up(-1000), -1);
    assert_eq!(cells_up(-1001), -1);
    assert_eq!(cells_up(2700), 3);
}

#[test]
fn stem_of_uniform_size() {
    let voxels = voxelize(&stem(), &plain(1500));
    // three layers of three by three cells around the axis
    assert_eq!(voxels.len(), 27);
    assert_eq!(count(&voxels, VoxelType::Branch), 27);
    assert_eq!(voxels[0], (IVector3::new(-1, 0, -1), VoxelType::Branch));
    assert_eq!(voxels[1], (IVector3::new(-1, 0, 0), VoxelType::Branch));
    assert_eq!(voxels[3], (IVector3::new(-1, 1, -1), VoxelType::Branch));
    assert_eq!(voxels[9], (IVector3::new(0, 0, -1), VoxelType::Branch));
    assert_eq!(voxels[26], (IVector3::new(1, 2, 1), VoxelType::Branch));
    assert!(no_coordinate_twice(&voxels));
}

#[test]
fn size_is_a_strict_limit() {
    // the cells beside the axis are exactly one unit of length away
    assert_eq!(voxelize(&stem(), &plain(1000)).len(), 3);
    assert_eq!(voxelize(&stem(), &plain(1001)).len(), 15);
    assert_eq!(voxelize(&stem(), &plain(0)).len(), 0);
    assert_eq!(voxelize(&stem(), &plain(-5)).len(), 0);
}

#[test]
fn stem_thickened_at_the_root() {
    let mut settings = plain(500);
    settings.branch_root_size_increaser =
        Some(BranchRootSizeIncreaser { height: 2000, additional_size: 1000 });
    let voxels = voxelize(&stem(), &settings);
    // radius 1.5 at the ground, 1.0 at height one, 0.5 at height two
    assert_eq!(voxels.len(), 9 + 1 + 1);
    assert!(voxels.contains(&(IVector3::new(1, 0, 1), VoxelType::Branch)));
    assert!(voxels.contains(&(IVector3::new(0, 1, 0), VoxelType::Branch)));
    assert!(!voxels.contains(&(IVector3::new(1, 1, 0), VoxelType::Branch)));
    assert!(voxels.contains(&(IVector3::new(0, 2, 0), VoxelType::Branch)));
}

#[test]
fn branch_material_counts_as_leaf_by_classifier() {
    let mut settings = plain(1500);
    settings.leaf_settings = LeafSetting::BranchIsLeaf(LeafClassifier::LastBranch);
    let voxels = voxelize(&stem(), &settings);
    assert_eq!(voxels.len(), 27);
    assert_eq!(count(&voxels, VoxelType::Greenery), 27);
    settings.leaf_settings = LeafSetting::BranchIsLeaf(LeafClassifier::NonRootBranch);
    let voxels = voxelize(&stem(), &settings);
    assert_eq!(voxels.len(), 27);
    assert_eq!(count(&voxels, VoxelType::Branch), 27);
}

#[test]
fn foliage_spheres_surround_the_tips() {
    let mut settings = plain(1500);
    settings.leaf_settings = LeafSetting::Shape(LeafShape::Sphere { r: 1000 });
    let voxels = voxelize(&stem(), &settings);
    assert_eq!(count(&voxels, VoxelType::Greenery), 6);
    assert_eq!(count(&voxels, VoxelType::Branch), 30);
    assert_eq!(count(&voxels, VoxelType::Air), 0);
    assert_eq!(voxels.len(), 36);
    assert!(voxels.contains(&(IVector3::new(0, 3, 0), VoxelType::Greenery)));
    assert!(voxels.contains(&(IVector3::new(0, 2, 0), VoxelType::Greenery)));
    assert!(voxels.contains(&(IVector3::new(-1, 3, 0), VoxelType::Greenery)));
    assert!(voxels.contains(&(IVector3::new(1, 3, 1), VoxelType::Branch)));
    assert!(voxels.contains(&(IVector3::new(0, 1, 0), VoxelType::Branch)));
    assert!(no_coordinate_twice(&voxels));
}

#[test]
fn foliage_padding_widens_the_grid() {
    let mut settings = plain(0);
    settings.leaf_settings = LeafSetting::Shape(LeafShape::Sphere { r: 2700 });
    let mut shrub = stem();
    shrub.min_bounds = Vector3::zero();
    shrub.max_bounds = Vector3::new(0, 3000, 0);
    let voxels = voxelize(&shrub, &settings);
    // without horizontal bounds the grid is three cells to either side
    assert!(voxels.len() > 0);
    for v in voxels.iter() {
        assert_eq!(v.1, VoxelType::Greenery);
        assert!(-3 <= v.0.x && v.0.x < 3);
        assert!(0 <= v.0.y && v.0.y < 6);
        assert!(-3 <= v.0.z && v.0.z < 3);
    }
    assert!(voxels.contains(&(IVector3::new(-2, 3, -1), VoxelType::Greenery)));
    assert!(voxels.contains(&(IVector3::new(0, 5, 0), VoxelType::Greenery)));
    settings.leaf_settings = LeafSetting::NoLeaves;
    assert_eq!(voxelize(&shrub, &settings).len(), 0);
}

#[test]
fn skeleton_without_segments_has_no_branch_voxels() {
    let mut shrub = Shrubbery::new(
        Vector3::zero(),
        Vector3::new(0, 1000, 0),
        AlgorithmSettings::default(),
        AttractorGeneratorSettings::default(),
    )
    .unwrap();
    shrub.min_bounds = Vector3::new(-2000, 0, -2000);
    shrub.max_bounds = Vector3::new(2000, 3000, 2000);
    assert_eq!(voxelize(&shrub, &plain(i64::MAX)).len(), 0);
}

#[test]
fn process_voxel_appends_one_cell() {
    let shrub = stem();
    let mut voxels = vec![(IVector3::new(9, 9, 9), VoxelType::Branch)];
    process_voxel(IVector3::new(1, 1, 0), &shrub, &plain(1500), &mut voxels);
    assert_eq!(voxels.len(), 2);
    assert_eq!(voxels[1], (IVector3::new(1, 1, 0), VoxelType::Branch));
    process_voxel(IVector3::new(2, 1, 0), &shrub, &plain(1500), &mut voxels);
    assert_eq!(voxels.len(), 2);
}

#[test]
fn generate_leaf_marks_the_cell_of_the_point() {
    let shrub = stem();
    let mut voxels = Vec::new();
    let sphere = LeafShape::Sphere { r: 1000 };
    let found = generate_leaf(
        Vector3::new(100, 2500, -100),
        &shrub,
        &mut voxels,
        &sphere,
        &LeafClassifier::LastBranch,
    );
    assert!(found);
    assert_eq!(voxels, vec![(IVector3::new(1, 3, 0), VoxelType::Greenery)]);
    let found = generate_leaf(
        Vector3::new(0, 1000, 0),
        &shrub,
        &mut voxels,
        &sphere,
        &LeafClassifier::LastBranch,
    );
    assert!(!found);
    assert_eq!(voxels.len(), 1);
    // by generation no branch of the stem bears leaves
    let found = generate_leaf(
        Vector3::new(0, 3000, 0),
        &shrub,
        &mut voxels,
        &sphere,
        &LeafClassifier::NonRootBranch,
    );
    assert!(!found);
}

#[test]
fn volume_of_a_grown_shrub_has_no_cell_twice() {
    let mut rng = rng();
    let mut shrub = Shrubbery::new(
        Vector3::zero(),
        Vector3::new(0, 1000, 0),
        AlgorithmSettings {
            kill_distance: 2000,
            branch_len: 2000,
            leaf_attraction_dist: 6000,
            min_trunk_height: 3000,
        },
        AttractorGeneratorSettings::default(),
    )
    .unwrap();
    shrub
        .spawn_attractors_from_shape(
            Vector3::new(0, 13000, 0),
            BoxShape { x: 15000, y: 10000, z: 15000 },
            &mut rng,
        )
        .unwrap();
    shrub.build_trunk();
    let mut round = 0;
    while round < 12 {
        shrub.grow();
        round += 1;
    }
    let settings = VoxelizeSettings {
        leaf_settings: LeafSetting::Shape(LeafShape::Sphere { r: 2700 }),
        branch_size_setting: BranchSizeSetting::Generation {
            distances: vec![1500, 1000, 1000, 1000],
        },
        branch_root_size_increaser: Some(BranchRootSizeIncreaser {
            height: 2000,
            additional_size: 2000,
        }),
    };
    let voxels = voxelize(&shrub, &settings);
    assert!(voxels.len() > 50);
    assert!(count(&voxels, VoxelType::Greenery) > 0);
    assert!(count(&voxels, VoxelType::Branch) > 0);
    assert_eq!(count(&voxels, VoxelType::Air), 0);
    assert!(no_coordinate_twice(&voxels));
}

fn mixed() -> Vec<(IVector3, VoxelType)> {
    vec![
        (IVector3::new(0, 0, 0), VoxelType::Greenery),
        (IVector3::new(1, 0, 0), VoxelType::Branch),
        (IVector3::new(2, 0, 0), VoxelType::Greenery),
        (IVector3::new(3, 0, 0), VoxelType::Greenery),
        (IVector3::new(4, 0, 0), VoxelType::Air),
    ]
}

#[test]
fn greenery_is_counted() {
    assert_eq!(count_greenery(&mixed()), 3);
    assert_eq!(count_greenery(&Vec::new()), 0);
}

#[test]
fn drop_picked_takes_the_picks_from_what_is_left() {
    let mut voxels = mixed();
    drop_picked(&mut voxels, &vec![1, 0]);
    assert_eq!(
        voxels,
        vec![
            (IVector3::new(1, 0, 0), VoxelType::Branch),
            (IVector3::new(3, 0, 0), VoxelType::Greenery),
            (IVector3::new(4, 0, 0), VoxelType::Air),
        ]
    );
    let mut voxels = mixed();
    drop_picked(&mut voxels, &vec![2, 1, 0]);
    assert_eq!(
        voxels,
        vec![(IVector3::new(1, 0, 0), VoxelType::Branch), (IVector3::new(4, 0, 0), VoxelType::Air)]
    );
    let mut voxels = mixed();
    drop_picked(&mut voxels, &Vec::new());
    assert_eq!(voxels, mixed());
}

#[test]
fn dropping_all_leaves_keeps_everything_else() {
    let mut rng = rng();
    let mut voxels = mixed();
    drop_leaves(&mut voxels, 1000, &mut rng);
    assert_eq!(
        voxels,
        vec![(IVector3::new(1, 0, 0), VoxelType::Branch), (IVector3::new(4, 0, 0), VoxelType::Air)]
    );
    let mut voxels = mixed();
    drop_leaves(&mut voxels, 5000, &mut rng);
    assert_eq!(voxels.len(), 2);
}

#[test]
fn dropping_no_leaves_changes_nothing() {
    let mut rng = rng();
    let mut voxels = mixed();
    drop_leaves(&mut voxels, 0, &mut rng);
    assert_eq!(voxels, mixed());
    drop_leaves(&mut voxels, -1000, &mut rng);
    assert_eq!(voxels, mixed());
    let mut empty: Vec<(IVector3, VoxelType)> = Vec::new();
    drop_leaves(&mut empty, 1000, &mut rng);
    assert_eq!(empty.len(), 0);
}

#[test]
fn dropping_a_fraction_rounds_down() {
    let mut rng = rng();
    let mut seen_first_kept = false;
    let mut seen_first_dropped = false;
    let mut round = 0;
    while round < 200 {
        let mut voxels = mixed();
        // half of three leaves: one leaf goes
        drop_leaves(&mut voxels, 500, &mut rng);
        assert_eq!(voxels.len(), 4);
        assert_eq!(count(&voxels, VoxelType::Greenery), 2);
        assert_eq!(count(&voxels, VoxelType::Branch), 1);
        assert_eq!(count(&voxels, VoxelType::Air), 1);
        let mut last = -1;
        for v in voxels.iter() {
            assert!(v.0.x > last);
            last = v.0.x;
        }
        if voxels[0].1 == VoxelType::Greenery {
            seen_first_kept = true;
        } else {
            seen_first_dropped = true;
        }
        round += 1;
    }
    assert!(seen_first_kept && seen_first_dropped);
    let mut voxels = mixed();
    drop_leaves(&mut voxels, 333, &mut rng);
    assert_eq!(voxels.len(), 5);
    let mut voxels = mixed();
    drop_leaves(&mut voxels, 999, &mut rng);
    assert_eq!(count(&voxels, VoxelType::Greenery), 1);
}

#[test]
fn attractors_are_kept_by_voxelize() {
    let mut shrub = stem();
    shrub.attractors.push(Attractor::new(Vector3::new(0, 9000, 0)));
    let _ = voxelize(&shrub, &plain(1500));
    assert_eq!(shrub.attractors.len(), 1);
}

#[test]
fn foliage_radius_must_fit_the_world() {
    let mut settings = plain(1500);
    assert!(settings.is_valid());
    settings.leaf_settings = LeafSetting::Shape(LeafShape::Sphere { r: 250_000_000 });
    assert!(settings.is_valid());
    settings.leaf_settings = LeafSetting::Shape(LeafShape::Sphere { r: 250_000_001 });
    assert!(!settings.is_valid());
    settings.leaf_settings = LeafSetting::Shape(LeafShape::Sphere { r: -250_000_001 });
    assert!(!settings.is_valid());
}

#[test]
fn sphere_ends_exactly_at_its_radius() {
    // the distance exceeds the radius by less than a unit
    assert!(!is_inside_sphere(Vector3::new(1000, 0, 0), Vector3::new(0, 1, 0), 1000));
    assert!(is_inside_sphere(Vector3::new(1000, 0, 0), Vector3::new(0, 0, 0), 1000));
    assert!(is_inside_sphere(Vector3::new(1000, 0, 0), Vector3::new(0, 1, 0), 1001));
}

/// A root and one branch four cells up, of a later generation, pushed by
/// hand: the root does not count it.
fn pushed_stem() -> Shrubbery {
    let mut shrub = Shrubbery::new(
        Vector3::zero(),
        Vector3::new(0, 1000, 0),
        AlgorithmSettings::default(),
        AttractorGeneratorSettings::default(),
    )
    .unwrap();
    let mut branch = shrub.branches[0].next(0, 4000, false);
    branch.generation = 5;
    shrub.branches.push(branch);
    shrub
}

#[test]
fn tiered_size_of_a_late_generation_on_a_skeleton_made_by_hand() {
    let shrub = pushed_stem();
    assert!(shrub.is_readable());
    assert!(!shrub.is_tallied());
    let settings = VoxelizeSettings {
        leaf_settings: LeafSetting::NoLeaves,
        branch_size_setting: BranchSizeSetting::Generation { distances: vec![2000, 1000] },
        branch_root_size_increaser: None,
    };
    let mut voxels = Vec::new();
    process_voxel(IVector3::new(0, 2, 0), &shrub, &settings, &mut voxels);
    assert_eq!(voxels, vec![(IVector3::new(0, 2, 0), VoxelType::Branch)]);
    let mut voxels = Vec::new();
    // the distance of 1.41 is below the first radius but not the last
    process_voxel(IVector3::new(1, 2, 1), &shrub, &settings, &mut voxels);
    assert!(voxels.is_empty());
}

#[test]
fn volume_of_a_skeleton_made_by_hand() {
    let mut shrub = pushed_stem();
    shrub.min_bounds = Vector3::new(-2000, 0, -2000);
    shrub.max_bounds = Vector3::new(2000, 4000, 2000);
    let voxels = voxelize(&shrub, &plain(1001));
    assert_eq!(voxels.len(), 5 * 4);
    assert!(no_coordinate_twice(&voxels));
}
