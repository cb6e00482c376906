use shrubbery::algorithm_settings::AlgorithmSettings;
use shrubbery::attractor::Attractor;
use shrubbery::attractor_generator_settings::AttractorGeneratorSettings;
use shrubbery::prelude::Shrubbery;
use shrubbery::trunk::{any_attractor_within, TRUNK_PROBES};
use shrubbery::vec::{Vector3, COORD_LIMIT};

fn settings() -> AlgorithmSettings {
    AlgorithmSettings {
        kill_distance: 1000,
        branch_len: 1000,
        leaf_attraction_dist: 5000,
        min_trunk_height: 3000,
    }
}

fn shrub_with(attractors: &[Vector3]) -> Shrubbery {
    let mut shrub = Shrubbery::new(
        Vector3::zero(),
        Vector3::new(0, 1000, 0),
        settings(),
        AttractorGeneratorSettings::default(),
    )
    .unwrap();
    for p in attractors {
        shrub.attractors.push(Attractor::new(*p));
    }
    shrub
}

#[test]
fn attractor_within_is_strict() {
    let attractors = vec![Attractor::new(Vector3::new(0, 10000, 0))];
    assert!(!any_attractor_within(&attractors, Vector3::new(0, 5000, 0), 5000));
    assert!(any_attractor_within(&attractors, Vector3::new(0, 5001, 0), 5000));
    assert!(!any_attractor_within(&Vec::new(), Vector3::new(0, 5001, 0), 5000));
}

#[test]
fn trunk_toward_an_attractor_ten_away() {
    // The tip is first within the attraction distance at height 6: the
    // root grows one segment of that length, which is above the minimal
    // trunk height already.
    let mut shrub = shrub_with(&[Vector3::new(0, 10000, 0)]);
    assert!(shrub.build_trunk());
    assert_eq!(shrub.branches.len(), 2);
    assert_eq!(shrub.branches[1].pos, Vector3::new(0, 6000, 0));
    assert_eq!(shrub.branches[1].parent_index, Some(0));
    assert_eq!(shrub.branches[1].generation, 0);
    assert_eq!(shrub.branches[0].child_count, 1);
    assert_eq!(shrub.branches[1].child_count, 0);
    assert_eq!(shrub.attractors.len(), 1);
    assert!(shrub.is_wf());
}

#[test]
fn trunk_is_extended_to_the_minimal_height() {
    // The tip is within the attraction distance after the first step, so
    // two more segments are needed to reach the height of three.
    let mut shrub = shrub_with(&[Vector3::new(0, 5500, 0)]);
    shrub.build_trunk();
    assert_eq!(shrub.branches.len(), 4);
    assert_eq!(shrub.branches[1].pos, Vector3::new(0, 1000, 0));
    assert_eq!(shrub.branches[2].pos, Vector3::new(0, 2000, 0));
    assert_eq!(shrub.branches[3].pos, Vector3::new(0, 3000, 0));
    assert_eq!(shrub.branches[1].parent_index, Some(0));
    assert_eq!(shrub.branches[2].parent_index, Some(1));
    assert_eq!(shrub.branches[3].parent_index, Some(2));
    for b in shrub.branches.iter() {
        assert_eq!(b.generation, 0);
        assert_eq!(b.dir, Vector3::new(0, 1000, 0));
        assert_eq!(b.original_dir, Vector3::new(0, 1000, 0));
        assert_eq!(b.attractors_count, 0);
    }
    assert_eq!(shrub.branches[0].child_count, 1);
    assert_eq!(shrub.branches[1].child_count, 1);
    assert_eq!(shrub.branches[2].child_count, 1);
    assert_eq!(shrub.branches[3].child_count, 0);
    assert!(shrub.is_wf());
}

#[test]
fn trunk_updates_the_bounds() {
    let mut shrub = shrub_with(&[Vector3::new(0, 5500, 0)]);
    shrub.build_trunk();
    assert_eq!(shrub.min_bounds, Vector3::new(0, 0, 0));
    assert_eq!(shrub.max_bounds, Vector3::new(0, 3000, 0));
}

#[test]
fn trunk_without_attractors_stops_at_the_cap() {
    let mut shrub = shrub_with(&[]);
    assert!(!shrub.build_trunk());
    assert_eq!(TRUNK_PROBES, 1000);
    assert_eq!(shrub.branches.len(), 2);
    assert_eq!(shrub.branches[1].pos, Vector3::new(0, 1_000_000, 0));
}

#[test]
fn trunk_stops_at_the_wall_of_the_world() {
    let mut shrub = Shrubbery::new(
        Vector3::new(0, COORD_LIMIT - 500, 0),
        Vector3::new(0, 1000, 0),
        settings(),
        AttractorGeneratorSettings::default(),
    )
    .unwrap();
    shrub.build_trunk();
    assert_eq!(shrub.branches.len(), 2);
    assert_eq!(shrub.branches[1].pos, Vector3::new(0, COORD_LIMIT, 0));
    assert!(shrub.is_wf());
}

#[test]
fn trunk_follows_a_slanted_direction() {
    let mut shrub = Shrubbery::new(
        Vector3::new(1000, 0, 0),
        Vector3::new(600, 800, 0),
        settings(),
        AttractorGeneratorSettings::default(),
    )
    .unwrap();
    shrub.attractors.push(Attractor::new(Vector3::new(1600, 800, 4500)));
    shrub.build_trunk();
    // tip after one step: (1600, 800, 0), 4500 from the attractor
    assert_eq!(shrub.branches.len(), 4);
    assert_eq!(shrub.branches[1].pos, Vector3::new(1600, 800, 0));
    assert_eq!(shrub.branches[2].pos, Vector3::new(2200, 1600, 0));
    assert_eq!(shrub.branches[3].pos, Vector3::new(2800, 2400, 0));
    assert_eq!(shrub.min_bounds, Vector3::new(0, 0, 0));
    assert_eq!(shrub.max_bounds, Vector3::new(2800, 2400, 0));
}

#[test]
fn parents_precede_children_after_the_trunk() {
    let mut shrub = shrub_with(&[Vector3::new(0, 5500, 0)]);
    shrub.build_trunk();
    shrub.build_trunk();
    assert!(shrub.branches[0].parent_index.is_none());
    for (i, b) in shrub.branches.iter().enumerate() {
        if let Some(p) = b.parent_index {
            assert!(p < i);
        }
    }
    assert!(shrub.is_wf());
}

#[test]
fn trunk_search_may_succeed_at_the_last_step() {
    let mut shrub = shrub_with(&[Vector3::new(0, 1_004_999, 0)]);
    assert!(shrub.build_trunk());
    assert_eq!(shrub.branches.len(), 2);
    assert_eq!(shrub.branches[1].pos, Vector3::new(0, 1_000_000, 0));
    let mut shrub = shrub_with(&[Vector3::new(0, 1_005_000, 0)]);
    assert!(!shrub.build_trunk());
    assert_eq!(shrub.branches[1].pos, Vector3::new(0, 1_000_000, 0));
}

#[test]
fn trunk_of_short_segments_reaches_its_height() {
    let mut shrub = Shrubbery::new(
        Vector3::zero(),
        Vector3::new(600, 800, 0),
        AlgorithmSettings {
            kill_distance: 1,
            branch_len: 1,
            leaf_attraction_dist: 5000,
            min_trunk_height: 3000,
        },
        AttractorGeneratorSettings::default(),
    )
    .unwrap();
    assert!(!shrub.build_trunk());
    // the search ends at the cap with a segment of length 1000; 2000
    // segments of one unit follow
    assert_eq!(shrub.branches.len(), 1 + 1 + 2000);
    assert_eq!(shrub.branches[1].pos, Vector3::new(600, 800, 0));
    assert_eq!(shrub.branches[2].pos, Vector3::new(600, 800, 0));
    assert_eq!(shrub.branches[6].pos, Vector3::new(603, 804, 0));
    let last = shrub.branches[shrub.branches.len() - 1];
    assert_eq!(last.pos, Vector3::new(1800, 2400, 0));
    assert_eq!(last.dir, Vector3::new(600, 800, 0));
    assert_eq!(last.generation, 0);
    assert_eq!(shrub.max_bounds, Vector3::new(1800, 2400, 0));
    assert!(shrub.is_wf());
    assert!(shrub.is_tallied());
}
