use shrubbery::algorithm_settings::AlgorithmSettings;
use shrubbery::attractor::Attractor;
use shrubbery::attractor_generator_settings::AttractorGeneratorSettings;
use shrubbery::branch::Branch;
use shrubbery::growth::{find_attraction, purge_reached, Attraction};
use shrubbery::shrubbery::Shrubbery;
use shrubbery::vec::{IVector3, Vector3};

fn settings() -> AlgorithmSettings {
    AlgorithmSettings {
        kill_distance: 1000,
        branch_len: 1000,
        leaf_attraction_dist: 5000,
        min_trunk_height: 3000,
    }
}

fn planted() -> Shrubbery {
    Shrubbery::new(
        Vector3::zero(),
        Vector3::new(0, 1000, 0),
        settings(),
        AttractorGeneratorSettings::default(),
    )
    .unwrap()
}

fn branch_at(pos: Vector3) -> Branch {
    Branch {
        pos,
        parent_index: None,
        dir: Vector3::new(0, 1000, 0),
        original_dir: Vector3::new(0, 1000, 0),
        attractors_count: 0,
        child_count: 0,
        generation: 0,
    }
}

fn in_box(min: Vector3, max: Vector3, p: Vector3) -> bool {
    min.x <= p.x && p.x <= max.x && min.y <= p.y && p.y <= max.y && min.z <= p.z && p.z <= max.z
}

#[test]
fn attractor_inside_the_kill_distance_is_consumed() {
    let mut shrub = planted();
    shrub.attractors.push(Attractor::new(Vector3::new(500, 0, 0)));
    shrub.grow();
    assert_eq!(shrub.attractors.len(), 0);
    assert_eq!(shrub.branches.len(), 1);
    assert_eq!(shrub.branches[0].child_count, 0);
    assert_eq!(shrub.branches[0].attractors_count, 0);
    assert_eq!(shrub.branches[0].dir, Vector3::new(0, 1000, 0));
    assert!(shrub.is_wf());
}

#[test]
fn attraction_reached_below_the_kill_distance_only() {
    let branches = vec![branch_at(Vector3::zero())];
    let s = settings();
    assert_eq!(find_attraction(&branches, Vector3::new(999, 0, 0), &s), Attraction::Reached);
    assert_eq!(find_attraction(&branches, Vector3::new(1000, 0, 0), &s), Attraction::Pulls(0));
}

#[test]
fn attraction_ends_beyond_the_attraction_distance() {
    let branches = vec![branch_at(Vector3::zero())];
    let s = settings();
    assert_eq!(find_attraction(&branches, Vector3::new(5000, 0, 0), &s), Attraction::Pulls(0));
    assert_eq!(find_attraction(&branches, Vector3::new(5001, 0, 0), &s), Attraction::OutOfReach);
    assert_eq!(find_attraction(&Vec::new(), Vector3::new(0, 0, 0), &s), Attraction::OutOfReach);
}

#[test]
fn nearest_branch_pulls_and_the_first_wins_a_tie() {
    let s = settings();
    let branches = vec![
        branch_at(Vector3::new(4000, 0, 0)),
        branch_at(Vector3::new(1000, 0, 0)),
        branch_at(Vector3::new(-1000, 0, 0)),
        branch_at(Vector3::new(0, 7000, 0)),
    ];
    assert_eq!(find_attraction(&branches, Vector3::new(0, 3000, 0), &s), Attraction::Pulls(1));
    assert_eq!(find_attraction(&branches, Vector3::new(3000, 2000, 0), &s), Attraction::Pulls(0));
}

#[test]
fn a_branch_within_the_kill_distance_discards_the_nearest() {
    let s = settings();
    let branches = vec![branch_at(Vector3::new(3000, 0, 0)), branch_at(Vector3::new(500, 0, 0))];
    assert_eq!(find_attraction(&branches, Vector3::zero(), &s), Attraction::Reached);
}

#[test]
fn purge_keeps_the_unreached_in_order() {
    let mut attractors = vec![
        Attractor { pos: Vector3::new(1, 0, 0), reached: false },
        Attractor { pos: Vector3::new(2, 0, 0), reached: true },
        Attractor { pos: Vector3::new(3, 0, 0), reached: false },
        Attractor { pos: Vector3::new(4, 0, 0), reached: true },
    ];
    purge_reached(&mut attractors);
    assert_eq!(attractors.len(), 2);
    assert_eq!(attractors[0].pos, Vector3::new(1, 0, 0));
    assert_eq!(attractors[1].pos, Vector3::new(3, 0, 0));
}

#[test]
fn a_pulled_branch_sprouts_toward_the_attractor() {
    let mut shrub = planted();
    shrub.attractors.push(Attractor::new(Vector3::new(3000, 4000, 0)));
    shrub.grow();
    // pull (600, 800, 0) added to (0, 1000, 0) gives (600, 1800, 0),
    // normalized (316, 948, 0)
    assert_eq!(shrub.branches.len(), 2);
    let child = shrub.branches[1];
    assert_eq!(child.pos, Vector3::new(316, 948, 0));
    assert_eq!(child.parent_index, Some(0));
    assert_eq!(child.dir, Vector3::new(316, 948, 0));
    assert_eq!(child.original_dir, Vector3::new(316, 948, 0));
    assert_eq!(child.generation, 1);
    assert_eq!(child.child_count, 0);
    assert_eq!(child.attractors_count, 0);
    let root = shrub.branches[0];
    assert_eq!(root.child_count, 1);
    assert_eq!(root.attractors_count, 0);
    assert_eq!(root.dir, Vector3::new(0, 1000, 0));
    assert_eq!(root.pos, Vector3::zero());
    assert_eq!(shrub.attractors.len(), 1);
    assert!(!shrub.attractors[0].reached);
    assert_eq!(shrub.min_bounds, Vector3::new(0, 0, 0));
    assert_eq!(shrub.max_bounds, Vector3::new(316, 948, 0));
    assert!(shrub.is_wf());
}

#[test]
fn pulls_of_several_attractors_add_up() {
    let mut shrub = planted();
    shrub.attractors.push(Attractor::new(Vector3::new(3000, 0, 0)));
    shrub.attractors.push(Attractor::new(Vector3::new(-3000, 0, 0)));
    shrub.attractors.push(Attractor::new(Vector3::new(0, 0, 2000)));
    shrub.grow();
    // the pulls along x cancel: (0, 1000, 1000) normalized is (0, 707, 707)
    assert_eq!(shrub.branches.len(), 2);
    assert_eq!(shrub.branches[1].pos, Vector3::new(0, 707, 707));
    assert_eq!(shrub.branches[0].child_count, 1);
    assert_eq!(shrub.attractors.len(), 3);
}

#[test]
fn pulls_that_cancel_the_direction_leave_the_child_in_place() {
    let mut shrub = planted();
    shrub.attractors.push(Attractor::new(Vector3::new(0, -3000, 0)));
    shrub.grow();
    assert_eq!(shrub.branches.len(), 2);
    assert_eq!(shrub.branches[1].pos, Vector3::zero());
    assert_eq!(shrub.branches[1].dir, Vector3::zero());
    assert_eq!(shrub.branches[1].generation, 1);
    assert!(shrub.is_wf());
}

#[test]
fn an_attractor_out_of_reach_changes_nothing() {
    let mut shrub = planted();
    shrub.attractors.push(Attractor::new(Vector3::new(0, 5001, 0)));
    shrub.grow();
    assert_eq!(shrub.branches.len(), 1);
    assert_eq!(shrub.attractors.len(), 1);
    assert_eq!(shrub.branches[0].child_count, 0);
}

#[test]
fn growth_removes_exactly_the_reached() {
    let mut shrub = planted();
    let near = Vector3::new(0, 500, 0);
    let pulling = Vector3::new(0, 3000, 0);
    let far = Vector3::new(0, 9000, 0);
    let near_too = Vector3::new(0, 0, 999);
    for p in [near, pulling, far, near_too] {
        shrub.attractors.push(Attractor::new(p));
    }
    shrub.grow();
    assert_eq!(shrub.attractors.len(), 2);
    assert_eq!(shrub.attractors[0].pos, pulling);
    assert_eq!(shrub.attractors[1].pos, far);
    for a in shrub.attractors.iter() {
        assert!(!a.reached);
    }
    assert_eq!(shrub.branches.len(), 2);
    assert_eq!(shrub.branches[1].pos, Vector3::new(0, 1000, 0));
}

#[test]
fn children_take_no_part_in_the_step_that_makes_them() {
    let mut shrub = planted();
    // pulls the root straight up; its child at height 1 would be within the
    // kill distance of the second attractor, which the root is not
    shrub.attractors.push(Attractor::new(Vector3::new(0, 4000, 0)));
    shrub.attractors.push(Attractor::new(Vector3::new(0, 1800, 0)));
    shrub.grow();
    assert_eq!(shrub.branches.len(), 2);
    assert_eq!(shrub.branches[1].pos, Vector3::new(0, 1000, 0));
    assert_eq!(shrub.attractors.len(), 2);
    shrub.grow();
    // now the child consumes the nearer attractor and is pulled by the other
    assert_eq!(shrub.attractors.len(), 1);
    assert_eq!(shrub.attractors[0].pos, Vector3::new(0, 4000, 0));
    assert_eq!(shrub.branches.len(), 3);
    assert_eq!(shrub.branches[2].parent_index, Some(1));
    assert_eq!(shrub.branches[2].pos, Vector3::new(0, 2000, 0));
    assert_eq!(shrub.branches[2].generation, 2);
}

#[test]
fn children_follow_in_the_order_of_their_parents() {
    let mut shrub = planted();
    shrub.attractors.push(Attractor::new(Vector3::new(0, 5500, 0)));
    shrub.build_trunk();
    assert_eq!(shrub.branches.len(), 4);
    shrub.attractors.push(Attractor::new(Vector3::new(3000, 3000, 0)));
    shrub.attractors.push(Attractor::new(Vector3::new(-3000, 1000, 0)));
    shrub.grow();
    assert_eq!(shrub.branches.len(), 6);
    // the branch at height 1 was made before the one at height 3
    assert_eq!(shrub.branches[4].parent_index, Some(1));
    assert_eq!(shrub.branches[5].parent_index, Some(3));
    assert_eq!(shrub.branches[4].generation, 1);
    assert_eq!(shrub.branches[1].child_count, 2);
    assert_eq!(shrub.branches[3].child_count, 1);
    assert!(shrub.is_wf());
}

#[test]
fn skeleton_stays_a_tree_and_inside_its_bounds() {
    let mut shrub = planted();
    let mut y = 4000;
    while y < 12000 {
        let mut x = -4000;
        while x <= 4000 {
            shrub.attractors.push(Attractor::new(Vector3::new(x, y, (x * 7 + y) % 3000 - 1500)));
            x += 1000;
        }
        y += 1000;
    }
    shrub.build_trunk();
    let mut round = 0;
    while round < 12 {
        let before = shrub.branches.len();
        let attractors_before = shrub.attractors.len();
        shrub.grow();
        assert!(shrub.branches.len() >= before);
        assert!(shrub.attractors.len() <= attractors_before);
        assert!(shrub.is_wf());
        assert!(shrub.is_tallied());
        assert!(shrub.is_growable());
        for (i, b) in shrub.branches.iter().enumerate() {
            if let Some(p) = b.parent_index {
                assert!(p < i);
                assert!(b.generation <= shrub.branches[p].generation + 1);
            } else {
                assert_eq!(i, 0);
            }
            assert!(in_box(shrub.min_bounds, shrub.max_bounds, b.pos));
            let children = shrub.branches.iter().filter(|c| c.parent_index == Some(i)).count();
            assert_eq!(b.child_count, children);
        }
        for a in shrub.attractors.iter() {
            assert!(!a.reached);
            for b in shrub.branches[..before].iter() {
                assert!(a.pos.distance(b.pos) >= 1000);
            }
        }
        round += 1;
    }
    assert!(shrub.branches.len() > 10);
}

#[test]
fn bounds_in_cells_round_up() {
    let mut shrub = planted();
    shrub.min_bounds = Vector3::new(-1500, 0, -2000);
    shrub.max_bounds = Vector3::new(1500, 2001, 0);
    let (min, max) = shrub.get_bounds();
    assert_eq!(min, IVector3::new(-1, 0, -2));
    assert_eq!(max, IVector3::new(2, 3, 0));
    assert_eq!(shrub.get_bounding_size(), IVector3::new(3, 3, 2));
    assert_eq!(shrub.get_plane_half_size(), 1500);
}

#[test]
fn update_bound_widens_the_box() {
    let mut min = Vector3::new(-1, -1, -1);
    let mut max = Vector3::new(1, 1, 1);
    Shrubbery::update_bound(&mut min, &mut max, Vector3::new(5, 0, -7));
    assert_eq!(min, Vector3::new(-1, -1, -7));
    assert_eq!(max, Vector3::new(5, 1, 1));
    Shrubbery::update_bound(&mut min, &mut max, Vector3::new(0, 0, 0));
    assert_eq!(min, Vector3::new(-1, -1, -7));
    assert_eq!(max, Vector3::new(5, 1, 1));
}

#[test]
fn distance_to_branch_finds_the_nearest_segment() {
    let mut shrub = planted();
    shrub.attractors.push(Attractor::new(Vector3::new(0, 5500, 0)));
    shrub.build_trunk();
    // segments: 0-1000, 1000-2000, 2000-3000 along y
    assert_eq!(shrub.distance_to_branch(Vector3::new(300, 1500, 400)), (500, 2));
    assert_eq!(shrub.distance_to_branch(Vector3::new(0, 7000, 0)), (4000, 3));
    // on the joint of two segments the first counts
    assert_eq!(shrub.distance_to_branch(Vector3::new(600, 1000, 800)), (1000, 1));
}

#[test]
fn distance_to_branch_without_segments() {
    let shrub = planted();
    assert_eq!(shrub.distance_to_branch(Vector3::new(0, 0, 0)), (i64::MAX, 0));
}

#[test]
fn gravity_lowers_the_far_branches() {
    let mut shrub = planted();
    shrub.branches[0].child_count = 1;
    let mut far = branch_at(Vector3::new(3000, 5000, 4000));
    far.parent_index = Some(0);
    shrub.branches.push(far);
    shrub.min_bounds = Vector3::new(-2000, 0, -2000);
    shrub.max_bounds = Vector3::new(2000, 3000, 2000);
    assert!(shrub.is_wf());
    assert_eq!(shrub.get_plane_half_size(), 2000);
    assert_eq!(shrub.plane_weight(0), 0);
    assert_eq!(shrub.plane_weight(1), 2500);
    shrub.post_process_gravity(1000);
    // 5000 from the axis, half size 2: lowered by 2.5
    assert_eq!(shrub.branches[1].pos, Vector3::new(3000, 2500, 4000));
    assert_eq!(shrub.branches[0].pos, Vector3::zero());
    // the bounds follow the branch
    assert_eq!(shrub.min_bounds, Vector3::new(-2000, 0, -2000));
    assert_eq!(shrub.max_bounds, Vector3::new(3000, 3000, 4000));
    // the plane is six cells wide now: half a side is 3
    assert_eq!(shrub.get_plane_half_size(), 3000);
    shrub.post_process_gravity(1000);
    assert_eq!(shrub.branches[1].pos, Vector3::new(3000, 834, 4000));
    assert!(shrub.is_wf());
    assert!(shrub.is_tallied());
}

#[test]
fn gravity_widens_the_bounds_downward() {
    let mut shrub = planted();
    shrub.branches[0].child_count = 1;
    let mut child = branch_at(Vector3::new(1000, 0, 0));
    child.parent_index = Some(0);
    shrub.branches.push(child);
    shrub.max_bounds = Vector3::new(1000, 0, 0);
    assert!(shrub.is_wf());
    shrub.post_process_gravity(1000);
    // one cell wide: half a side is 0.5, the weight 2
    assert_eq!(shrub.branches[1].pos, Vector3::new(1000, -2000, 0));
    assert_eq!(shrub.min_bounds, Vector3::new(0, -2000, 0));
    assert_eq!(shrub.max_bounds, Vector3::new(1000, 0, 0));
    for b in shrub.branches.iter() {
        assert!(in_box(shrub.min_bounds, shrub.max_bounds, b.pos));
    }
    assert!(shrub.is_wf());
}

#[test]
fn gravity_without_horizontal_extent_changes_nothing() {
    let mut shrub = planted();
    shrub.attractors.push(Attractor::new(Vector3::new(0, 5500, 0)));
    shrub.build_trunk();
    shrub.branches[3].pos = Vector3::new(700, 3000, 0);
    assert_eq!(shrub.get_plane_half_size(), 0);
    shrub.post_process_gravity(1000);
    assert_eq!(shrub.branches[3].pos, Vector3::new(700, 3000, 0));
}

#[test]
fn spin_turns_a_branch_around_the_vertical_axis() {
    let mut shrub = planted();
    shrub.branches[0].pos = Vector3::new(1000, 500, 2000);
    shrub.spin_branch(0, 600, 800);
    assert_eq!(shrub.branches[0].pos, Vector3::new(-1000, 500, 2000));
    assert_eq!(shrub.min_bounds, Vector3::new(-1000, 0, 0));
    assert_eq!(shrub.max_bounds, Vector3::new(0, 500, 2000));
    shrub.spin_branch(0, 0, 1000);
    assert_eq!(shrub.branches[0].pos, Vector3::new(-2000, 500, -1000));
    assert_eq!(shrub.min_bounds, Vector3::new(-2000, 0, -1000));
    assert_eq!(shrub.max_bounds, Vector3::new(0, 500, 2000));
    assert!(shrub.is_wf());
}

#[test]
fn unsound_shrubs_are_recognized() {
    let shrub = planted();
    assert!(shrub.is_wf() && shrub.is_readable() && shrub.is_growable() && shrub.is_tallied());
    assert!(shrub.has_sound_bounds());
    let mut shrub = planted();
    shrub.branches[0].parent_index = Some(0);
    assert!(!shrub.is_wf());
    assert!(!shrub.is_readable());
    assert!(!shrub.is_tallied());
    let mut shrub = planted();
    shrub.attractors.push(Attractor { pos: Vector3::zero(), reached: true });
    assert!(!shrub.is_wf());
    assert!(shrub.is_readable());
    let mut shrub = planted();
    shrub.min_bounds = Vector3::new(1, 0, 0);
    assert!(!shrub.is_wf());
    assert!(!shrub.has_sound_bounds());
    let mut shrub = planted();
    shrub.branches[0].dir = Vector3::new(1, 1, 1);
    assert!(!shrub.is_wf());
    assert!(shrub.is_readable());
    let mut shrub = planted();
    shrub.branches[0].pos = Vector3::new(0, 250_000_001, 0);
    assert!(!shrub.is_wf());
    assert!(!shrub.is_readable());
}

#[test]
fn books_out_of_order_are_recognized() {
    let mut shrub = planted();
    shrub.branches[0].generation = 1;
    assert!(shrub.is_wf());
    assert!(!shrub.is_tallied());
    let mut shrub = planted();
    shrub.branches[0].child_count = 1;
    assert!(shrub.is_wf());
    assert!(!shrub.is_tallied());
    let mut shrub = planted();
    let child = shrub.branches[0].next(0, 1000, false);
    shrub.branches.push(child);
    assert!(shrub.is_wf() && shrub.is_growable());
    assert!(!shrub.is_tallied());
    shrub.branches[0].child_count = 1;
    assert!(shrub.is_tallied());
}

#[test]
fn a_shrub_without_room_cannot_grow() {
    let mut shrub = planted();
    shrub.branches[0].child_count = usize::MAX;
    assert!(shrub.is_wf());
    assert!(!shrub.is_growable());
    let mut shrub = planted();
    shrub.branches[0].generation = usize::MAX;
    assert!(!shrub.is_growable());
    shrub.branches[0].generation = usize::MAX - 1;
    assert!(shrub.is_growable());
}

#[test]
fn the_nearer_branch_pulls_though_less_than_a_unit_nearer() {
    let s = settings();
    let branches = vec![branch_at(Vector3::new(0, 2, 0)), branch_at(Vector3::new(0, 1, 0))];
    assert_eq!(find_attraction(&branches, Vector3::new(3000, 0, 0), &s), Attraction::Pulls(1));
    let branches = vec![branch_at(Vector3::new(0, 1, 0)), branch_at(Vector3::new(0, -1, 0))];
    assert_eq!(find_attraction(&branches, Vector3::new(3000, 0, 0), &s), Attraction::Pulls(0));
}

#[test]
fn attraction_ends_exactly_at_the_attraction_distance() {
    let s = settings();
    let branches = vec![branch_at(Vector3::zero())];
    // 5000 and a little: the distance rounds down to 5000
    assert_eq!(find_attraction(&branches, Vector3::new(5000, 1, 0), &s), Attraction::OutOfReach);
    assert_eq!(find_attraction(&branches, Vector3::new(3000, 4000, 0), &s), Attraction::Pulls(0));
    assert_eq!(find_attraction(&branches, Vector3::new(999, 44, 0), &s), Attraction::Reached);
    assert_eq!(find_attraction(&branches, Vector3::new(999, 45, 0), &s), Attraction::Pulls(0));
}

#[test]
fn a_later_branch_that_kills_takes_the_pull_from_the_first() {
    let mut shrub = planted();
    let child = shrub.branches[0].next(0, 3000, false);
    shrub.branches.push(child);
    shrub.attractors.push(Attractor::new(Vector3::new(0, 3500, 0)));
    shrub.grow();
    assert!(shrub.attractors.is_empty());
    assert_eq!(shrub.branches.len(), 2);
    assert_eq!(shrub.branches[0].child_count, 0);
}

#[test]
fn of_two_branches_equally_near_the_first_is_pulled() {
    let mut shrub = planted();
    let child = shrub.branches[0].next(0, 4000, false);
    shrub.branches.push(child);
    shrub.attractors.push(Attractor::new(Vector3::new(3000, 2000, 0)));
    shrub.grow();
    assert_eq!(shrub.branches.len(), 3);
    assert_eq!(shrub.branches[2].parent_index, Some(0));
    assert_eq!(shrub.branches[2].generation, 1);
    assert_eq!(shrub.branches[1].child_count, 0);
    assert_eq!(shrub.branches[0].child_count, 1);
}

#[test]
fn distance_to_branch_on_a_skeleton_made_by_hand() {
    let mut shrub = planted();
    let first = shrub.branches[0].next(0, 2000, false);
    shrub.branches.push(first);
    let second = shrub.branches[1].next(1, 2000, false);
    shrub.branches.push(second);
    assert_eq!(shrub.distance_to_branch(Vector3::new(1000, 2000, 0)), (1000, 1));
}

#[test]
fn plane_weight_is_a_share_of_the_half_size() {
    let mut shrub = planted();
    shrub.branches[0].pos = Vector3::new(3000, 0, 4000);
    shrub.min_bounds = Vector3::new(-1000, 0, -1000);
    shrub.max_bounds = Vector3::new(2000, 0, 1000);
    // three cells wide: half a side is 1.5
    assert_eq!(shrub.get_plane_half_size(), 1500);
    assert_eq!(shrub.plane_weight(0), 3333);
    shrub.post_process_gravity(300);
    assert_eq!(shrub.branches[0].pos, Vector3::new(3000, -999, 4000));
}

#[test]
fn spin_turns_every_branch_by_its_own_turn() {
    let mut shrub = planted();
    shrub.attractors.push(Attractor::new(Vector3::new(0, 5500, 0)));
    shrub.build_trunk();
    shrub.branches[1].pos = Vector3::new(1000, 1000, 0);
    shrub.branches[2].pos = Vector3::new(1000, 2000, 2000);
    shrub.branches[3].pos = Vector3::new(0, 3000, -3000);
    assert_eq!(shrub.max_bounds, Vector3::new(0, 3000, 0));
    shrub.post_process_spin(&vec![(1000, 0), (0, 1000), (600, 800), (-1000, 0)]);
    assert_eq!(shrub.branches[0].pos, Vector3::new(0, 0, 0));
    assert_eq!(shrub.branches[1].pos, Vector3::new(0, 1000, 1000));
    assert_eq!(shrub.branches[2].pos, Vector3::new(-1000, 2000, 2000));
    assert_eq!(shrub.branches[3].pos, Vector3::new(0, 3000, 3000));
    // the bounds follow the branches
    assert_eq!(shrub.min_bounds, Vector3::new(-1000, 0, 0));
    assert_eq!(shrub.max_bounds, Vector3::new(0, 3000, 3000));
    for b in shrub.branches.iter() {
        assert!(in_box(shrub.min_bounds, shrub.max_bounds, b.pos));
    }
    assert_eq!(shrub.branches[2].parent_index, Some(1));
    assert!(shrub.is_wf());
}

#[test]
fn spin_stops_at_the_walls_of_the_world() {
    let mut shrub = planted();
    shrub.branches[0].pos = Vector3::new(250_000_000, 0, 250_000_000);
    // not the cosine and sine of one angle, but within their size
    shrub.spin_branch(0, 1000, 1000);
    assert_eq!(shrub.branches[0].pos, Vector3::new(0, 0, 250_000_000));
    shrub.branches[0].pos = Vector3::new(250_000_000, 0, -250_000_000);
    shrub.spin_branch(0, 1000, 1000);
    assert_eq!(shrub.branches[0].pos, Vector3::new(250_000_000, 0, 0));
    shrub.branches[0].pos = Vector3::new(250_000_000, 0, 250_000_000);
    shrub.spin_branch(0, 1000, -1000);
    assert_eq!(shrub.branches[0].pos, Vector3::new(250_000_000, 0, 0));
}

#[test]
fn the_nearer_segment_counts_though_less_than_a_unit_nearer() {
    let mut shrub = planted();
    let mut slanted = branch_at(Vector3::new(-1, 1000, 0));
    slanted.parent_index = Some(0);
    let mut upright = branch_at(Vector3::new(0, 1000, 0));
    upright.parent_index = Some(0);
    shrub.branches.push(slanted);
    shrub.branches.push(upright);
    // 3000.5 from the slanted segment, 3000 from the upright one
    assert_eq!(shrub.distance_to_branch(Vector3::new(3000, 500, 0)), (3000, 2));
    // mirrored, the slanted segment is the nearer one
    assert_eq!(shrub.distance_to_branch(Vector3::new(-3000, 500, 0)), (2999, 1));
    // equally near: the first counts
    shrub.branches[1].pos = Vector3::new(0, 1000, 0);
    assert_eq!(shrub.distance_to_branch(Vector3::new(3000, 500, 0)), (3000, 1));
}
