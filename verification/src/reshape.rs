//! Reshaping a grown shrub: sagging under gravity and spinning around
//! the vertical axis.

use crate::branch::Branch;
use crate::math_utils::{clamp, clamp_to, div_toward_zero, rotate_point, rotated, trunc_div};
use crate::shrubbery::{
    bounds_over, box_holds, branch_wf, has_room, lemma_bounds_over_holds, lemma_bounds_over_push,
    lemma_counted_frame, lower_corner, positions_of, tallied, upper_corner, Shrubbery,
};
use crate::vec::{Vector2, Vector3, COORD_LIMIT, SCALE};
use vstd::prelude::*;

verus! {

/// How far a branch at `p` stands from the vertical axis through the
/// origin, as a fixed-point share of `half` units, rounded down; zero
/// where `half` is zero.
pub open spec fn plane_weight_of(p: Vector3, half: int) -> int {
    if half <= 0 {
        0
    } else {
        (Vector2 { x: p.x, y: p.z }).dist(Vector2 { x: 0, y: 0 }) * SCALE / half
    }
}

/// Where a branch at `p` hangs after the sagging: lowered by the gravity
/// times its weight in the plane, rounded toward zero, and stopped at the
/// walls of the world.
pub open spec fn sagged(p: Vector3, half: int, gravity: i64) -> Vector3 {
    Vector3 {
        y: clamp(
            p.y - trunc_div(plane_weight_of(p, half) * gravity, SCALE as int),
            -COORD_LIMIT as int,
            COORD_LIMIT as int,
        ) as i64,
        ..p
    }
}

/// A branch at `p` after its position in the horizontal plane has been
/// turned around the origin by the angle with the fixed-point cosine
/// `cos` and sine `sin`, stopped at the walls of the world.
pub open spec fn spun(p: Vector3, cos: i64, sin: i64) -> Vector3 {
    let turned = rotated(Vector2 { x: p.x, y: p.z }, cos, sin);
    Vector3 {
        x: clamp(turned.x as int, -COORD_LIMIT as int, COORD_LIMIT as int) as i64,
        y: p.y,
        z: clamp(turned.y as int, -COORD_LIMIT as int, COORD_LIMIT as int) as i64,
    }
}

/// The pair holds the fixed-point cosine and sine of an angle, as far as
/// their size tells.
pub open spec fn is_turn(turn: (i64, i64)) -> bool {
    &&& -SCALE <= turn.0 <= SCALE
    &&& -SCALE <= turn.1 <= SCALE
}

/// The branch `b` moved to `pos`.
pub open spec fn moved(b: Branch, pos: Vector3) -> Branch {
    Branch { pos, ..b }
}

/// How far a position of the world stands from the vertical axis through
/// the origin, as a fixed-point share of `half` units.
pub fn weight_in_plane(pos: Vector3, half: i64) -> (weight: i64)
    requires
        pos.in_world(),
        0 <= half,
    ensures
        weight == plane_weight_of(pos, half as int),
        0 <= weight <= 1_000_000_000_000,
{
    if half == 0 {
        return 0;
    }
    let dist_to_root: i64 = Vector2 { x: pos.x, y: pos.z }.distance(Vector2::zero());
    let scaled: i64 = dist_to_root * SCALE;
    let weight: i64 = scaled / half;
    assert(0 <= weight <= scaled) by (nonlinear_arith)
        requires
            weight == scaled as int / half as int,
            0 <= scaled,
            0 < half,
    ;
    weight
}

impl Shrubbery {
    /// How far the branch at `index` stands from the vertical axis through
    /// the origin, as a fixed-point share of the half size of the plane:
    /// the weight with which the reshaping takes hold of it.
    pub fn plane_weight(&self, index: usize) -> (weight: i64)
        requires
            self.bounds_wf(),
            index < self.branches@.len(),
            self.branches@[index as int].pos.in_world(),
        ensures
            weight == plane_weight_of(self.branches@[index as int].pos, self.plane_half_size()),
            0 <= weight <= 1_000_000_000_000,
    {
        weight_in_plane(self.branches[index].pos, self.get_plane_half_size())
    }

    /// Lets the branches sag: each is lowered by `gravity`, a fixed-point
    /// length, times its horizontal distance from the origin as a share
    /// of the half size that the plane had before. The bounds are widened
    /// until they hold every branch where it hangs now.
    pub fn post_process_gravity(&mut self, gravity: i64)
        requires
            old(self).wf(),
        ensures
            final(self).wf(),
            final(self).branches@.len() == old(self).branches@.len(),
            forall|i: int|
                0 <= i < old(self).branches@.len() ==> #[trigger] final(self).branches@[i]
                    == moved(
                    old(self).branches@[i],
                    sagged(old(self).branches@[i].pos, old(self).plane_half_size() as int, gravity),
                ),
            (final(self).min_bounds, final(self).max_bounds) == bounds_over(
                old(self).min_bounds,
                old(self).max_bounds,
                positions_of(final(self).branches@),
            ),
            final(self).bounds_hold_branches(),
            tallied(old(self).branches@) ==> tallied(final(self).branches@),
            has_room(old(self).branches@) ==> has_room(final(self).branches@),
            final(self).attractors@ == old(self).attractors@,
            final(self).settings == old(self).settings,
            final(self).generator_settings == old(self).generator_settings,
    {
        let ghost b0 = self.branches@;
        let ghost min0 = self.min_bounds;
        let ghost max0 = self.max_bounds;
        let half: i64 = self.get_plane_half_size();
        let n: usize = self.branches.len();
        let mut i: usize = 0;
        proof {
            assert(positions_of(self.branches@).take(0) =~= Seq::<Vector3>::empty());
        }
        while i < n
            invariant
                i <= n,
                n == b0.len(),
                self.branches@.len() == n,
                self.bounds_wf(),
                0 <= half == old(self).plane_half_size(),
                forall|j: int| 0 <= j < b0.len() ==> branch_wf(b0, j),
                forall|j: int|
                    0 <= j < i ==> #[trigger] self.branches@[j] == moved(
                        b0[j],
                        sagged(b0[j].pos, half as int, gravity),
                    ),
                forall|j: int| i <= j < n ==> #[trigger] self.branches@[j] == b0[j],
                (self.min_bounds, self.max_bounds) == bounds_over(
                    min0,
                    max0,
                    positions_of(self.branches@).take(i as int),
                ),
                self.attractors@ == old(self).attractors@,
                self.settings == old(self).settings,
                self.generator_settings == old(self).generator_settings,
            decreases n - i,
        {
            let ghost before = self.branches@;
            assert(branch_wf(b0, i as int));
            let weight: i64 = weight_in_plane(self.branches[i].pos, half);
            assert(-0x4000_0000_0000_0000_0000_0000_0000_0000 <= weight * gravity
                <= 0x4000_0000_0000_0000_0000_0000_0000_0000) by (nonlinear_arith)
                requires
                    0 <= weight <= 1_000_000_000_000,
                    -0x8000_0000_0000_0000 <= gravity <= 0x7fff_ffff_ffff_ffff,
            ;
            let pull: i128 = weight as i128 * gravity as i128;
            let drop: i128 = div_toward_zero(pull, SCALE as i128);
            let y: i64 = clamp_to(self.branches[i].pos.y as i128 - drop, -COORD_LIMIT, COORD_LIMIT);
            self.branches[i].pos.y = y;
            let pos = self.branches[i].pos;
            Self::update_bound(&mut self.min_bounds, &mut self.max_bounds, pos);
            proof {
                let added = positions_of(before).take(i as int);
                assert(positions_of(self.branches@).take(i + 1) =~= added.push(pos));
                lemma_bounds_over_push(min0, max0, added, pos);
            }
            i += 1;
        }
        proof {
            assert(positions_of(self.branches@).take(n as int) =~= positions_of(self.branches@));
            lemma_bounds_over_holds(min0, max0, positions_of(self.branches@));
            assert forall|j: int| 0 <= j < self.branches@.len() implies box_holds(
                self.min_bounds,
                self.max_bounds,
                (#[trigger] self.branches@[j]).pos,
            ) by {
                assert(positions_of(self.branches@)[j] == self.branches@[j].pos);
            }
            assert forall|j: int| 0 <= j < self.branches@.len() implies branch_wf(
                self.branches@,
                j,
            ) by {
                assert(branch_wf(b0, j));
            }
            lemma_moved_keeps(b0, self.branches@);
        }
    }

    /// Spins the shrub: every branch is turned around the vertical axis
    /// through the origin by a turn of its own, given as the fixed-point
    /// cosine and sine of its angle. The caller derives the angles from
    /// the height and the weight in the plane of each branch. The bounds
    /// are widened until they hold every branch where it stands now.
    pub fn post_process_spin(&mut self, turns: &Vec<(i64, i64)>)
        requires
            old(self).wf(),
            turns@.len() == old(self).branches@.len(),
            forall|i: int| 0 <= i < turns@.len() ==> is_turn(#[trigger] turns@[i]),
        ensures
            final(self).wf(),
            final(self).branches@.len() == old(self).branches@.len(),
            forall|i: int|
                0 <= i < old(self).branches@.len() ==> #[trigger] final(self).branches@[i]
                    == moved(
                    old(self).branches@[i],
                    spun(old(self).branches@[i].pos, turns@[i].0, turns@[i].1),
                ),
            (final(self).min_bounds, final(self).max_bounds) == bounds_over(
                old(self).min_bounds,
                old(self).max_bounds,
                positions_of(final(self).branches@),
            ),
            final(self).bounds_hold_branches(),
            tallied(old(self).branches@) ==> tallied(final(self).branches@),
            has_room(old(self).branches@) ==> has_room(final(self).branches@),
            final(self).attractors@ == old(self).attractors@,
            final(self).settings == old(self).settings,
            final(self).generator_settings == old(self).generator_settings,
    {
        let ghost b0 = self.branches@;
        let ghost min0 = self.min_bounds;
        let ghost max0 = self.max_bounds;
        let n: usize = self.branches.len();
        let mut i: usize = 0;
        proof {
            assert(positions_of(self.branches@).take(0) =~= Seq::<Vector3>::empty());
        }
        while i < n
            invariant
                i <= n,
                n == b0.len(),
                turns@.len() == n,
                forall|j: int| 0 <= j < turns@.len() ==> is_turn(#[trigger] turns@[j]),
                self.wf(),
                self.branches@.len() == n,
                forall|j: int|
                    0 <= j < i ==> #[trigger] self.branches@[j] == moved(
                        b0[j],
                        spun(b0[j].pos, turns@[j].0, turns@[j].1),
                    ),
                forall|j: int| i <= j < n ==> #[trigger] self.branches@[j] == b0[j],
                (self.min_bounds, self.max_bounds) == bounds_over(
                    min0,
                    max0,
                    positions_of(self.branches@).take(i as int),
                ),
                self.attractors@ == old(self).attractors@,
                self.settings == old(self).settings,
                self.generator_settings == old(self).generator_settings,
            decreases n - i,
        {
            let ghost before = self.branches@;
            assert(is_turn(turns@[i as int]));
            let (cos, sin) = turns[i];
            self.spin_branch(i, cos, sin);
            proof {
                let added = positions_of(before).take(i as int);
                let pos = self.branches@[i as int].pos;
                assert(positions_of(self.branches@).take(i + 1) =~= added.push(pos));
                lemma_bounds_over_push(min0, max0, added, pos);
            }
            i += 1;
        }
        proof {
            assert(positions_of(self.branches@).take(n as int) =~= positions_of(self.branches@));
            lemma_bounds_over_holds(min0, max0, positions_of(self.branches@));
            assert forall|j: int| 0 <= j < self.branches@.len() implies box_holds(
                self.min_bounds,
                self.max_bounds,
                (#[trigger] self.branches@[j]).pos,
            ) by {
                assert(positions_of(self.branches@)[j] == self.branches@[j].pos);
            }
            lemma_moved_keeps(b0, self.branches@);
        }
    }

    /// Turns the branch at `index` around the vertical axis through the
    /// origin by the angle whose fixed-point cosine and sine are `cos`
    /// and `sin`, and widens the bounds until they hold it where it
    /// stands now.
    pub fn spin_branch(&mut self, index: usize, cos: i64, sin: i64)
        requires
            old(self).wf(),
            index < old(self).branches@.len(),
            is_turn((cos, sin)),
        ensures
            final(self).wf(),
            final(self).branches@ == old(self).branches@.update(
                index as int,
                moved(
                    old(self).branches@[index as int],
                    spun(old(self).branches@[index as int].pos, cos, sin),
                ),
            ),
            final(self).min_bounds == lower_corner(
                old(self).min_bounds,
                spun(old(self).branches@[index as int].pos, cos, sin),
            ),
            final(self).max_bounds == upper_corner(
                old(self).max_bounds,
                spun(old(self).branches@[index as int].pos, cos, sin),
            ),
            old(self).bounds_hold_branches() ==> final(self).bounds_hold_branches(),
            tallied(old(self).branches@) ==> tallied(final(self).branches@),
            has_room(old(self).branches@) ==> has_room(final(self).branches@),
            final(self).attractors@ == old(self).attractors@,
            final(self).settings == old(self).settings,
            final(self).generator_settings == old(self).generator_settings,
    {
        let ghost b0 = self.branches@;
        let ghost min0 = self.min_bounds;
        let ghost max0 = self.max_bounds;
        assert(branch_wf(b0, index as int));
        let pos = self.branches[index].pos;
        let new_xz = rotate_point(Vector2 { x: pos.x, y: pos.z }, cos, sin);
        let x: i64 = clamp_to(new_xz.x as i128, -COORD_LIMIT, COORD_LIMIT);
        let z: i64 = clamp_to(new_xz.y as i128, -COORD_LIMIT, COORD_LIMIT);
        self.branches[index].pos.x = x;
        self.branches[index].pos.z = z;
        let turned = self.branches[index].pos;
        Self::update_bound(&mut self.min_bounds, &mut self.max_bounds, turned);
        proof {
            assert(self.branches@ =~= b0.update(
                index as int,
                moved(b0[index as int], spun(b0[index as int].pos, cos, sin)),
            ));
            assert forall|j: int| 0 <= j < self.branches@.len() implies branch_wf(
                self.branches@,
                j,
            ) by {
                assert(branch_wf(b0, j));
            }
            if old(self).bounds_hold_branches() {
                assert forall|j: int| 0 <= j < self.branches@.len() implies box_holds(
                    self.min_bounds,
                    self.max_bounds,
                    (#[trigger] self.branches@[j]).pos,
                ) by {
                    if j != index {
                        assert(box_holds(min0, max0, b0[j].pos));
                    }
                }
            }
            lemma_moved_keeps(b0, self.branches@);
        }
    }
}

/// A skeleton whose branches have only moved keeps its books and its
/// room.
pub proof fn lemma_moved_keeps(before: Seq<Branch>, after: Seq<Branch>)
    requires
        before.len() == after.len(),
        forall|j: int|
            0 <= j < before.len() ==> (#[trigger] after[j]) == moved(before[j], after[j].pos),
    ensures
        tallied(before) ==> tallied(after),
        has_room(before) ==> has_room(after),
{
    if tallied(before) {
        lemma_counted_frame(before, after);
        assert forall|i: int| 0 <= i < after.len() implies (#[trigger] after[i]).generation
            <= i by {
            assert(before[i].generation <= i);
        }
    }
    if has_room(before) {
        assert forall|i: int| 0 <= i < after.len() implies (#[trigger] after[i]).child_count
            < usize::MAX && after[i].generation < usize::MAX by {
            assert(before[i].child_count < usize::MAX);
        }
    }
}

} // verus!
