//! The growth step of the space colonization: attractors pull the
//! branches near them, and the pulled branches sprout.

use crate::algorithm_settings::AlgorithmSettings;
use crate::attractor::Attractor;
use crate::branch::Branch;
use crate::math_utils::{is_root_below, is_root_within};
use crate::shrubbery::{
    attractors_wf, behind_parent, bounds_over, box_holds, branch_wf, grown_from, has_room,
    lemma_bounds_over_push, lemma_child_counted, lemma_counted_frame, lemma_tallied_has_room,
    positions_of, tallied, Shrubbery, DIR_LIMIT,
};
use crate::vec::{lemma_normalized_bounded, SpaceVector, Vector3, NORMALIZE_LIMIT, SCALE};
use vstd::prelude::*;

verus! {

/// What the skeleton does to one attractor in a growth step.
#[derive(Clone, Copy, Debug, PartialEq, Eq)]
pub enum Attraction {
    /// A branch is closer than the kill distance: the attractor is
    /// consumed and pulls nothing.
    Reached,
    /// The attractor pulls the branch at this index.
    Pulls(usize),
    /// No branch is within the attraction distance.
    OutOfReach,
}

/// The square of the distance from the attractor at `p` to the `i`-th
/// position.
pub open spec fn pull_sq(positions: Seq<Vector3>, p: Vector3, i: int) -> int {
    p.dist_sq(positions[i])
}

/// The `i`-th position is closer to `p` than the kill distance.
pub open spec fn kills(
    positions: Seq<Vector3>,
    p: Vector3,
    settings: AlgorithmSettings,
    i: int,
) -> bool {
    p.closer_than(positions[i], settings.kill_distance as int)
}

/// The `i`-th position is at most the attraction distance from `p`.
pub open spec fn in_pull(
    positions: Seq<Vector3>,
    p: Vector3,
    settings: AlgorithmSettings,
    i: int,
) -> bool {
    p.within(positions[i], settings.leaf_attraction_dist as int)
}

/// Some position is closer to `p` than the kill distance.
pub open spec fn is_reached(
    positions: Seq<Vector3>,
    p: Vector3,
    settings: AlgorithmSettings,
) -> bool {
    exists|i: int| 0 <= i < positions.len() && #[trigger] kills(positions, p, settings, i)
}

/// The `i`-th position is at most the attraction distance from `p`, no
/// position is nearer, and none before it is as near.
pub open spec fn is_nearest(
    positions: Seq<Vector3>,
    p: Vector3,
    settings: AlgorithmSettings,
    i: int,
) -> bool {
    &&& 0 <= i < positions.len()
    &&& in_pull(positions, p, settings, i)
    &&& forall|j: int|
        0 <= j < positions.len() && #[trigger] in_pull(positions, p, settings, j) ==> pull_sq(
            positions,
            p,
            i,
        ) <= pull_sq(positions, p, j) && (j < i ==> pull_sq(positions, p, i) < pull_sq(
            positions,
            p,
            j,
        ))
}

/// What branches at `positions` do to an attractor at `p`.
pub open spec fn attraction(
    positions: Seq<Vector3>,
    p: Vector3,
    settings: AlgorithmSettings,
) -> Attraction {
    if is_reached(positions, p, settings) {
        Attraction::Reached
    } else if exists|i: int| is_nearest(positions, p, settings, i) {
        Attraction::Pulls((choose|i: int| is_nearest(positions, p, settings, i)) as usize)
    } else {
        Attraction::OutOfReach
    }
}

/// The unit direction from `from` toward `to`.
pub open spec fn unit_pull(from: Vector3, to: Vector3) -> SpaceVector {
    to@.minus(from@).normalized()
}

/// How many of the first `upto` attractors pull the branch at `i`.
pub open spec fn pulled_count(
    positions: Seq<Vector3>,
    attractors: Seq<Attractor>,
    settings: AlgorithmSettings,
    i: int,
    upto: int,
) -> nat
    decreases upto,
{
    if upto <= 0 {
        0
    } else {
        let before = pulled_count(positions, attractors, settings, i, upto - 1);
        if attraction(positions, attractors[upto - 1].pos, settings) == Attraction::Pulls(
            i as usize,
        ) {
            before + 1
        } else {
            before
        }
    }
}

/// The sum of the unit directions in which the first `upto` attractors
/// pull the branch at `i`.
pub open spec fn pulled_sum(
    positions: Seq<Vector3>,
    attractors: Seq<Attractor>,
    settings: AlgorithmSettings,
    i: int,
    upto: int,
) -> SpaceVector
    decreases upto,
{
    if upto <= 0 {
        SpaceVector::zero()
    } else {
        let before = pulled_sum(positions, attractors, settings, i, upto - 1);
        if attraction(positions, attractors[upto - 1].pos, settings) == Attraction::Pulls(
            i as usize,
        ) {
            before.plus(unit_pull(positions[i], attractors[upto - 1].pos))
        } else {
            before
        }
    }
}

/// The branches after the first `upto` attractors have pulled: each has
/// the pulls added to its direction and counted.
pub open spec fn pulled_branches(
    branches: Seq<Branch>,
    attractors: Seq<Attractor>,
    settings: AlgorithmSettings,
    upto: int,
) -> Seq<Branch> {
    Seq::new(
        branches.len(),
        |i: int|
            Branch {
                dir: branches[i].dir@.plus(
                    pulled_sum(positions_of(branches), attractors, settings, i, upto),
                ).narrowed(),
                attractors_count: pulled_count(
                    positions_of(branches),
                    attractors,
                    settings,
                    i,
                    upto,
                ) as usize,
                ..branches[i]
            },
    )
}

/// The attractors with each marked that a branch has reached.
pub open spec fn marked_attractors(
    positions: Seq<Vector3>,
    attractors: Seq<Attractor>,
    settings: AlgorithmSettings,
) -> Seq<Attractor> {
    Seq::new(
        attractors.len(),
        |k: int|
            Attractor {
                pos: attractors[k].pos,
                reached: attractors[k].reached || is_reached(
                    positions,
                    attractors[k].pos,
                    settings,
                ),
            },
    )
}

/// The attractors that no branch has reached, in their order.
pub open spec fn live_attractors(attractors: Seq<Attractor>) -> Seq<Attractor> {
    attractors.filter(|a: Attractor| !a.reached)
}

/// The attractors that are farther than the kill distance from every
/// position, in their order.
pub open spec fn survivors(
    positions: Seq<Vector3>,
    attractors: Seq<Attractor>,
    settings: AlgorithmSettings,
) -> Seq<Attractor> {
    attractors.filter(|a: Attractor| !is_reached(positions, a.pos, settings))
}

/// The branch at `i` is sound but for the pulls that it has gathered.
pub open spec fn pulled_wf(branches: Seq<Branch>, i: int) -> bool {
    let b = branches[i];
    &&& b.pos.in_world()
    &&& b.dir@.bounded(NORMALIZE_LIMIT as int)
    &&& b.original_dir@.bounded(DIR_LIMIT as int)
    &&& (b.attractors_count == 0 ==> b.dir == b.original_dir)
    &&& behind_parent(branches, i)
}

/// The child that a pulled branch, which stands at `index`, sprouts: one
/// branch length along its normalized direction, a generation on.
pub open spec fn pulled_child(b: Branch, index: int, branch_len: i64) -> Branch {
    Branch { dir: b.dir@.normalized().narrowed(), ..b }.sprout(index as usize, branch_len, true)
}

/// A branch after the sprouting: one that was pulled has a child more and
/// rests again.
pub open spec fn settled(b: Branch) -> Branch {
    if b.attractors_count > 0 {
        Branch {
            child_count: (b.child_count + 1) as usize,
            attractors_count: 0,
            dir: b.original_dir,
            ..b
        }
    } else {
        b
    }
}

/// The children of the pulled branches among the first `upto`, in the
/// order of their parents.
pub open spec fn sprouts(pulled: Seq<Branch>, branch_len: i64, upto: int) -> Seq<Branch>
    decreases upto,
{
    if upto <= 0 {
        Seq::empty()
    } else {
        let before = sprouts(pulled, branch_len, upto - 1);
        if pulled[upto - 1].attractors_count > 0 {
            before.push(pulled_child(pulled[upto - 1], upto - 1, branch_len))
        } else {
            before
        }
    }
}

/// The skeleton after the sprouting: the branches settled, then the
/// children.
pub open spec fn sprouted(pulled: Seq<Branch>, branch_len: i64) -> Seq<Branch> {
    pulled.map_values(|b: Branch| settled(b)) + sprouts(pulled, branch_len, pulled.len() as int)
}

/// The skeleton after one growth step.
pub open spec fn grown(
    branches: Seq<Branch>,
    attractors: Seq<Attractor>,
    settings: AlgorithmSettings,
) -> Seq<Branch> {
    sprouted(
        pulled_branches(branches, attractors, settings, attractors.len() as int),
        settings.branch_len,
    )
}

impl Shrubbery {
    /// One growth step of the space colonization. Every attractor that
    /// has a branch closer than the kill distance is removed; every other
    /// one pulls the nearest branch within the attraction distance, of
    /// equally near ones the first. Then every pulled branch sprouts one
    /// child, a branch length along the normalized sum of its own
    /// direction and the unit directions toward its attractors. The
    /// children take no part in the step that makes them.
    pub fn grow(&mut self)
        requires
            old(self).wf(),
            has_room(old(self).branches@),
        ensures
            final(self).wf(),
            final(self).branches@ == grown(
                old(self).branches@,
                old(self).attractors@,
                old(self).settings,
            ),
            grown_from(old(self).branches@, final(self).branches@),
            final(self).attractors@ == survivors(
                positions_of(old(self).branches@),
                old(self).attractors@,
                old(self).settings,
            ),
            (final(self).min_bounds, final(self).max_bounds) == bounds_over(
                old(self).min_bounds,
                old(self).max_bounds,
                positions_of(final(self).branches@).subrange(
                    old(self).branches@.len() as int,
                    final(self).branches@.len() as int,
                ),
            ),
            old(self).bounds_hold_branches() ==> final(self).bounds_hold_branches(),
            tallied(old(self).branches@) ==> tallied(final(self).branches@) && has_room(
                final(self).branches@,
            ),
            final(self).settings == old(self).settings,
            final(self).generator_settings == old(self).generator_settings,
    {
        let ghost b0 = self.branches@;
        let ghost a0 = self.attractors@;
        let ghost pos0 = positions_of(b0);
        let ghost s = self.settings;
        let ghost held = self.bounds_hold_branches();
        let ghost kept = tallied(self.branches@);
        let len: usize = self.branches.len();
        self.gather_pulls();
        let ghost mid = self.branches@;
        proof {
            assert forall|i: int| 0 <= i < mid.len() implies pulled_wf(mid, i) by {
                assert(branch_wf(b0, i));
                lemma_pulled_bounds(pos0, a0, s, i, a0.len() as int);
                if pulled_count(pos0, a0, s, i, a0.len() as int) == 0 {
                    lemma_unpulled_rests(pos0, a0, s, i, a0.len() as int);
                }
                assert(a0.len() * SCALE <= 1_000_000_000_000) by (nonlinear_arith)
                    requires
                        a0.len() <= 1_000_000_000,
                ;
            }
            if held {
                assert forall|i: int| 0 <= i < self.branches@.len() implies box_holds(
                    self.min_bounds,
                    self.max_bounds,
                    (#[trigger] self.branches@[i]).pos,
                ) by {
                    assert(box_holds(old(self).min_bounds, old(self).max_bounds, b0[i].pos));
                }
            }
            assert forall|i: int| 0 <= i < mid.len() implies (#[trigger] mid[i]).child_count
                < usize::MAX && mid[i].generation < usize::MAX by {
                assert(b0[i].child_count < usize::MAX);
            }
            if kept {
                lemma_counted_frame(b0, mid);
                assert forall|i: int| 0 <= i < mid.len() implies (#[trigger] mid[i]).generation
                    <= i by {
                    assert(b0[i].generation <= i);
                }
            }
        }
        purge_reached(&mut self.attractors);
        proof {
            let marked = marked_attractors(pos0, a0, s);
            lemma_live_marked(pos0, a0, s, a0.len() as int);
            assert(marked.take(a0.len() as int) =~= marked);
            assert(a0.take(a0.len() as int) =~= a0);
            lemma_survivors_wf(pos0, a0, s);
        }
        self.sprout_pulled();
        let grown_len: usize = self.branches.len();
        proof {
            assert(b0.len() == len <= usize::MAX);
            assert(self.branches@.len() == grown_len <= usize::MAX);
            if kept {
                lemma_tallied_has_room(self.branches@);
            }
            assert forall|i: int| 0 <= i < b0.len() implies (#[trigger] self.branches@[i]) == (
            Branch { child_count: self.branches@[i].child_count, ..b0[i] }) && b0[i].child_count
                <= self.branches@[i].child_count by {
                assert(self.branches@[i] == settled(mid[i]));
                assert(branch_wf(b0, i));
                assert(b0[i].child_count < usize::MAX);
                lemma_pulled_bounds(pos0, a0, s, i, a0.len() as int);
                if pulled_count(pos0, a0, s, i, a0.len() as int) == 0 {
                    lemma_unpulled_rests(pos0, a0, s, i, a0.len() as int);
                }
            }
        }
    }

    /// The first part of a growth step: every attractor that a branch has
    /// reached is marked, and every other one pulls the nearest branch
    /// within the attraction distance, if there is one.
    fn gather_pulls(&mut self)
        requires
            old(self).wf(),
        ensures
            final(self).branches@ == pulled_branches(
                old(self).branches@,
                old(self).attractors@,
                old(self).settings,
                old(self).attractors@.len() as int,
            ),
            final(self).attractors@ == marked_attractors(
                positions_of(old(self).branches@),
                old(self).attractors@,
                old(self).settings,
            ),
            final(self).settings == old(self).settings,
            final(self).generator_settings == old(self).generator_settings,
            final(self).min_bounds == old(self).min_bounds,
            final(self).max_bounds == old(self).max_bounds,
    {
        let ghost b0 = self.branches@;
        let ghost a0 = self.attractors@;
        let ghost pos0 = positions_of(b0);
        let ghost s = self.settings;
        let n: usize = self.branches.len();
        let m: usize = self.attractors.len();
        let mut k: usize = 0;
        proof {
            assert forall|i: int| 0 <= i < b0.len() implies b0[i] == pulled_branches(
                b0,
                a0,
                s,
                0,
            )[i] by {
                assert(branch_wf(b0, i));
            }
            assert(self.branches@ =~= pulled_branches(b0, a0, s, 0));
        }
        while k < m
            invariant
                k <= m,
                m == a0.len(),
                n == b0.len(),
                pos0 == positions_of(b0),
                self.settings == s,
                self.generator_settings == old(self).generator_settings,
                self.min_bounds == old(self).min_bounds,
                self.max_bounds == old(self).max_bounds,
                forall|i: int| 0 <= i < b0.len() ==> branch_wf(b0, i),
                attractors_wf(a0),
                self.branches@ == pulled_branches(b0, a0, s, k as int),
                self.attractors@.len() == m,
                forall|j: int|
                    0 <= j < k ==> #[trigger] self.attractors@[j] == marked_attractors(
                        pos0,
                        a0,
                        s,
                    )[j],
                forall|j: int| k <= j < m ==> #[trigger] self.attractors@[j] == a0[j],
            decreases m - k,
        {
            let ghost before = self.branches@;
            let p = self.attractors[k].pos;
            proof {
                assert(positions_of(self.branches@) =~= pos0);
                assert forall|i: int| 0 <= i < self.branches@.len() implies (
                #[trigger] self.branches@[i]).pos.in_world() by {
                    assert(branch_wf(b0, i));
                }
            }
            let pull = find_attraction(&self.branches, p, &self.settings);
            match pull {
                Attraction::Reached => {
                    self.attractors[k].reached = true;
                },
                Attraction::Pulls(c) => {
                    proof {
                        lemma_pulled_bounds(pos0, a0, s, c as int, k as int);
                        assert(branch_wf(b0, c as int));
                        assert(k * SCALE <= 1_000_000_000_000) by (nonlinear_arith)
                            requires
                                k <= 1_000_000_000,
                        ;
                    }
                    let from = self.branches[c].pos;
                    let unit = p.sub(from).normalize();
                    let dir = self.branches[c].dir.add(unit);
                    let count: usize = self.branches[c].attractors_count;
                    self.branches[c].dir = dir;
                    self.branches[c].attractors_count = count + 1;
                },
                Attraction::OutOfReach => {},
            }
            proof {
                let after = pulled_branches(b0, a0, s, k + 1);
                assert forall|i: int| 0 <= i < b0.len() implies self.branches@[i] == after[i] by {
                    assert(before[i] == pulled_branches(b0, a0, s, k as int)[i]);
                    lemma_pulled_bounds(pos0, a0, s, i, k as int);
                    lemma_pulled_bounds(pos0, a0, s, i, k + 1);
                    assert(branch_wf(b0, i));
                    assert(k * SCALE <= 1_000_000_000_000 && (k + 1) * SCALE <= 1_000_000_000_000)
                        by (nonlinear_arith)
                        requires
                            k < 1_000_000_000,
                    ;
                }
                assert(self.branches@ =~= after);
            }
            k += 1;
        }
        proof {
            assert(self.attractors@ =~= marked_attractors(pos0, a0, s));
        }
    }

    /// The second part of a growth step: every pulled branch sprouts a
    /// child along its normalized direction and rests again.
    fn sprout_pulled(&mut self)
        requires
            old(self).settings.valid(),
            old(self).bounds_wf(),
            forall|i: int|
                0 <= i < old(self).branches@.len() ==> pulled_wf(old(self).branches@, i),
            has_room(old(self).branches@),
        ensures
            final(self).branches@ == sprouted(old(self).branches@, old(self).settings.branch_len),
            forall|i: int|
                0 <= i < final(self).branches@.len() ==> branch_wf(final(self).branches@, i),
            tallied(old(self).branches@) ==> tallied(final(self).branches@),
            final(self).bounds_wf(),
            (final(self).min_bounds, final(self).max_bounds) == bounds_over(
                old(self).min_bounds,
                old(self).max_bounds,
                positions_of(final(self).branches@).subrange(
                    old(self).branches@.len() as int,
                    final(self).branches@.len() as int,
                ),
            ),
            old(self).bounds_hold_branches() ==> final(self).bounds_hold_branches(),
            final(self).attractors@ == old(self).attractors@,
            final(self).settings == old(self).settings,
            final(self).generator_settings == old(self).generator_settings,
    {
        let ghost mid = self.branches@;
        let ghost min0 = self.min_bounds;
        let ghost max0 = self.max_bounds;
        let ghost held = self.bounds_hold_branches();
        let ghost kept = tallied(self.branches@);
        let branch_len: i64 = self.settings.branch_len;
        let n: usize = self.branches.len();
        let mut i: usize = 0;
        proof {
            assert(positions_of(self.branches@).subrange(n as int, n as int)
                =~= Seq::<Vector3>::empty());
        }
        while i < n
            invariant
                i <= n,
                n == mid.len(),
                branch_len == self.settings.branch_len,
                self.settings == old(self).settings,
                self.generator_settings == old(self).generator_settings,
                self.attractors@ == old(self).attractors@,
                self.bounds_wf(),
                forall|j: int| 0 <= j < mid.len() ==> pulled_wf(mid, j),
                has_room(mid),
                self.branches@.len() == n + sprouts(mid, branch_len, i as int).len(),
                self.branches@.subrange(n as int, self.branches@.len() as int) == sprouts(
                    mid,
                    branch_len,
                    i as int,
                ),
                forall|j: int| 0 <= j < i ==> #[trigger] self.branches@[j] == settled(mid[j]),
                forall|j: int| i <= j < n ==> #[trigger] self.branches@[j] == mid[j],
                forall|j: int|
                    0 <= j < i || n <= j < self.branches@.len() ==> branch_wf(self.branches@, j),
                kept ==> tallied(self.branches@),
                (self.min_bounds, self.max_bounds) == bounds_over(
                    min0,
                    max0,
                    positions_of(self.branches@).subrange(n as int, self.branches@.len() as int),
                ),
                held ==> self.bounds_hold_branches(),
            decreases n - i,
        {
            let ghost before = self.branches@;
            let ghost min1 = self.min_bounds;
            let ghost max1 = self.max_bounds;
            let ghost b = mid[i as int];
            assert(self.branches@[i as int] == b);
            assert(pulled_wf(mid, i as int));
            let current_len: usize = self.branches.len();
            proof {
                assert(before.len() == current_len <= usize::MAX);
                assert forall|j: int| 0 <= j < before.len() implies #[trigger] behind_parent(
                    before,
                    j,
                ) by {
                    if j < i || n <= j {
                        assert(branch_wf(before, j));
                    } else {
                        assert(pulled_wf(mid, j));
                    }
                }
                assert(mid[i as int].child_count < usize::MAX);
            }
            if self.branches[i].attractors_count > 0 {
                let normalized = self.branches[i].dir.normalize();
                self.branches[i].dir = normalized;
                let new_branch = self.branches[i].next(i, branch_len, true);
                let children: usize = self.branches[i].child_count;
                self.branches[i].child_count = children + 1;
                Self::update_bound(&mut self.min_bounds, &mut self.max_bounds, new_branch.pos);
                self.branches[i].reset();
                self.branches.push(new_branch);
                let grown_len: usize = self.branches.len();
                proof {
                    assert(self.branches@.len() == grown_len <= usize::MAX);
                    assert(new_branch == pulled_child(b, i as int, branch_len));
                    assert(self.branches@[i as int] == settled(b));
                    assert(self.branches@ =~= before.update(i as int, settled(b)).push(new_branch));
                    if kept {
                        lemma_child_counted(before, i as int, settled(b), new_branch);
                        assert forall|j: int| 0 <= j < self.branches@.len() implies (
                        #[trigger] self.branches@[j]).generation <= j by {
                            if j < before.len() {
                                assert(before[j].generation <= j);
                            }
                        }
                    }
                    let kids = sprouts(mid, branch_len, i as int);
                    assert(self.branches@.subrange(n as int, self.branches@.len() as int)
                        =~= kids.push(new_branch));
                    let added = positions_of(before).subrange(n as int, before.len() as int);
                    assert(positions_of(self.branches@).subrange(
                        n as int,
                        self.branches@.len() as int,
                    ) =~= added.push(new_branch.pos));
                    lemma_bounds_over_push(min0, max0, added, new_branch.pos);
                    assert forall|j: int|
                        0 <= j < i + 1 || n <= j < self.branches@.len() implies branch_wf(
                        self.branches@,
                        j,
                    ) by {
                        if j < i || (n <= j && j < before.len()) {
                            assert(branch_wf(before, j));
                        }
                    }
                    if held {
                        assert forall|j: int| 0 <= j < self.branches@.len() implies box_holds(
                            self.min_bounds,
                            self.max_bounds,
                            (#[trigger] self.branches@[j]).pos,
                        ) by {
                            if j < before.len() {
                                assert(box_holds(min1, max1, before[j].pos));
                            }
                        }
                    }
                }
            } else {
                proof {
                    assert(self.branches@[i as int] == settled(b));
                    assert(branch_wf(self.branches@, i as int));
                }
            }
            i += 1;
        }
        proof {
            assert(self.branches@ =~= sprouted(mid, branch_len));
        }
    }
}

/// Decides what the branches do to an attractor at `p`: the scan stops at
/// the first branch closer than the kill distance.
pub fn find_attraction(branches: &Vec<Branch>, p: Vector3, settings: &AlgorithmSettings) -> (r:
    Attraction)
    requires
        p.in_world(),
        forall|i: int| 0 <= i < branches@.len() ==> (#[trigger] branches@[i]).pos.in_world(),
    ensures
        r == attraction(positions_of(branches@), p, *settings),
        r matches Attraction::Pulls(i) ==> i < branches@.len(),
{
    let ghost positions = positions_of(branches@);
    let mut closest: Option<usize> = None;
    let mut closest_sq: i64 = 0;
    let mut i: usize = 0;
    while i < branches.len()
        invariant
            i <= branches@.len(),
            positions == positions_of(branches@),
            p.in_world(),
            forall|j: int| 0 <= j < branches@.len() ==> (#[trigger] branches@[j]).pos.in_world(),
            forall|j: int| 0 <= j < i ==> !#[trigger] kills(positions, p, *settings, j),
            closest is None ==> forall|j: int|
                0 <= j < i ==> !#[trigger] in_pull(positions, p, *settings, j),
            closest matches Some(c) ==> {
                &&& c < i
                &&& closest_sq == pull_sq(positions, p, c as int)
                &&& in_pull(positions, p, *settings, c as int)
                &&& forall|j: int|
                    0 <= j < i && #[trigger] in_pull(positions, p, *settings, j) ==> closest_sq
                        <= pull_sq(positions, p, j) && (j < c ==> closest_sq < pull_sq(
                        positions,
                        p,
                        j,
                    ))
            },
        decreases branches.len() - i,
    {
        let squared: i64 = p.distance_squared(branches[i].pos);
        assert(squared == pull_sq(positions, p, i as int));
        if is_root_below(squared, settings.kill_distance) {
            assert(kills(positions, p, *settings, i as int));
            return Attraction::Reached;
        }
        if is_root_within(squared, settings.leaf_attraction_dist) {
            match closest {
                None => {
                    closest = Some(i);
                    closest_sq = squared;
                },
                Some(_) => {
                    if squared < closest_sq {
                        closest = Some(i);
                        closest_sq = squared;
                    }
                },
            }
        }
        i += 1;
    }
    match closest {
        Some(c) => {
            proof {
                assert(is_nearest(positions, p, *settings, c as int));
                let chosen = choose|i: int| is_nearest(positions, p, *settings, i);
                lemma_nearest_unique(positions, p, *settings, c as int, chosen);
            }
            Attraction::Pulls(c)
        },
        None => {
            assert forall|i: int| !is_nearest(positions, p, *settings, i) by {
                if 0 <= i < positions.len() {
                    assert(!in_pull(positions, p, *settings, i));
                }
            }
            Attraction::OutOfReach
        },
    }
}

/// Removes the reached attractors; the others keep their order.
pub fn purge_reached(attractors: &mut Vec<Attractor>)
    ensures
        final(attractors)@ == live_attractors(old(attractors)@),
{
    let mut kept: Vec<Attractor> = Vec::new();
    let mut k: usize = 0;
    proof {
        reveal(Seq::filter);
        assert(attractors@.take(0) =~= Seq::<Attractor>::empty());
    }
    while k < attractors.len()
        invariant
            k <= attractors@.len(),
            kept@ == live_attractors(attractors@.take(k as int)),
        decreases attractors.len() - k,
    {
        let a = attractors[k];
        proof {
            reveal(Seq::filter);
            assert(attractors@.take(k + 1).drop_last() =~= attractors@.take(k as int));
        }
        if !a.reached {
            kept.push(a);
        }
        k += 1;
    }
    proof {
        assert(attractors@.take(k as int) =~= attractors@);
    }
    *attractors = kept;
}

/// Of sound attractors, those that a growth step leaves are not reached
/// and have no branch closer than the kill distance, and each one that it
/// removes had a branch closer than the kill distance.
pub proof fn lemma_growth_consumes_the_reached(
    positions: Seq<Vector3>,
    attractors: Seq<Attractor>,
    settings: AlgorithmSettings,
)
    requires
        attractors_wf(attractors),
    ensures
        forall|k: int|
            0 <= k < survivors(positions, attractors, settings).len() ==> {
                let a = #[trigger] survivors(positions, attractors, settings)[k];
                !a.reached && !is_reached(positions, a.pos, settings)
            },
        forall|j: int|
            0 <= j < attractors.len() && !survivors(positions, attractors, settings).contains(
                #[trigger] attractors[j],
            ) ==> exists|i: int|
                0 <= i < positions.len() && #[trigger] kills(
                    positions,
                    attractors[j].pos,
                    settings,
                    i,
                ),
{
    let pred = |a: Attractor| !is_reached(positions, a.pos, settings);
    let kept = survivors(positions, attractors, settings);
    lemma_survivors_wf(positions, attractors, settings);
    assert forall|k: int| 0 <= k < kept.len() implies !is_reached(
        positions,
        (#[trigger] kept[k]).pos,
        settings,
    ) by {
        attractors.lemma_filter_pred(pred, k);
    }
    assert forall|j: int|
        0 <= j < attractors.len() && !kept.contains(#[trigger] attractors[j]) implies is_reached(
        positions,
        attractors[j].pos,
        settings,
    ) by {
        if !is_reached(positions, attractors[j].pos, settings) {
            attractors.lemma_filter_contains(pred, j);
        }
    }
}

/// At most one position is the nearest.
pub proof fn lemma_nearest_unique(
    positions: Seq<Vector3>,
    p: Vector3,
    settings: AlgorithmSettings,
    a: int,
    b: int,
)
    requires
        is_nearest(positions, p, settings, a),
        is_nearest(positions, p, settings, b),
    ensures
        a == b,
{
}

/// The pulls on a branch are bounded by the number of attractors that
/// have pulled.
pub proof fn lemma_pulled_bounds(
    positions: Seq<Vector3>,
    attractors: Seq<Attractor>,
    settings: AlgorithmSettings,
    i: int,
    upto: int,
)
    requires
        0 <= upto,
    ensures
        pulled_count(positions, attractors, settings, i, upto) <= upto,
        pulled_sum(positions, attractors, settings, i, upto).bounded(upto * SCALE),
    decreases upto,
{
    if upto > 0 {
        lemma_pulled_bounds(positions, attractors, settings, i, upto - 1);
        lemma_normalized_bounded(attractors[upto - 1].pos@.minus(positions[i]@));
    }
}

/// A branch that no attractor pulls keeps its direction.
pub proof fn lemma_unpulled_rests(
    positions: Seq<Vector3>,
    attractors: Seq<Attractor>,
    settings: AlgorithmSettings,
    i: int,
    upto: int,
)
    requires
        0 <= upto,
        pulled_count(positions, attractors, settings, i, upto) == 0,
    ensures
        pulled_sum(positions, attractors, settings, i, upto) == SpaceVector::zero(),
    decreases upto,
{
    if upto > 0 {
        lemma_unpulled_rests(positions, attractors, settings, i, upto - 1);
    }
}

/// Purging the marked attractors leaves those that no branch has reached.
pub proof fn lemma_live_marked(
    positions: Seq<Vector3>,
    attractors: Seq<Attractor>,
    settings: AlgorithmSettings,
    upto: int,
)
    requires
        0 <= upto <= attractors.len(),
        forall|k: int| 0 <= k < attractors.len() ==> !(#[trigger] attractors[k]).reached,
    ensures
        live_attractors(marked_attractors(positions, attractors, settings).take(upto))
            == survivors(positions, attractors.take(upto), settings),
    decreases upto,
{
    reveal(Seq::filter);
    let marked = marked_attractors(positions, attractors, settings);
    if upto > 0 {
        lemma_live_marked(positions, attractors, settings, upto - 1);
        assert(marked.take(upto).drop_last() =~= marked.take(upto - 1));
        assert(attractors.take(upto).drop_last() =~= attractors.take(upto - 1));
        assert(marked.take(upto).last() == marked[upto - 1]);
        assert(attractors.take(upto).last() == attractors[upto - 1]);
    } else {
        assert(marked.take(0) =~= Seq::<Attractor>::empty());
        assert(attractors.take(0) =~= Seq::<Attractor>::empty());
    }
}

/// The attractors that survive a growth step are sound if all were.
pub proof fn lemma_survivors_wf(
    positions: Seq<Vector3>,
    attractors: Seq<Attractor>,
    settings: AlgorithmSettings,
)
    requires
        attractors_wf(attractors),
    ensures
        attractors_wf(survivors(positions, attractors, settings)),
{
    let pred = |a: Attractor| !is_reached(positions, a.pos, settings);
    let kept = attractors.filter(pred);
    attractors.lemma_filter_len(pred);
    assert forall|k: int| 0 <= k < kept.len() implies (#[trigger] kept[k]).pos.in_world()
        && !kept[k].reached by {
        assert(kept.contains(kept[k]));
        attractors.lemma_filter_contains_rev(pred, kept[k]);
        let j = choose|j: int| 0 <= j < attractors.len() && attractors[j] == kept[k];
        assert(attractors[j].pos.in_world());
    }
}

} // verus!
