//! The trunk: the first segments of a shrub, grown straight along the
//! direction it was planted with.

use crate::algorithm_settings::AlgorithmSettings;
use crate::attractor::Attractor;
use crate::branch::Branch;
use crate::shrubbery::{
    attractors_wf, bounds_over, box_holds, branch_wf, grown_from, has_room,
    lemma_bounds_over_push, lemma_tallied_has_room, tallied,
    lemma_child_counted, lemma_sound_parents_precede, positions_of,
    Shrubbery,
};
use crate::vec::Vector3;
use vstd::prelude::*;

verus! {

/// How many steps the first trunk segment is extended at most while it
/// looks for an attractor.
pub const TRUNK_PROBES: usize = 1000;

/// Some attractor is closer to `p` than `reach`.
pub open spec fn is_attracted(attractors: Seq<Attractor>, p: Vector3, reach: int) -> bool {
    exists|k: int| 0 <= k < attractors.len() && #[trigger] p.closer_than(attractors[k].pos, reach)
}

/// Where a trunk of the given height ends: the root advanced by the
/// whole height along its direction, rounded once.
pub open spec fn tip_at(root: Branch, height: int) -> Vector3 {
    root.pos.advanced_spec(root.dir, height as i64)
}

/// Where the first trunk segment ends after `steps` steps of one branch
/// length each.
pub open spec fn trunk_tip(root: Branch, branch_len: i64, steps: int) -> Vector3 {
    tip_at(root, steps * branch_len)
}

/// The number of steps at which the first trunk segment stops, when it
/// has not stopped before step `from`: the first step whose tip is within
/// the attraction distance of an attractor, and `TRUNK_PROBES` if there is
/// none before.
pub open spec fn trunk_steps(
    root: Branch,
    attractors: Seq<Attractor>,
    settings: AlgorithmSettings,
    from: int,
) -> int
    decreases TRUNK_PROBES - from,
{
    if from >= TRUNK_PROBES {
        TRUNK_PROBES as int
    } else if is_attracted(
        attractors,
        trunk_tip(root, settings.branch_len, from),
        settings.leaf_attraction_dist as int,
    ) {
        from
    } else {
        trunk_steps(root, attractors, settings, from + 1)
    }
}

/// The search of the first trunk segment ends at an attractor: the tip at
/// which it stops is within the attraction distance of one. Else it ends
/// at the cap of `TRUNK_PROBES` steps.
pub open spec fn trunk_found(
    root: Branch,
    attractors: Seq<Attractor>,
    settings: AlgorithmSettings,
) -> bool {
    is_attracted(
        attractors,
        trunk_tip(root, settings.branch_len, trunk_steps(root, attractors, settings, 1)),
        settings.leaf_attraction_dist as int,
    )
}

/// How many further segments a trunk of height `consumed` needs to reach
/// the minimal trunk height.
pub open spec fn trunk_extra(consumed: int, settings: AlgorithmSettings) -> nat
    decreases
        (if consumed < settings.min_trunk_height {
            settings.min_trunk_height - consumed
        } else {
            0
        }),
{
    if consumed >= settings.min_trunk_height || settings.branch_len <= 0 {
        0
    } else {
        1 + trunk_extra(consumed + settings.branch_len, settings)
    }
}

/// The branch with one child more.
pub open spec fn with_child(b: Branch) -> Branch {
    Branch { child_count: (b.child_count + 1) as usize, ..b }
}

/// The branch that ends at `tip` the segment grown out of `parent`, which
/// stands at `index`, without a change of generation.
pub open spec fn segment_to(parent: Branch, index: int, tip: Vector3) -> Branch {
    Branch { pos: tip, ..parent.sprout(index as usize, 0, false) }
}

/// The skeleton after the branch at `parent` has grown a segment that
/// ends at `tip`: the new branch stands last.
pub open spec fn with_segment(branches: Seq<Branch>, parent: int, tip: Vector3) -> Seq<Branch> {
    branches.update(parent, with_child(branches[parent])).push(
        segment_to(branches[parent], parent, tip),
    )
}

/// The skeleton after `extra` segments have been chained to its last
/// branch, the first of them from the height `consumed` on: each ends
/// where the trunk of `root` is one branch length higher than before.
pub open spec fn extended(
    branches: Seq<Branch>,
    root: Branch,
    consumed: int,
    branch_len: i64,
    extra: nat,
) -> Seq<Branch>
    decreases extra,
{
    if extra == 0 {
        branches
    } else {
        let before = extended(branches, root, consumed, branch_len, (extra - 1) as nat);
        with_segment(before, before.len() - 1, tip_at(root, consumed + extra * branch_len))
    }
}

/// The skeleton with its trunk: the root grows one segment as long as its
/// search for an attractor lasted, and segments follow, each raising the
/// trunk by one branch length, until the minimal trunk height is
/// reached. Every tip is the root advanced by the whole height of the
/// trunk so far.
pub open spec fn with_trunk(
    branches: Seq<Branch>,
    attractors: Seq<Attractor>,
    settings: AlgorithmSettings,
) -> Seq<Branch> {
    let consumed = trunk_steps(branches[0], attractors, settings, 1) * settings.branch_len;
    extended(
        with_segment(branches, 0, tip_at(branches[0], consumed)),
        branches[0],
        consumed,
        settings.branch_len,
        trunk_extra(consumed, settings),
    )
}

impl Shrubbery {
    /// Grows the trunk: the root grows one segment, as long as the search
    /// of its tip for an attractor within the attraction distance lasts,
    /// and segments of one branch length follow until the trunk is as
    /// high as the settings ask. The answer tells whether the search found
    /// an attractor; if not, it ended at the cap of `TRUNK_PROBES` steps.
    pub fn build_trunk(&mut self) -> (found: bool)
        requires
            old(self).wf(),
            has_room(old(self).branches@),
        ensures
            found == trunk_found(
                old(self).branches@[0],
                old(self).attractors@,
                old(self).settings,
            ),
            final(self).wf(),
            final(self).branches@ == with_trunk(
                old(self).branches@,
                old(self).attractors@,
                old(self).settings,
            ),
            final(self).branches@.len() > old(self).branches@.len(),
            grown_from(old(self).branches@, final(self).branches@),
            final(self).attractors@ == old(self).attractors@,
            final(self).settings == old(self).settings,
            final(self).generator_settings == old(self).generator_settings,
            (final(self).min_bounds, final(self).max_bounds) == bounds_over(
                old(self).min_bounds,
                old(self).max_bounds,
                positions_of(final(self).branches@).subrange(
                    old(self).branches@.len() as int,
                    final(self).branches@.len() as int,
                ),
            ),
            old(self).bounds_hold_branches() ==> final(self).bounds_hold_branches(),
            tallied(old(self).branches@) ==> tallied(final(self).branches@) && has_room(
                final(self).branches@,
            ),
    {
        let ghost kept = tallied(self.branches@);
        let ghost b0 = self.branches@;
        let ghost a0 = self.attractors@;
        let ghost min0 = self.min_bounds;
        let ghost max0 = self.max_bounds;
        let ghost held = self.bounds_hold_branches();
        let settings = self.settings;
        let branch_len: i64 = settings.branch_len;
        assert(branch_wf(self.branches@, 0));
        let root = self.branches[0];
        let mut steps: usize = 1;
        let mut searching = true;
        while searching && steps < TRUNK_PROBES
            invariant
                1 <= steps <= TRUNK_PROBES,
                self.branches@ == b0,
                self.attractors@ == a0,
                self.settings == settings,
                self.generator_settings == old(self).generator_settings,
                self.min_bounds == min0,
                self.max_bounds == max0,
                attractors_wf(a0),
                branch_wf(b0, 0),
                settings.valid(),
                branch_len == settings.branch_len,
                root.pos.in_world(),
                trunk_steps(root, a0, settings, 1) == trunk_steps(root, a0, settings, steps as int),
                !searching ==> steps < TRUNK_PROBES && is_attracted(
                    a0,
                    trunk_tip(root, branch_len, steps as int),
                    settings.leaf_attraction_dist as int,
                ),
            decreases (TRUNK_PROBES - steps) + (if searching { 1int } else { 0int }),
        {
            assert(0 < steps * branch_len <= 1_000_000_000_000) by (nonlinear_arith)
                requires
                    1 <= steps <= 1000,
                    0 < branch_len <= 1_000_000_000,
            ;
            let len: i64 = steps as i64 * branch_len;
            let tip = root.pos.advanced(root.dir, len);
            if any_attractor_within(&self.attractors, tip, settings.leaf_attraction_dist) {
                searching = false;
            } else {
                steps += 1;
            }
        }
        assert(trunk_steps(root, a0, settings, 1) == steps);
        assert(0 < steps * branch_len <= 1_000_000_000_000) by (nonlinear_arith)
            requires
                1 <= steps <= 1000,
                0 < branch_len <= 1_000_000_000,
        ;
        let consumed: i64 = steps as i64 * branch_len;
        let found = if searching {
            let tip = root.pos.advanced(root.dir, consumed);
            any_attractor_within(&self.attractors, tip, settings.leaf_attraction_dist)
        } else {
            true
        };
        let children: usize = self.branches[0].child_count;
        self.branches[0].child_count = children + 1;
        let new_branch = self.branches[0].next(0, consumed, false);
        Self::update_bound(&mut self.min_bounds, &mut self.max_bounds, new_branch.pos);
        self.branches.push(new_branch);
        let grown_len: usize = self.branches.len();
        let ghost b1 = with_segment(b0, 0, new_branch.pos);
        proof {
            assert(self.branches@.len() == grown_len <= usize::MAX);
            assert(self.branches@ =~= b1);
            lemma_with_segment_wf(b0, 0, new_branch.pos);
            assert(positions_of(self.branches@).subrange(b0.len() as int, b1.len() as int)
                =~= Seq::<Vector3>::empty().push(new_branch.pos));
            lemma_bounds_over_push(min0, max0, Seq::<Vector3>::empty(), new_branch.pos);
            if held {
                assert forall|i: int| 0 <= i < self.branches@.len() implies box_holds(
                    self.min_bounds,
                    self.max_bounds,
                    (#[trigger] self.branches@[i]).pos,
                ) by {
                    if i < b0.len() {
                        assert(box_holds(min0, max0, b0[i].pos));
                    }
                }
            }
        }
        let mut consumed_height: i64 = consumed;
        let ghost mut done: nat = 0;
        while consumed_height < settings.min_trunk_height
            invariant
                self.wf(),
                self.settings == settings,
                self.attractors@ == a0,
                self.generator_settings == old(self).generator_settings,
                branch_len == settings.branch_len,
                0 < branch_len <= 1_000_000_000,
                root == b0[0],
                consumed_height == consumed + done * branch_len,
                self.branches@ == extended(b1, root, consumed as int, branch_len, done),
                self.branches@.len() > b0.len(),
                grown_from(b0, self.branches@),
                kept ==> tallied(self.branches@),
                self.branches@[self.branches@.len() - 1].child_count == 0,
                trunk_extra(consumed as int, settings) == done + trunk_extra(
                    consumed_height as int,
                    settings,
                ),
                0 < consumed_height <= 1_000_000_000_000 + 2_000_000_000,
                (self.min_bounds, self.max_bounds) == bounds_over(
                    min0,
                    max0,
                    positions_of(self.branches@).subrange(
                        b0.len() as int,
                        self.branches@.len() as int,
                    ),
                ),
                held ==> self.bounds_hold_branches(),
            decreases
                (if consumed_height < settings.min_trunk_height {
                    settings.min_trunk_height - consumed_height
                } else {
                    0
                }),
        {
            let ghost before = self.branches@;
            let ghost min1 = self.min_bounds;
            let ghost max1 = self.max_bounds;
            assert(consumed + (done + 1) * branch_len == consumed_height + branch_len)
                by (nonlinear_arith)
                requires
                    consumed_height == consumed + done * branch_len,
            ;
            consumed_height = consumed_height + branch_len;
            let last_index: usize = self.branches.len() - 1;
            assert(branch_wf(self.branches@, last_index as int));
            let mut new_branch = self.branches[last_index].next(last_index, branch_len, false);
            new_branch.pos = root.pos.advanced(root.dir, consumed_height);
            let children: usize = self.branches[last_index].child_count;
            self.branches[last_index].child_count = children + 1;
            Self::update_bound(&mut self.min_bounds, &mut self.max_bounds, new_branch.pos);
            self.branches.push(new_branch);
            let grown_len: usize = self.branches.len();
            proof {
                assert(self.branches@.len() == grown_len <= usize::MAX);
                done = done + 1;
                assert(self.branches@ =~= with_segment(before, last_index as int, new_branch.pos));
                lemma_with_segment_wf(before, last_index as int, new_branch.pos);
                let added = positions_of(before).subrange(b0.len() as int, before.len() as int);
                assert(positions_of(self.branches@).subrange(
                    b0.len() as int,
                    self.branches@.len() as int,
                ) =~= added.push(new_branch.pos));
                lemma_bounds_over_push(min0, max0, added, new_branch.pos);
                if held {
                    assert forall|i: int| 0 <= i < self.branches@.len() implies box_holds(
                        self.min_bounds,
                        self.max_bounds,
                        (#[trigger] self.branches@[i]).pos,
                    ) by {
                        if i < before.len() {
                            assert(box_holds(min1, max1, before[i].pos));
                        }
                    }
                }
            }
        }
        let final_len: usize = self.branches.len();
        proof {
            assert(self.branches@.len() == final_len <= usize::MAX);
            if kept {
                lemma_tallied_has_room(self.branches@);
            }
        }
        found
    }
}

/// Whether some attractor is closer to `p` than `reach`.
pub fn any_attractor_within(attractors: &Vec<Attractor>, p: Vector3, reach: i64) -> (r: bool)
    requires
        p.in_reach(),
        forall|k: int| 0 <= k < attractors@.len() ==> (#[trigger] attractors@[k]).pos.in_world(),
    ensures
        r == is_attracted(attractors@, p, reach as int),
{
    let mut k: usize = 0;
    while k < attractors.len()
        invariant
            k <= attractors@.len(),
            p.in_reach(),
            forall|j: int|
                0 <= j < attractors@.len() ==> (#[trigger] attractors@[j]).pos.in_world(),
            forall|j: int|
                0 <= j < k ==> !#[trigger] p.closer_than(attractors@[j].pos, reach as int),
        decreases attractors.len() - k,
    {
        if p.is_closer_than(attractors[k].pos, reach) {
            return true;
        }
        k += 1;
    }
    false
}

/// A sound skeleton stays sound when one of its branches grows a
/// segment, and keeps its books if it kept them.
pub proof fn lemma_with_segment_wf(branches: Seq<Branch>, parent: int, tip: Vector3)
    requires
        0 <= parent < branches.len(),
        branches.len() < usize::MAX,
        branches[parent].child_count < usize::MAX,
        tip.in_world(),
        forall|i: int| 0 <= i < branches.len() ==> branch_wf(branches, i),
    ensures
        forall|i: int|
            0 <= i < with_segment(branches, parent, tip).len() ==> branch_wf(
                with_segment(branches, parent, tip),
                i,
            ),
        tallied(branches) ==> tallied(with_segment(branches, parent, tip)),
{
    let grown = with_segment(branches, parent, tip);
    assert forall|i: int| 0 <= i < grown.len() implies branch_wf(grown, i) by {
        assert(branch_wf(branches, parent));
        if i < branches.len() {
            assert(branch_wf(branches, i));
        }
    }
    if tallied(branches) {
        lemma_sound_parents_precede(branches);
        lemma_child_counted(
            branches,
            parent,
            with_child(branches[parent]),
            segment_to(branches[parent], parent, tip),
        );
        assert forall|i: int| 0 <= i < grown.len() implies (#[trigger] grown[i]).generation
            <= i by {
            if i < branches.len() {
                assert(branches[i].generation <= i);
            } else {
                assert(branches[parent].generation <= parent);
            }
        }
    }
}

} // verus!
