//! The shrub: a skeleton of branches and the attractors that it grows
//! toward.

use crate::algorithm_settings::AlgorithmSettings;
use crate::attractor::Attractor;
use crate::attractor_generator_settings::AttractorGeneratorSettings;
use crate::branch::Branch;
use crate::error::ConfigurationError;
use crate::math_utils::{
    ceil_cells, cells_up, fraction_less, is_fraction_less, lemma_fraction_less_transitive,
    root_of_fraction, segment_distance, segment_squared, squared_dist_to_line,
};
use crate::shape::Shape;
use crate::vec::{IVector3, Vector3, COORD_LIMIT, SCALE};
use vstd::prelude::*;

verus! {

/// The largest coordinate magnitude of the direction a shrub is planted
/// with.
pub const DIR_LIMIT: i64 = 1_000_000;

/// The largest number of attractors a shrub may hold.
pub const ATTRACTOR_LIMIT: usize = 1_000_000_000;

/// A shrub that can be grown and reshaped.
pub struct Shrubbery {
    /// The skeleton: every branch stands behind its parent.
    pub branches: Vec<Branch>,
    /// The attractors that no branch has reached yet.
    pub attractors: Vec<Attractor>,
    /// The lengths that steer the growth.
    pub settings: AlgorithmSettings,
    /// The settings that shapes fill this shrub with attractors by.
    pub generator_settings: AttractorGeneratorSettings,
    /// The lowest corner of the box around the origin and the branches.
    pub min_bounds: Vector3,
    /// The highest corner of the box around the origin and the branches.
    pub max_bounds: Vector3,
}

/// The branch at `i` stands behind its parent, if it has one.
pub open spec fn behind_parent(branches: Seq<Branch>, i: int) -> bool {
    branches[i].parent_index matches Some(p) ==> p < i
}

/// Each of the first `upto` branches stands behind its parent.
pub open spec fn parents_precede(branches: Seq<Branch>, upto: int) -> bool {
    forall|j: int| 0 <= j < upto ==> #[trigger] behind_parent(branches, j)
}

/// The branch at `i` is sound: it lies in the world, rests between growth
/// steps and stands behind its parent.
pub open spec fn branch_wf(branches: Seq<Branch>, i: int) -> bool {
    let b = branches[i];
    &&& b.pos.in_world()
    &&& b.dir == b.original_dir
    &&& b.dir@.bounded(DIR_LIMIT as int)
    &&& b.attractors_count == 0
    &&& behind_parent(branches, i)
}

/// The skeleton can be read: it has a root, every branch lies in the world
/// and every branch stands behind its parent.
pub open spec fn readable(branches: Seq<Branch>) -> bool {
    &&& branches.len() > 0
    &&& forall|i: int|
        0 <= i < branches.len() ==> (#[trigger] branches[i]).pos.in_world() && behind_parent(
            branches,
            i,
        )
}

/// Every branch can count one child more and stand one generation on.
pub open spec fn has_room(branches: Seq<Branch>) -> bool {
    forall|i: int|
        0 <= i < branches.len() ==> (#[trigger] branches[i]).child_count < usize::MAX
            && branches[i].generation < usize::MAX
}

/// No branch is of a generation beyond its index.
pub open spec fn generations_ordered(branches: Seq<Branch>) -> bool {
    forall|i: int| 0 <= i < branches.len() ==> (#[trigger] branches[i]).generation <= i
}

/// The skeleton keeps its books: every branch counts its children, and no
/// branch is of a generation beyond its index. A skeleton that was planted
/// and has only grown since keeps them.
pub open spec fn tallied(branches: Seq<Branch>) -> bool {
    &&& children_counted(branches)
    &&& generations_ordered(branches)
}

/// How many of the first `upto` branches have the branch at `i` as their
/// parent.
pub open spec fn children_among(branches: Seq<Branch>, i: int, upto: int) -> nat
    decreases upto,
{
    if upto <= 0 {
        0
    } else {
        children_among(branches, i, upto - 1) + if branches[upto - 1].parent_index == Some(
            i as usize,
        ) {
            1nat
        } else {
            0nat
        }
    }
}

/// Every branch counts its children: its child count is the number of
/// branches that have it as their parent.
pub open spec fn children_counted(branches: Seq<Branch>) -> bool {
    forall|i: int|
        0 <= i < branches.len() ==> (#[trigger] branches[i]).child_count == children_among(
            branches,
            i,
            branches.len() as int,
        )
}

/// Every attractor lies in the world and is not reached, and there are at
/// most `ATTRACTOR_LIMIT` of them.
pub open spec fn attractors_wf(attractors: Seq<Attractor>) -> bool {
    &&& attractors.len() <= ATTRACTOR_LIMIT
    &&& forall|k: int|
        0 <= k < attractors.len() ==> (#[trigger] attractors[k]).pos.in_world()
            && !attractors[k].reached
}

/// The skeleton `after` arises from the skeleton `before` by appending:
/// every branch of `before` stands where it stood and is what it was,
/// but that it may have more children.
pub open spec fn grown_from(before: Seq<Branch>, after: Seq<Branch>) -> bool {
    &&& before.len() <= after.len()
    &&& forall|i: int|
        0 <= i < before.len() ==> (#[trigger] after[i]) == (Branch {
            child_count: after[i].child_count,
            ..before[i]
        }) && before[i].child_count <= after[i].child_count
}

/// The positions of the branches, in their order.
pub open spec fn positions_of(branches: Seq<Branch>) -> Seq<Vector3> {
    branches.map_values(|b: Branch| b.pos)
}

/// The lower of two corners, coordinate by coordinate.
pub open spec fn lower_corner(a: Vector3, b: Vector3) -> Vector3 {
    Vector3 {
        x: if b.x < a.x { b.x } else { a.x },
        y: if b.y < a.y { b.y } else { a.y },
        z: if b.z < a.z { b.z } else { a.z },
    }
}

/// The higher of two corners, coordinate by coordinate.
pub open spec fn upper_corner(a: Vector3, b: Vector3) -> Vector3 {
    Vector3 {
        x: if b.x > a.x { b.x } else { a.x },
        y: if b.y > a.y { b.y } else { a.y },
        z: if b.z > a.z { b.z } else { a.z },
    }
}

/// The box from `min` to `max` holds the position `p`.
pub open spec fn box_holds(min: Vector3, max: Vector3, p: Vector3) -> bool {
    &&& min.x <= p.x <= max.x
    &&& min.y <= p.y <= max.y
    &&& min.z <= p.z <= max.z
}

/// The box from `min` to `max`, widened until it holds every position of
/// `added`.
pub open spec fn bounds_over(min: Vector3, max: Vector3, added: Seq<Vector3>) -> (Vector3, Vector3)
    decreases added.len(),
{
    if added.len() == 0 {
        (min, max)
    } else {
        let before = bounds_over(min, max, added.drop_last());
        (lower_corner(before.0, added.last()), upper_corner(before.1, added.last()))
    }
}

/// The square of the distance from `p` to the segment that leads to the
/// branch at `i` from its parent, as a fraction.
pub open spec fn segment_sq(branches: Seq<Branch>, p: Vector3, i: int) -> (int, int) {
    segment_squared(p@, branches[branches[i].parent_index->0 as int].pos@, branches[i].pos@)
}

/// The distance, rounded down to whole units, from `p` to the segment
/// that leads to the branch at `i` from its parent.
pub open spec fn segment_dist(branches: Seq<Branch>, p: Vector3, i: int) -> int {
    segment_distance(p@, branches[branches[i].parent_index->0 as int].pos@, branches[i].pos@)
}

/// The branch at `i` has a parent, no segment is nearer to `p` than the
/// one that leads to it, and none before it is as near. The distances
/// are compared as they are, not rounded.
pub open spec fn is_nearest_segment(branches: Seq<Branch>, p: Vector3, i: int) -> bool {
    &&& 0 <= i < branches.len()
    &&& branches[i].parent_index is Some
    &&& forall|j: int|
        0 <= j < branches.len() && (#[trigger] branches[j]).parent_index is Some ==> !fraction_less(
            segment_sq(branches, p, j),
            segment_sq(branches, p, i),
        ) && (j < i ==> fraction_less(segment_sq(branches, p, i), segment_sq(branches, p, j)))
}

/// No branch has a parent.
pub open spec fn no_segment(branches: Seq<Branch>) -> bool {
    forall|j: int| 0 <= j < branches.len() ==> (#[trigger] branches[j]).parent_index is None
}

impl Shrubbery {
    /// The shrub is sound: its settings are valid, it has a root, every
    /// branch and attractor is sound, and the bounds lie in the world
    /// around the origin.
    pub open spec fn wf(&self) -> bool {
        &&& self.settings.valid()
        &&& self.generator_settings.valid()
        &&& self.branches@.len() > 0
        &&& forall|i: int| 0 <= i < self.branches@.len() ==> branch_wf(self.branches@, i)
        &&& attractors_wf(self.attractors@)
        &&& self.bounds_wf()
    }

    /// The bounds lie in the world and hold the origin.
    pub open spec fn bounds_wf(&self) -> bool {
        &&& self.min_bounds.in_world()
        &&& self.max_bounds.in_world()
        &&& box_holds(self.min_bounds, self.max_bounds, Vector3 { x: 0, y: 0, z: 0 })
    }

    /// The bounds hold the position of every branch.
    pub open spec fn bounds_hold_branches(&self) -> bool {
        forall|i: int|
            0 <= i < self.branches@.len() ==> box_holds(
                self.min_bounds,
                self.max_bounds,
                (#[trigger] self.branches@[i]).pos,
            )
    }

    /// The first fault of what a shrub is to be planted with, if there is
    /// one.
    pub open spec fn planting_fault(
        root_pos: Vector3,
        initial_dir: Vector3,
        settings: AlgorithmSettings,
        generator_settings: AttractorGeneratorSettings,
    ) -> Option<ConfigurationError> {
        if settings.fault() is Some {
            settings.fault()
        } else if !generator_settings.valid() {
            Some(ConfigurationError::NonPositiveDensity)
        } else if !root_pos.in_world() || !initial_dir@.bounded(DIR_LIMIT as int) {
            Some(ConfigurationError::OutOfWorld)
        } else {
            None
        }
    }

    /// The root that a shrub is planted with.
    pub open spec fn root_branch(root_pos: Vector3, initial_dir: Vector3) -> Branch {
        Branch {
            pos: root_pos,
            parent_index: None,
            dir: initial_dir,
            original_dir: initial_dir,
            attractors_count: 0,
            child_count: 0,
            generation: 0,
        }
    }

    /// Plants a shrub: a lone root at `root_pos` that will grow along
    /// `initial_dir`, no attractors, and the smallest bounds that hold the
    /// origin and the root. A faulty configuration is refused with its
    /// first fault.
    pub fn new(
        root_pos: Vector3,
        initial_dir: Vector3,
        settings: AlgorithmSettings,
        generator_settings: AttractorGeneratorSettings,
    ) -> (r: Result<Self, ConfigurationError>)
        ensures
            match r {
                Ok(s) => {
                    &&& Self::planting_fault(root_pos, initial_dir, settings, generator_settings)
                        is None
                    &&& s.wf()
                    &&& s.branches@ == seq![Self::root_branch(root_pos, initial_dir)]
                    &&& s.attractors@.len() == 0
                    &&& s.settings == settings
                    &&& s.generator_settings == generator_settings
                    &&& s.min_bounds == lower_corner(Vector3 { x: 0, y: 0, z: 0 }, root_pos)
                    &&& s.max_bounds == upper_corner(Vector3 { x: 0, y: 0, z: 0 }, root_pos)
                    &&& s.bounds_hold_branches()
                    &&& tallied(s.branches@)
                    &&& has_room(s.branches@)
                },
                Err(e) => Self::planting_fault(root_pos, initial_dir, settings, generator_settings)
                    == Some(e),
            },
    {
        match settings.validate() {
            Err(e) => {
                return Err(e);
            },
            Ok(_) => {},
        }
        match generator_settings.validate() {
            Err(e) => {
                return Err(e);
            },
            Ok(_) => {},
        }
        if !in_cube(root_pos, COORD_LIMIT) || !in_cube(initial_dir, DIR_LIMIT) {
            return Err(ConfigurationError::OutOfWorld);
        }
        let mut branches: Vec<Branch> = Vec::new();
        let root = Branch {
            pos: root_pos,
            parent_index: None,
            dir: initial_dir,
            original_dir: initial_dir,
            attractors_count: 0,
            child_count: 0,
            generation: 0,
        };
        branches.push(root);
        let mut min_bounds = Vector3::zero();
        let mut max_bounds = Vector3::zero();
        Self::update_bound(&mut min_bounds, &mut max_bounds, root_pos);
        let shrubbery = Shrubbery {
            branches,
            attractors: Vec::new(),
            settings,
            generator_settings,
            min_bounds,
            max_bounds,
        };
        assert(shrubbery.branches@ =~= seq![Self::root_branch(root_pos, initial_dir)]);
        assert(shrubbery.branches@[0].pos == root_pos);
        proof {
            lemma_no_children_before(shrubbery.branches@, 0, 1);
        }
        Ok(shrubbery)
    }

    /// Whether the bounds lie in the world and hold the origin.
    pub fn has_sound_bounds(&self) -> (ok: bool)
        ensures
            ok == self.bounds_wf(),
    {
        in_cube(self.min_bounds, COORD_LIMIT) && in_cube(self.max_bounds, COORD_LIMIT) && in_box(
            self.min_bounds,
            self.max_bounds,
            Vector3::zero(),
        )
    }

    /// Whether the skeleton can be read. A caller that fills the fields by
    /// hand can ask before it measures distances or takes a volume.
    pub fn is_readable(&self) -> (ok: bool)
        ensures
            ok == readable(self.branches@),
    {
        let n: usize = self.branches.len();
        if n == 0 {
            return false;
        }
        let mut i: usize = 0;
        while i < n
            invariant
                i <= n,
                n == self.branches@.len(),
                forall|j: int|
                    0 <= j < i ==> (#[trigger] self.branches@[j]).pos.in_world() && behind_parent(
                        self.branches@,
                        j,
                    ),
            decreases n - i,
        {
            let b = self.branches[i];
            let behind = match b.parent_index {
                Some(p) => p < i,
                None => true,
            };
            if !in_cube(b.pos, COORD_LIMIT) || !behind {
                assert(!behind_parent(self.branches@, i as int)
                    || !self.branches@[i as int].pos.in_world());
                return false;
            }
            i += 1;
        }
        true
    }

    /// Whether the shrub is sound and every branch can count one child
    /// more and stand one generation on: what growing asks for.
    pub fn is_growable(&self) -> (ok: bool)
        ensures
            ok == (self.wf() && has_room(self.branches@)),
    {
        if !self.is_wf() {
            return false;
        }
        let n: usize = self.branches.len();
        let mut i: usize = 0;
        while i < n
            invariant
                i <= n,
                n == self.branches@.len(),
                forall|j: int|
                    0 <= j < i ==> (#[trigger] self.branches@[j]).child_count < usize::MAX
                        && self.branches@[j].generation < usize::MAX,
            decreases n - i,
        {
            if self.branches[i].child_count == usize::MAX || self.branches[i].generation
                == usize::MAX {
                return false;
            }
            i += 1;
        }
        true
    }

    /// Whether the shrub is sound. A caller that fills the fields by hand
    /// can ask before it calls a method that needs a sound shrub.
    pub fn is_wf(&self) -> (ok: bool)
        ensures
            ok == self.wf(),
    {
        if self.settings.validate().is_err() || self.generator_settings.validate().is_err() {
            return false;
        }
        let n: usize = self.branches.len();
        if n == 0 || self.attractors.len() > ATTRACTOR_LIMIT {
            return false;
        }
        if !self.has_sound_bounds() {
            return false;
        }
        let mut i: usize = 0;
        while i < n
            invariant
                i <= n,
                n == self.branches@.len(),
                forall|j: int| 0 <= j < i ==> branch_wf(self.branches@, j),
            decreases n - i,
        {
            let b = self.branches[i];
            let behind_parent = match b.parent_index {
                Some(p) => p < i,
                None => true,
            };
            if !(in_cube(b.pos, COORD_LIMIT) && b.dir == b.original_dir && in_cube(b.dir, DIR_LIMIT)
                && b.attractors_count == 0 && behind_parent) {
                assert(!branch_wf(self.branches@, i as int));
                return false;
            }
            i += 1;
        }
        let mut k: usize = 0;
        while k < self.attractors.len()
            invariant
                k <= self.attractors@.len(),
                forall|j: int|
                    0 <= j < k ==> (#[trigger] self.attractors@[j]).pos.in_world()
                        && !self.attractors@[j].reached,
            decreases self.attractors.len() - k,
        {
            let a = self.attractors[k];
            if !in_cube(a.pos, COORD_LIMIT) || a.reached {
                return false;
            }
            k += 1;
        }
        true
    }

    /// Whether every branch stands behind its parent and the skeleton keeps
    /// its books: every branch counts its children, and no branch is of a
    /// generation beyond its index.
    pub fn is_tallied(&self) -> (ok: bool)
        ensures
            ok == (parents_precede(self.branches@, self.branches@.len() as int) && tallied(
                self.branches@,
            )),
    {
        let n: usize = self.branches.len();
        let mut counts: Vec<usize> = Vec::new();
        let mut i: usize = 0;
        while i < n
            invariant
                i <= n,
                counts@.len() == i,
                forall|j: int| 0 <= j < i ==> #[trigger] counts@[j] == 0,
            decreases n - i,
        {
            counts.push(0);
            i += 1;
        }
        let mut j: usize = 0;
        while j < n
            invariant
                j <= n,
                n == self.branches@.len(),
                counts@.len() == n,
                parents_precede(self.branches@, j as int),
                forall|i: int| 0 <= i < j ==> (#[trigger] self.branches@[i]).generation <= i,
                forall|i: int|
                    0 <= i < n ==> #[trigger] counts@[i] == children_among(
                        self.branches@,
                        i,
                        j as int,
                    ),
                forall|i: int| 0 <= i < n ==> #[trigger] counts@[i] <= j,
            decreases n - j,
        {
            if self.branches[j].generation > j {
                return false;
            }
            match self.branches[j].parent_index {
                Some(p) => {
                    if p >= j {
                        assert(!behind_parent(self.branches@, j as int));
                        return false;
                    }
                    let count: usize = counts[p];
                    counts[p] = count + 1;
                },
                None => {},
            }
            assert(behind_parent(self.branches@, j as int));
            j += 1;
        }
        let mut i: usize = 0;
        while i < n
            invariant
                i <= n,
                n == self.branches@.len(),
                counts@.len() == n,
                forall|k: int|
                    0 <= k < n ==> #[trigger] counts@[k] == children_among(
                        self.branches@,
                        k,
                        n as int,
                    ),
                forall|k: int|
                    0 <= k < i ==> (#[trigger] self.branches@[k]).child_count == children_among(
                        self.branches@,
                        k,
                        n as int,
                    ),
            decreases n - i,
        {
            if self.branches[i].child_count != counts[i] {
                return false;
            }
            i += 1;
        }
        true
    }

    /// The size of the bounds in cells.
    pub open spec fn bounding_size(&self) -> IVector3 {
        IVector3 {
            x: (ceil_cells(self.max_bounds.x as int) - ceil_cells(self.min_bounds.x as int)) as i32,
            y: (ceil_cells(self.max_bounds.y as int) - ceil_cells(self.min_bounds.y as int)) as i32,
            z: (ceil_cells(self.max_bounds.z as int) - ceil_cells(self.min_bounds.z as int)) as i32,
        }
    }

    /// Half the horizontal extent of the bounds, in units: half the size
    /// in cells of the wider of the two horizontal sides.
    pub open spec fn plane_half_size(&self) -> int {
        let widest = if self.bounding_size().x > self.bounding_size().z {
            self.bounding_size().x
        } else {
            self.bounding_size().z
        };
        widest * (SCALE / 2)
    }

    /// Half the horizontal extent of the bounds, in units: half the side
    /// of a square on the ground that holds the shrub.
    pub fn get_plane_half_size(&self) -> (half: i64)
        requires
            self.bounds_wf(),
        ensures
            half == self.plane_half_size(),
            0 <= half <= 250_000_000,
    {
        let size = self.get_bounding_size();
        let widest: i32 = if size.x > size.z {
            size.x
        } else {
            size.z
        };
        widest as i64 * (SCALE / 2)
    }

    /// The size of the bounds in cells.
    pub fn get_bounding_size(&self) -> (size: IVector3)
        requires
            self.bounds_wf(),
        ensures
            size == self.bounding_size(),
            0 <= size.x <= 500_000,
            0 <= size.y <= 500_000,
            0 <= size.z <= 500_000,
    {
        let (min_bounds, max_bounds) = self.get_bounds();
        IVector3 {
            x: max_bounds.x - min_bounds.x,
            y: max_bounds.y - min_bounds.y,
            z: max_bounds.z - min_bounds.z,
        }
    }

    /// The two corners of the bounds in cells, each coordinate rounded up.
    pub fn get_bounds(&self) -> (r: (IVector3, IVector3))
        requires
            self.bounds_wf(),
        ensures
            r.0.x == ceil_cells(self.min_bounds.x as int),
            r.0.y == ceil_cells(self.min_bounds.y as int),
            r.0.z == ceil_cells(self.min_bounds.z as int),
            r.1.x == ceil_cells(self.max_bounds.x as int),
            r.1.y == ceil_cells(self.max_bounds.y as int),
            r.1.z == ceil_cells(self.max_bounds.z as int),
            -250_000 <= r.0.x <= 0 <= r.1.x <= 250_000,
            -250_000 <= r.0.y <= 0 <= r.1.y <= 250_000,
            -250_000 <= r.0.z <= 0 <= r.1.z <= 250_000,
    {
        (
            IVector3 {
                x: cells_up(self.min_bounds.x),
                y: cells_up(self.min_bounds.y),
                z: cells_up(self.min_bounds.z),
            },
            IVector3 {
                x: cells_up(self.max_bounds.x),
                y: cells_up(self.max_bounds.y),
                z: cells_up(self.max_bounds.z),
            },
        )
    }

    /// Widens the box from `min_bounds` to `max_bounds` until it holds
    /// `branch_pos`.
    pub fn update_bound(min_bounds: &mut Vector3, max_bounds: &mut Vector3, branch_pos: Vector3)
        ensures
            *final(min_bounds) == lower_corner(*old(min_bounds), branch_pos),
            *final(max_bounds) == upper_corner(*old(max_bounds), branch_pos),
    {
        if branch_pos.x < min_bounds.x {
            min_bounds.x = branch_pos.x;
        }
        if branch_pos.y < min_bounds.y {
            min_bounds.y = branch_pos.y;
        }
        if branch_pos.z < min_bounds.z {
            min_bounds.z = branch_pos.z;
        }
        if branch_pos.x > max_bounds.x {
            max_bounds.x = branch_pos.x;
        }
        if branch_pos.y > max_bounds.y {
            max_bounds.y = branch_pos.y;
        }
        if branch_pos.z > max_bounds.z {
            max_bounds.z = branch_pos.z;
        }
    }

    /// The distance from `pos` to the nearest segment of the skeleton,
    /// rounded down to whole units, with the index of the branch that the
    /// segment leads to. Which segment is nearest is decided on the
    /// distances as they are; of equally near segments the first counts.
    /// A skeleton without segments gives `i64::MAX` and the index 0.
    pub fn distance_to_branch(&self, pos: Vector3) -> (r: (i64, usize))
        requires
            readable(self.branches@),
            pos.in_reach(),
        ensures
            no_segment(self.branches@) ==> r == (i64::MAX, 0usize),
            !no_segment(self.branches@) ==> is_nearest_segment(self.branches@, pos, r.1 as int)
                && r.0 == segment_dist(self.branches@, pos, r.1 as int),
            r.1 < self.branches@.len(),
            0 <= r.0,
            r.0 < i64::MAX <==> !no_segment(self.branches@),
    {
        let mut found = false;
        let mut closest: (u128, u64) = (0, 1);
        let mut index: usize = 0;
        let mut i: usize = 0;
        while i < self.branches.len()
            invariant
                i <= self.branches@.len(),
                readable(self.branches@),
                pos.in_reach(),
                index < self.branches@.len(),
                0 < closest.1 <= 4_000_000_000_000_000_000,
                closest.0 <= 12_000_000_000_000_000_000_000_000_000_000_000_000,
                !found ==> index == 0 && forall|j: int|
                    0 <= j < i ==> (#[trigger] self.branches@[j]).parent_index is None,
                found ==> {
                    &&& index < i
                    &&& self.branches@[index as int].parent_index is Some
                    &&& (closest.0 as int, closest.1 as int) == segment_sq(
                        self.branches@,
                        pos,
                        index as int,
                    )
                    &&& forall|j: int|
                        0 <= j < i && (#[trigger] self.branches@[j]).parent_index is Some
                            ==> !fraction_less(
                            segment_sq(self.branches@, pos, j),
                            segment_sq(self.branches@, pos, index as int),
                        ) && (j < index ==> fraction_less(
                            segment_sq(self.branches@, pos, index as int),
                            segment_sq(self.branches@, pos, j),
                        ))
                },
            decreases self.branches.len() - i,
        {
            match self.branches[i].parent_index {
                None => {},
                Some(parent_index) => {
                    assert(behind_parent(self.branches@, i as int));
                    let squared = squared_dist_to_line(
                        pos,
                        self.branches[parent_index].pos,
                        self.branches[i].pos,
                    );
                    if !found || is_fraction_less(squared, closest) {
                        proof {
                            if found {
                                let here = segment_sq(self.branches@, pos, i as int);
                                let best = segment_sq(self.branches@, pos, index as int);
                                let all = self.branches@;
                                assert forall|j: int|
                                    0 <= j < i && (
                                    #[trigger] all[j]).parent_index is Some implies fraction_less(
                                    here,
                                    segment_sq(all, pos, j),
                                ) by {
                                    lemma_segment_sq_positive(self.branches@, pos, j);
                                    lemma_fraction_less_transitive(
                                        here,
                                        best,
                                        segment_sq(self.branches@, pos, j),
                                    );
                                }
                            }
                        }
                        found = true;
                        closest = squared;
                        index = i;
                    }
                },
            }
            i += 1;
        }
        if found {
            (root_of_fraction(closest), index)
        } else {
            (i64::MAX, index)
        }
    }

    /// Fills `shape`, placed at `pos`, with attractors for this shrub. A
    /// configuration that the shape refuses leaves the shrub as it is.
    pub fn spawn_attractors_from_shape<TShape: Shape>(
        &mut self,
        pos: Vector3,
        shape: TShape,
        rng: &mut rand::rngs::StdRng,
    ) -> (r: Result<(), ConfigurationError>)
        requires
            old(self).wf(),
        ensures
            final(self).wf(),
            final(self).branches@ == old(self).branches@,
            final(self).settings == old(self).settings,
            final(self).generator_settings == old(self).generator_settings,
            final(self).min_bounds == old(self).min_bounds,
            final(self).max_bounds == old(self).max_bounds,
            final(self).attractors@.len() >= old(self).attractors@.len(),
            final(self).attractors@.subrange(0, old(self).attractors@.len() as int) == old(
                self,
            ).attractors@,
            r is Err ==> final(self).attractors@ == old(self).attractors@,
            shape.fills(
                pos,
                old(self).attractors@,
                final(self).attractors@,
                old(self).settings,
                old(self).generator_settings,
                r,
            ),
    {
        shape.generate(pos, &mut self.attractors, &self.settings, &self.generator_settings, rng)
    }
}

/// Whether no coordinate of `v` exceeds `limit` in magnitude.
pub fn in_cube(v: Vector3, limit: i64) -> (r: bool)
    requires
        limit >= 0,
    ensures
        r == v@.bounded(limit as int),
{
    -limit <= v.x && v.x <= limit && -limit <= v.y && v.y <= limit && -limit <= v.z && v.z
        <= limit
}

/// Whether the box from `min` to `max` holds `p`.
pub fn in_box(min: Vector3, max: Vector3, p: Vector3) -> (r: bool)
    ensures
        r == box_holds(min, max, p),
{
    min.x <= p.x && p.x <= max.x && min.y <= p.y && p.y <= max.y && min.z <= p.z && p.z <= max.z
}

/// A sound shrub can be read.
pub proof fn lemma_wf_readable(shrubbery: Shrubbery)
    requires
        shrubbery.wf(),
    ensures
        readable(shrubbery.branches@),
{
    assert forall|i: int| 0 <= i < shrubbery.branches@.len() implies (
    #[trigger] shrubbery.branches@[i]).pos.in_world() && behind_parent(shrubbery.branches@, i) by {
        assert(branch_wf(shrubbery.branches@, i));
    }
}

/// In a sound shrub every branch stands behind its parent, so the
/// skeleton is a tree: following the parents from any branch ends at a
/// branch without parent, and the root has none.
pub proof fn lemma_parents_precede(shrubbery: Shrubbery, i: int)
    requires
        shrubbery.wf(),
        0 <= i < shrubbery.branches@.len(),
    ensures
        shrubbery.branches@[i].parent_index matches Some(p) ==> p < i,
        shrubbery.branches@[0].parent_index is None,
{
    assert(branch_wf(shrubbery.branches@, i));
    assert(branch_wf(shrubbery.branches@, 0));
}

/// The square of the distance to a segment is a fraction with a positive
/// denominator.
pub proof fn lemma_segment_sq_positive(branches: Seq<Branch>, p: Vector3, i: int)
    ensures
        segment_sq(branches, p, i).1 > 0,
{
    let a = branches[branches[i].parent_index->0 as int].pos@;
    let b = branches[i].pos@;
    let ab = b.minus(a);
    let ac = p@.minus(a);
    if ac.dot(ab) > 0 {
        assert(ab.norm_squared() > 0) by (nonlinear_arith)
            requires
                ab.norm_squared() == ab.x * ab.x + ab.y * ab.y + ab.z * ab.z,
                ac.x * ab.x + ac.y * ab.y + ac.z * ab.z > 0,
        ;
    }
}

/// At most one branch owns the nearest segment.
pub proof fn lemma_nearest_segment_unique(branches: Seq<Branch>, p: Vector3, a: int, b: int)
    requires
        is_nearest_segment(branches, p, a),
        is_nearest_segment(branches, p, b),
    ensures
        a == b,
{
}

/// A sound skeleton that keeps its books has room to grow.
pub proof fn lemma_tallied_has_room(branches: Seq<Branch>)
    requires
        branches.len() <= usize::MAX,
        forall|j: int| 0 <= j < branches.len() ==> branch_wf(branches, j),
        tallied(branches),
    ensures
        has_room(branches),
{
    assert forall|i: int| 0 <= i < branches.len() implies (#[trigger] branches[i]).child_count
        < usize::MAX && branches[i].generation < usize::MAX by {
        lemma_child_count_bound(branches, i);
    }
}

/// In a skeleton of sound branches every branch stands behind its parent.
pub proof fn lemma_sound_parents_precede(branches: Seq<Branch>)
    requires
        forall|j: int| 0 <= j < branches.len() ==> branch_wf(branches, j),
    ensures
        parents_precede(branches, branches.len() as int),
{
    assert forall|j: int| 0 <= j < branches.len() implies #[trigger] behind_parent(branches, j) by {
        assert(branch_wf(branches, j));
    }
}

/// A box widened over positions holds each of them and the box it was.
pub proof fn lemma_bounds_over_holds(min: Vector3, max: Vector3, added: Seq<Vector3>)
    ensures
        forall|k: int|
            0 <= k < added.len() ==> box_holds(
                bounds_over(min, max, added).0,
                bounds_over(min, max, added).1,
                #[trigger] added[k],
            ),
        bounds_over(min, max, added).0.x <= min.x && bounds_over(min, max, added).0.y <= min.y
            && bounds_over(min, max, added).0.z <= min.z,
        max.x <= bounds_over(min, max, added).1.x && max.y <= bounds_over(min, max, added).1.y
            && max.z <= bounds_over(min, max, added).1.z,
    decreases added.len(),
{
    if added.len() > 0 {
        lemma_bounds_over_holds(min, max, added.drop_last());
        let before = bounds_over(min, max, added.drop_last());
        assert forall|k: int| 0 <= k < added.len() implies box_holds(
            bounds_over(min, max, added).0,
            bounds_over(min, max, added).1,
            #[trigger] added[k],
        ) by {
            if k < added.len() - 1 {
                assert(added.drop_last()[k] == added[k]);
                assert(box_holds(before.0, before.1, added[k]));
            }
        }
    }
}

/// Widening by one more position is one more step of `bounds_over`.
pub proof fn lemma_bounds_over_push(min: Vector3, max: Vector3, added: Seq<Vector3>, p: Vector3)
    ensures
        bounds_over(min, max, added.push(p)) == (
            lower_corner(bounds_over(min, max, added).0, p),
            upper_corner(bounds_over(min, max, added).1, p),
        ),
{
    assert(added.push(p).drop_last() =~= added);
}

/// The count of children looks at the parents alone.
pub proof fn lemma_children_frame(a: Seq<Branch>, b: Seq<Branch>, i: int, upto: int)
    requires
        0 <= upto <= a.len(),
        upto <= b.len(),
        forall|j: int| 0 <= j < upto ==> (#[trigger] a[j]).parent_index == b[j].parent_index,
    ensures
        children_among(a, i, upto) == children_among(b, i, upto),
    decreases upto,
{
    if upto > 0 {
        lemma_children_frame(a, b, i, upto - 1);
        assert(a[upto - 1].parent_index == b[upto - 1].parent_index);
    }
}

/// A skeleton that counts its children still does when neither a parent
/// nor a child count changes.
pub proof fn lemma_counted_frame(a: Seq<Branch>, b: Seq<Branch>)
    requires
        a.len() == b.len(),
        children_counted(a),
        forall|j: int|
            0 <= j < a.len() ==> (#[trigger] a[j]).parent_index == b[j].parent_index
                && a[j].child_count == b[j].child_count,
    ensures
        children_counted(b),
{
    assert forall|i: int| 0 <= i < b.len() implies (#[trigger] b[i]).child_count == children_among(
        b,
        i,
        b.len() as int,
    ) by {
        lemma_children_frame(a, b, i, a.len() as int);
        assert(a[i].child_count == b[i].child_count);
    }
}

/// Where every branch stands behind its parent, a branch has no children
/// among those before it and itself.
pub proof fn lemma_no_children_before(branches: Seq<Branch>, i: int, upto: int)
    requires
        0 <= upto <= branches.len(),
        upto <= i + 1,
        0 <= i <= usize::MAX,
        parents_precede(branches, upto),
    ensures
        children_among(branches, i, upto) == 0,
    decreases upto,
{
    if upto > 0 {
        lemma_no_children_before(branches, i, upto - 1);
        assert(behind_parent(branches, upto - 1));
    }
}

/// Where every branch stands behind its parent, the children of a branch
/// are among the branches behind it.
pub proof fn lemma_children_bound(branches: Seq<Branch>, i: int, upto: int)
    requires
        0 <= upto <= branches.len(),
        0 <= i <= usize::MAX,
        parents_precede(branches, upto),
    ensures
        children_among(branches, i, upto) + i < upto || children_among(branches, i, upto) == 0,
    decreases upto,
{
    if upto > 0 {
        if upto <= i + 1 {
            lemma_no_children_before(branches, i, upto);
        } else {
            lemma_children_bound(branches, i, upto - 1);
        }
    }
}

/// In a sound skeleton a child count leaves room for one child more.
pub proof fn lemma_child_count_bound(branches: Seq<Branch>, i: int)
    requires
        0 <= i < branches.len(),
        branches.len() <= usize::MAX,
        children_counted(branches),
        forall|j: int| 0 <= j < branches.len() ==> branch_wf(branches, j),
    ensures
        branches[i].child_count + i < branches.len(),
{
    lemma_sound_parents_precede(branches);
    lemma_children_bound(branches, i, branches.len() as int);
}

/// A skeleton that counts its children still does when one of its
/// branches grows a child and counts it.
pub proof fn lemma_child_counted(
    branches: Seq<Branch>,
    parent: int,
    grown_parent: Branch,
    child: Branch,
)
    requires
        0 <= parent < branches.len(),
        branches.len() < usize::MAX,
        children_counted(branches),
        parents_precede(branches, branches.len() as int),
        grown_parent.parent_index == branches[parent].parent_index,
        grown_parent.child_count == branches[parent].child_count + 1,
        child.parent_index == Some(parent as usize),
        child.child_count == 0,
    ensures
        children_counted(branches.update(parent, grown_parent).push(child)),
{
    let after = branches.update(parent, grown_parent).push(child);
    let n = branches.len() as int;
    assert forall|i: int| 0 <= i < after.len() implies (#[trigger] after[i]).child_count
        == children_among(after, i, after.len() as int) by {
        if i < n {
            lemma_children_frame(after, branches, i, n);
            assert(after[n].parent_index == Some(parent as usize));
        } else {
            assert forall|j: int| 0 <= j < n + 1 implies #[trigger] behind_parent(after, j) by {
                if j < n {
                    assert(behind_parent(branches, j));
                }
            }
            lemma_no_children_before(after, n, n + 1);
        }
    }
}

} // verus!
