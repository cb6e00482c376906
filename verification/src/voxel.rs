//! The voxel volume of a shrub: which cells of the integer grid hold
//! branch material and which hold foliage.

use crate::branch::Branch;
use crate::leaf_classifier::LeafClassifier;
use crate::math_utils::{ceil_cells, cells_up, div_toward_zero, half_up, trunc_div};
use crate::random::random_below;
use crate::shrubbery::{
    is_nearest_segment, lemma_nearest_segment_unique, no_segment, readable, segment_dist,
    Shrubbery,
};
use crate::vec::{IVector3, Vector3, COORD_LIMIT, PROBE_LIMIT, SCALE};
use vstd::prelude::*;

verus! {

/// What fills a cell.
#[derive(Copy, Clone, Debug, PartialEq, Eq, Structural)]
pub enum VoxelType {
    /// Nothing; cells of air are left out of a volume.
    Air,
    Branch,
    Greenery,
}

/// The shape of the foliage around a leaf-bearing branch.
#[derive(Copy, Clone, Debug, PartialEq, Eq, Structural)]
pub enum LeafShape {
    /// A ball of radius `r` units.
    Sphere { r: i64 },
}

/// How a volume gets its foliage.
#[derive(Copy, Clone, Debug, PartialEq, Eq, Structural)]
pub enum LeafSetting {
    /// No foliage.
    NoLeaves,
    /// The material of leaf-bearing branches counts as foliage.
    BranchIsLeaf(LeafClassifier),
    /// Foliage of this shape surrounds every branch without children.
    Shape(LeafShape),
}

/// How thick the branches are.
pub enum BranchSizeSetting {
    /// Every branch has this radius, in units.
    Value { distance: i64 },
    /// A branch has the radius listed for its generation, and the last
    /// radius where the list is shorter.
    Generation { distances: Vec<i64> },
}

/// Thickens the skeleton near the ground.
#[derive(Copy, Clone, Debug, PartialEq, Eq, Structural)]
pub struct BranchRootSizeIncreaser {
    /// The height, in units, at which the thickening has faded out.
    pub height: i64,
    /// The radius, in units, added at height zero.
    pub additional_size: i64,
}

/// The settings of a volume.
pub struct VoxelizeSettings {
    /// How the volume gets its foliage.
    pub leaf_settings: LeafSetting,
    /// How thick the branches are.
    pub branch_size_setting: BranchSizeSetting,
    /// The thickening near the ground, if any.
    pub branch_root_size_increaser: Option<BranchRootSizeIncreaser>,
}

impl BranchSizeSetting {
    /// The radius of a branch of the given generation; none where the
    /// list of radii is empty.
    pub open spec fn size_of(&self, generation: usize) -> Option<i64> {
        match self {
            BranchSizeSetting::Value { distance } => Some(*distance),
            BranchSizeSetting::Generation { distances } => if distances@.len() == 0 {
                None
            } else if generation < distances@.len() {
                Some(distances@[generation as int])
            } else {
                Some(distances@[distances@.len() - 1])
            },
        }
    }

    /// The radius of a branch of the given generation; none where the
    /// list of radii is empty.
    pub fn size_for(&self, generation: usize) -> (r: Option<i64>)
        ensures
            r == self.size_of(generation),
    {
        match self {
            BranchSizeSetting::Value { distance } => Some(*distance),
            BranchSizeSetting::Generation { distances } => {
                let n: usize = distances.len();
                if n == 0 {
                    None
                } else if generation < n {
                    Some(distances[generation])
                } else {
                    Some(distances[n - 1])
                }
            },
        }
    }
}

impl BranchRootSizeIncreaser {
    /// The radius added at `height` units above the ground: the additional
    /// size times what is left of one after the height has been taken as a
    /// share of the threshold height, capped at one; rounded toward zero,
    /// and nothing where the threshold height is zero. Under a positive
    /// threshold this is the whole additional size at height zero, fading
    /// in proportion to nothing at the threshold.
    pub open spec fn bonus_at(self, height: int) -> int {
        let (rest, whole) = if self.height > 0 {
            (self.height - height, self.height as int)
        } else {
            (height - self.height, -self.height)
        };
        if whole > 0 && rest > 0 {
            trunc_div(self.additional_size * rest, whole)
        } else {
            0
        }
    }

    /// The radius added at `height` units above the ground.
    pub fn bonus(&self, height: i64) -> (r: i128)
        requires
            -PROBE_LIMIT <= height <= PROBE_LIMIT,
        ensures
            r == self.bonus_at(height as int),
            -0x6000_0000_0000_0000_0000_0000_0000_0000 <= r,
            r <= 0x6000_0000_0000_0000_0000_0000_0000_0000,
    {
        proof {
            lemma_bonus_bounded(*self, height as int);
        }
        let (rest, whole): (i128, i128) = if self.height > 0 {
            (self.height as i128 - height as i128, self.height as i128)
        } else {
            (height as i128 - self.height as i128, -(self.height as i128))
        };
        if whole > 0 && rest > 0 {
            let size: i128 = self.additional_size as i128;
            assert(-0x6000_0000_0000_0000_0000_0000_0000_0000 <= size * rest
                <= 0x6000_0000_0000_0000_0000_0000_0000_0000) by (nonlinear_arith)
                requires
                    -0x8000_0000_0000_0000 <= size <= 0x7fff_ffff_ffff_ffff,
                    0 < rest <= 0x8000_0000_0000_0000 + 750_000_000,
            ;
            div_toward_zero(size * rest, whole)
        } else {
            0
        }
    }
}

impl VoxelizeSettings {
    /// The radius of the foliage is at most `COORD_LIMIT` in magnitude, so
    /// that the padded grid can be walked.
    pub open spec fn valid(&self) -> bool {
        self.leaf_settings matches LeafSetting::Shape(LeafShape::Sphere { r }) ==> -COORD_LIMIT
            <= r <= COORD_LIMIT
    }

    /// Whether the settings are valid.
    pub fn is_valid(&self) -> (ok: bool)
        ensures
            ok == self.valid(),
    {
        match self.leaf_settings {
            LeafSetting::Shape(LeafShape::Sphere { r }) => -COORD_LIMIT <= r && r <= COORD_LIMIT,
            _ => true,
        }
    }

    /// The radius below which the material of `branch` reaches a point at
    /// `height` units above the ground; none where no radius is listed.
    pub open spec fn reach_of(&self, branch: Branch, height: int) -> Option<int> {
        match self.branch_size_setting.size_of(branch.generation) {
            None => None,
            Some(base) => Some(
                base + match self.branch_root_size_increaser {
                    None => 0,
                    Some(increaser) => increaser.bonus_at(height),
                },
            ),
        }
    }

    /// How many cells the grid is padded with on each side.
    pub open spec fn padding(&self) -> int {
        match self.leaf_settings {
            LeafSetting::Shape(LeafShape::Sphere { r }) => ceil_cells(r as int),
            _ => 0,
        }
    }
}

/// Some branch that bears leaves under `classifier` has `p` within the
/// foliage shape around it.
pub open spec fn foliage_at(
    branches: Seq<Branch>,
    p: Vector3,
    shape: LeafShape,
    classifier: LeafClassifier,
) -> bool {
    exists|i: int|
        0 <= i < branches.len() && (#[trigger] branches[i]).bears_leaves(classifier)
            && inside_shape(p, branches[i].pos, shape)
}

/// The point `p` lies within the shape around `center`, its surface
/// included.
pub open spec fn inside_shape(p: Vector3, center: Vector3, shape: LeafShape) -> bool {
    match shape {
        LeafShape::Sphere { r } => p.within(center, r as int),
    }
}

/// The cell that holds the point `p`: each coordinate in cells, rounded
/// up.
pub open spec fn cell_of(p: Vector3) -> IVector3 {
    IVector3 {
        x: ceil_cells(p.x as int) as i32,
        y: ceil_cells(p.y as int) as i32,
        z: ceil_cells(p.z as int) as i32,
    }
}

/// What fills the cell: foliage where a foliage shape is set and reaches
/// the cell; else the material of the nearest segment where the cell is
/// closer to it than the radius of its branch, counted as foliage where
/// the settings classify that branch as leaf-bearing; else nothing.
pub open spec fn voxel_kind(shrubbery: &Shrubbery, settings: &VoxelizeSettings, cell: IVector3)
    -> Option<VoxelType> {
    let branches = shrubbery.branches@;
    let p = cell.center();
    if settings.leaf_settings matches LeafSetting::Shape(shape) && foliage_at(
        branches,
        p,
        shape,
        LeafClassifier::LastBranch,
    ) {
        Some(VoxelType::Greenery)
    } else if no_segment(branches) {
        None
    } else {
        let i = choose|i: int| is_nearest_segment(branches, p, i);
        match settings.reach_of(branches[i], cell.y * SCALE) {
            None => None,
            Some(reach) => if segment_dist(branches, p, i) < reach {
                if settings.leaf_settings matches LeafSetting::BranchIsLeaf(classifier)
                    && branches[i].bears_leaves(classifier) {
                    Some(VoxelType::Greenery)
                } else {
                    Some(VoxelType::Branch)
                }
            } else {
                None
            },
        }
    }
}

/// The entries that a cell contributes to the volume: one, or none for
/// air.
pub open spec fn cell_voxels(shrubbery: &Shrubbery, settings: &VoxelizeSettings, cell: IVector3)
    -> Seq<(IVector3, VoxelType)> {
    match voxel_kind(shrubbery, settings, cell) {
        Some(kind) => seq![(cell, kind)],
        None => Seq::empty(),
    }
}

/// Whether `pos` lies within `radius` of `sphere_pos`.
pub fn is_inside_sphere(pos: Vector3, sphere_pos: Vector3, radius: i64) -> (r: bool)
    requires
        pos.in_reach(),
        sphere_pos.in_world(),
    ensures
        r == inside_shape(pos, sphere_pos, LeafShape::Sphere { r: radius }),
{
    pos.is_within(sphere_pos, radius)
}

/// Puts foliage into the cell of `pos` if a branch that bears leaves
/// under `leaf_classifier` has `pos` within the leaf shape around it, and
/// says whether it did.
pub fn generate_leaf(
    pos: Vector3,
    shrubbery: &Shrubbery,
    voxels: &mut Vec<(IVector3, VoxelType)>,
    leaf_shape: &LeafShape,
    leaf_classifier: &LeafClassifier,
) -> (found: bool)
    requires
        readable(shrubbery.branches@),
        pos.in_reach(),
    ensures
        found == foliage_at(shrubbery.branches@, pos, *leaf_shape, *leaf_classifier),
        found ==> final(voxels)@ == old(voxels)@.push((cell_of(pos), VoxelType::Greenery)),
        !found ==> final(voxels)@ == old(voxels)@,
{
    let mut i: usize = 0;
    while i < shrubbery.branches.len()
        invariant
            i <= shrubbery.branches@.len(),
            readable(shrubbery.branches@),
            pos.in_reach(),
            voxels@ == old(voxels)@,
            forall|j: int|
                0 <= j < i ==> !((#[trigger] shrubbery.branches@[j]).bears_leaves(*leaf_classifier)
                    && inside_shape(pos, shrubbery.branches@[j].pos, *leaf_shape)),
        decreases shrubbery.branches.len() - i,
    {
        assert(shrubbery.branches@[i as int].pos.in_world());
        if shrubbery.branches[i].is_leaf(leaf_classifier) {
            let leaf_pos = shrubbery.branches[i].pos;
            match leaf_shape {
                LeafShape::Sphere { r } => {
                    if is_inside_sphere(pos, leaf_pos, *r) {
                        let cell = IVector3 {
                            x: cells_up(pos.x),
                            y: cells_up(pos.y),
                            z: cells_up(pos.z),
                        };
                        voxels.push((cell, VoxelType::Greenery));
                        return true;
                    }
                },
            }
        }
        i += 1;
    }
    false
}

/// The centre of a cell lies in the cell.
pub proof fn lemma_cell_of_center(cell: IVector3)
    ensures
        cell_of(cell.center()) == cell,
{
    lemma_ceil_of_multiple(cell.x as int);
    lemma_ceil_of_multiple(cell.y as int);
    lemma_ceil_of_multiple(cell.z as int);
}

/// A whole number of cells is its own rounding.
pub proof fn lemma_ceil_of_multiple(c: int)
    ensures
        ceil_cells(c * SCALE) == c,
{
    if c >= 0 {
        assert((c * 1000 + 999) / 1000 == c) by (nonlinear_arith)
            requires
                c >= 0,
        ;
    } else {
        assert((-(c * 1000)) / 1000 == -c) by (nonlinear_arith)
            requires
                c < 0,
        ;
    }
}

/// Decides what fills the cell at `pos` and, unless it is air, appends the
/// cell to `voxels`.
pub fn process_voxel(
    pos: IVector3,
    shrubbery: &Shrubbery,
    settings: &VoxelizeSettings,
    voxels: &mut Vec<(IVector3, VoxelType)>,
)
    requires
        readable(shrubbery.branches@),
        -750_000 <= pos.x <= 750_000,
        -750_000 <= pos.y <= 750_000,
        -750_000 <= pos.z <= 750_000,
    ensures
        final(voxels)@ == old(voxels)@ + cell_voxels(shrubbery, settings, pos),
{
    let sample_pos = pos.to_position();
    if let LeafSetting::Shape(leaf_shape) = &settings.leaf_settings {
        proof {
            lemma_cell_of_center(pos);
        }
        if generate_leaf(sample_pos, shrubbery, voxels, leaf_shape, &LeafClassifier::LastBranch) {
            assert(voxels@ =~= old(voxels)@ + cell_voxels(shrubbery, settings, pos));
            return ;
        }
    }
    let (dist_to_branch, closest_branch_index) = shrubbery.distance_to_branch(sample_pos);
    proof {
        if !no_segment(shrubbery.branches@) {
            let chosen = choose|i: int| is_nearest_segment(shrubbery.branches@, sample_pos, i);
            lemma_nearest_segment_unique(
                shrubbery.branches@,
                sample_pos,
                closest_branch_index as int,
                chosen,
            );
        }
    }
    let closest_branch = &shrubbery.branches[closest_branch_index];
    let base: i64 = match settings.branch_size_setting.size_for(closest_branch.generation) {
        Some(base) => base,
        None => {
            assert(voxels@ =~= old(voxels)@ + cell_voxels(shrubbery, settings, pos));
            return ;
        },
    };
    let mut size: i128 = base as i128;
    if let Some(increaser) = &settings.branch_root_size_increaser {
        size = size + increaser.bonus(sample_pos.y);
    }
    if dist_to_branch < i64::MAX && (dist_to_branch as i128) < size {
        let is_leaf = if let LeafSetting::BranchIsLeaf(classifier) = &settings.leaf_settings {
            closest_branch.is_leaf(classifier)
        } else {
            false
        };
        let voxel_type = if is_leaf {
            VoxelType::Greenery
        } else {
            VoxelType::Branch
        };
        voxels.push((pos, voxel_type));
    }
    assert(voxels@ =~= old(voxels)@ + cell_voxels(shrubbery, settings, pos));
}

/// The thickening near the ground stays far within 128 bits.
pub proof fn lemma_bonus_bounded(increaser: BranchRootSizeIncreaser, height: int)
    requires
        -PROBE_LIMIT <= height <= PROBE_LIMIT,
    ensures
        -0x6000_0000_0000_0000_0000_0000_0000_0000 <= increaser.bonus_at(height)
            <= 0x6000_0000_0000_0000_0000_0000_0000_0000,
{
    let (rest, whole) = if increaser.height > 0 {
        (increaser.height - height, increaser.height as int)
    } else {
        (height - increaser.height, -increaser.height)
    };
    if whole > 0 && rest > 0 {
        let size = increaser.additional_size as int;
        assert(-0x6000_0000_0000_0000_0000_0000_0000_0000 <= size * rest
            <= 0x6000_0000_0000_0000_0000_0000_0000_0000) by (nonlinear_arith)
            requires
                -0x8000_0000_0000_0000 <= size <= 0x7fff_ffff_ffff_ffff,
                0 < rest <= 0x8000_0000_0000_0000 + 750_000_000,
        ;
        if size * rest >= 0 {
            assert(0 <= (size * rest) / whole <= size * rest) by (nonlinear_arith)
                requires
                    size * rest >= 0,
                    whole > 0,
            ;
        } else {
            assert(0 <= (-(size * rest)) / whole <= -(size * rest)) by (nonlinear_arith)
                requires
                    size * rest < 0,
                    whole > 0,
            ;
        }
    }
}

/// The entries of the cells of one row of the grid: those at `x` and `y`
/// with `z` from `z_from` up to, not including, `z_to`.
pub open spec fn row_voxels(
    shrubbery: &Shrubbery,
    settings: &VoxelizeSettings,
    x: int,
    y: int,
    z_from: int,
    z_to: int,
) -> Seq<(IVector3, VoxelType)>
    decreases z_to - z_from,
{
    if z_to <= z_from {
        Seq::empty()
    } else {
        row_voxels(shrubbery, settings, x, y, z_from, z_to - 1) + cell_voxels(
            shrubbery,
            settings,
            IVector3 { x: x as i32, y: y as i32, z: (z_to - 1) as i32 },
        )
    }
}

/// The entries of the rows of one slab of the grid: those at `x` with `y`
/// from zero up to, not including, `y_to`, each row from `-half_z` up to,
/// not including, `half_z`.
pub open spec fn slab_voxels(
    shrubbery: &Shrubbery,
    settings: &VoxelizeSettings,
    x: int,
    y_to: int,
    half_z: int,
) -> Seq<(IVector3, VoxelType)>
    decreases y_to,
{
    if y_to <= 0 {
        Seq::empty()
    } else {
        slab_voxels(shrubbery, settings, x, y_to - 1, half_z) + row_voxels(
            shrubbery,
            settings,
            x,
            y_to - 1,
            -half_z,
            half_z,
        )
    }
}

/// The entries of the slabs with `x` from `x_from` up to, not including,
/// `x_to`, each `height` rows high.
pub open spec fn block_voxels(
    shrubbery: &Shrubbery,
    settings: &VoxelizeSettings,
    x_from: int,
    x_to: int,
    height: int,
    half_z: int,
) -> Seq<(IVector3, VoxelType)>
    decreases x_to - x_from,
{
    if x_to <= x_from {
        Seq::empty()
    } else {
        block_voxels(shrubbery, settings, x_from, x_to - 1, height, half_z) + slab_voxels(
            shrubbery,
            settings,
            x_to - 1,
            height,
            half_z,
        )
    }
}

/// The extent of the grid in cells: half the horizontal size of the
/// bounds, rounded up, to either side of the origin, and their full
/// height above it, each padded for the foliage.
pub open spec fn grid_extent(shrubbery: &Shrubbery, settings: &VoxelizeSettings) -> IVector3 {
    let size = shrubbery.bounding_size();
    let pad = settings.padding();
    IVector3 {
        x: (half_up(size.x as int) + pad) as i32,
        y: (size.y + pad) as i32,
        z: (half_up(size.z as int) + pad) as i32,
    }
}

/// The volume of the shrub: the entries of all cells of the grid, slab by
/// slab along `x`, row by row along `y`, cell by cell along `z`.
pub open spec fn volume(shrubbery: &Shrubbery, settings: &VoxelizeSettings) -> Seq<
    (IVector3, VoxelType),
> {
    let extent = grid_extent(shrubbery, settings);
    block_voxels(
        shrubbery,
        settings,
        -extent.x as int,
        extent.x as int,
        extent.y as int,
        extent.z as int,
    )
}

/// The cell `a` comes before the cell at `x`, `y`, `z` in the walk of the
/// grid.
pub open spec fn cell_before(a: IVector3, x: int, y: int, z: int) -> bool {
    a.x < x || (a.x == x && (a.y < y || (a.y == y && a.z < z)))
}

/// Every entry is listed with what fills its cell, and none is air.
pub open spec fn truthful(
    shrubbery: &Shrubbery,
    settings: &VoxelizeSettings,
    voxels: Seq<(IVector3, VoxelType)>,
) -> bool {
    forall|i: int|
        0 <= i < voxels.len() ==> voxel_kind(shrubbery, settings, (#[trigger] voxels[i]).0)
            == Some(voxels[i].1) && voxels[i].1 != VoxelType::Air
}

/// The entries stand in the order of the walk of the grid, none twice.
pub open spec fn ascending(voxels: Seq<(IVector3, VoxelType)>) -> bool {
    forall|i: int, j: int|
        0 <= i < j < voxels.len() ==> cell_before(
            (#[trigger] voxels[i]).0,
            (#[trigger] voxels[j]).0.x as int,
            voxels[j].0.y as int,
            voxels[j].0.z as int,
        )
}

/// The volume of the shrub: every cell of the grid around its bounds is
/// visited once, and each cell that is not air is listed with what fills
/// it.
pub fn voxelize(shrubbery: &Shrubbery, settings: &VoxelizeSettings) -> (voxels: Vec<
    (IVector3, VoxelType),
>)
    requires
        readable(shrubbery.branches@),
        shrubbery.bounds_wf(),
        settings.valid(),
    ensures
        voxels@ == volume(shrubbery, settings),
        truthful(shrubbery, settings, voxels@),
        ascending(voxels@),
        forall|i: int, j: int|
            0 <= i < j < voxels@.len() ==> (#[trigger] voxels@[i]).0 != (#[trigger] voxels@[j]).0,
{
    let mut size = shrubbery.get_bounding_size();
    size.x = (size.x + 1) / 2;
    size.z = (size.z + 1) / 2;
    if let LeafSetting::Shape(leaf_shape) = &settings.leaf_settings {
        let padding: i32 = match leaf_shape {
            LeafShape::Sphere { r } => cells_up(*r),
        };
        size.x = size.x + padding;
        size.y = size.y + padding;
        size.z = size.z + padding;
    }
    assert(size == grid_extent(shrubbery, settings));
    let mut voxels: Vec<(IVector3, VoxelType)> = Vec::with_capacity(128);
    let mut x: i32 = -size.x;
    while x < size.x
        invariant
            readable(shrubbery.branches@),
            -500_000 <= size.x <= 500_000,
            -250_000 <= size.y <= 750_000,
            -500_000 <= size.z <= 500_000,
            -size.x <= x,
            x <= size.x || size.x < 0,
            size.x < 0 ==> x == -size.x,
            voxels@ == block_voxels(
                shrubbery,
                settings,
                -size.x as int,
                x as int,
                size.y as int,
                size.z as int,
            ),
            ascending(voxels@),
            truthful(shrubbery, settings, voxels@),
            forall|i: int| 0 <= i < voxels@.len() ==> (#[trigger] voxels@[i]).0.x < x,
        decreases
            (if x < size.x {
                size.x - x
            } else {
                0
            }),
    {
        let ghost block = voxels@;
        let mut y: i32 = 0;
        while y < size.y
            invariant
                readable(shrubbery.branches@),
                -500_000 <= size.x <= 500_000,
                -250_000 <= size.y <= 750_000,
                -500_000 <= size.z <= 500_000,
                -size.x <= x < size.x,
                0 <= y,
                y <= size.y || size.y < 0,
                size.y < 0 ==> y == 0,
                voxels@ == block + slab_voxels(
                    shrubbery,
                    settings,
                    x as int,
                    y as int,
                    size.z as int,
                ),
                ascending(voxels@),
                truthful(shrubbery, settings, voxels@),
                forall|i: int|
                    0 <= i < voxels@.len() ==> (#[trigger] voxels@[i]).0.x < x || (voxels@[i].0.x
                        == x && voxels@[i].0.y < y),
            decreases
                (if y < size.y {
                    size.y - y
                } else {
                    0
                }),
        {
            let ghost slab = voxels@;
            let mut z: i32 = -size.z;
            while z < size.z
                invariant
                    readable(shrubbery.branches@),
                    -500_000 <= size.x <= 500_000,
                    -250_000 <= size.y <= 750_000,
                    -500_000 <= size.z <= 500_000,
                    -size.x <= x < size.x,
                    0 <= y < size.y,
                    -size.z <= z,
                    z <= size.z || size.z < 0,
                    size.z < 0 ==> z == -size.z,
                    voxels@ == slab + row_voxels(
                        shrubbery,
                        settings,
                        x as int,
                        y as int,
                        -size.z as int,
                        z as int,
                    ),
                    ascending(voxels@),
                    truthful(shrubbery, settings, voxels@),
                    forall|i: int|
                        0 <= i < voxels@.len() ==> cell_before(
                            (#[trigger] voxels@[i]).0,
                            x as int,
                            y as int,
                            z as int,
                        ),
                decreases
                    (if z < size.z {
                        size.z - z
                    } else {
                        0
                    }),
            {
                let ghost row = voxels@;
                let pos = IVector3 { x, y, z };
                process_voxel(pos, shrubbery, settings, &mut voxels);
                proof {
                    assert(voxels@ =~= slab + row_voxels(
                        shrubbery,
                        settings,
                        x as int,
                        y as int,
                        -size.z as int,
                        z + 1,
                    ));
                    assert forall|i: int, j: int| 0 <= i < j < voxels@.len() implies cell_before(
                        (#[trigger] voxels@[i]).0,
                        (#[trigger] voxels@[j]).0.x as int,
                        voxels@[j].0.y as int,
                        voxels@[j].0.z as int,
                    ) by {
                        if j < row.len() {
                            assert(voxels@[i] == row[i] && voxels@[j] == row[j]);
                        } else {
                            assert(voxels@[i] == row[i]);
                            assert(voxels@[j].0 == pos);
                        }
                    }
                    assert forall|i: int| 0 <= i < voxels@.len() implies voxel_kind(
                        shrubbery,
                        settings,
                        (#[trigger] voxels@[i]).0,
                    ) == Some(voxels@[i].1) && voxels@[i].1 != VoxelType::Air by {
                        if i < row.len() {
                            assert(voxels@[i] == row[i]);
                        }
                    }
                    assert forall|i: int| 0 <= i < voxels@.len() implies cell_before(
                        (#[trigger] voxels@[i]).0,
                        x as int,
                        y as int,
                        z + 1,
                    ) by {
                        if i < row.len() {
                            assert(voxels@[i] == row[i]);
                        } else {
                            assert(voxels@[i].0 == pos);
                        }
                    }
                }
                z = z + 1;
            }
            proof {
                assert(row_voxels(shrubbery, settings, x as int, y as int, -size.z as int, z as int)
                    == row_voxels(
                    shrubbery,
                    settings,
                    x as int,
                    y as int,
                    -size.z as int,
                    size.z as int,
                ));
                assert(voxels@ =~= block + slab_voxels(
                    shrubbery,
                    settings,
                    x as int,
                    y + 1,
                    size.z as int,
                ));
            }
            y = y + 1;
        }
        proof {
            assert(slab_voxels(shrubbery, settings, x as int, y as int, size.z as int)
                == slab_voxels(shrubbery, settings, x as int, size.y as int, size.z as int));
            assert(voxels@ =~= block_voxels(
                shrubbery,
                settings,
                -size.x as int,
                x + 1,
                size.y as int,
                size.z as int,
            ));
        }
        x = x + 1;
    }
    proof {
        assert(block_voxels(
            shrubbery,
            settings,
            -size.x as int,
            x as int,
            size.y as int,
            size.z as int,
        ) == block_voxels(
            shrubbery,
            settings,
            -size.x as int,
            size.x as int,
            size.y as int,
            size.z as int,
        ));
    }
    voxels
}

/// The entry is foliage.
pub open spec fn is_greenery(voxel: (IVector3, VoxelType)) -> bool {
    voxel.1 == VoxelType::Greenery
}

/// The indices of the foliage entries, ascending.
pub open spec fn greenery_indices(voxels: Seq<(IVector3, VoxelType)>) -> Seq<usize>
    decreases voxels.len(),
{
    if voxels.len() == 0 {
        Seq::empty()
    } else {
        let before = greenery_indices(voxels.drop_last());
        if is_greenery(voxels.last()) {
            before.push((voxels.len() - 1) as usize)
        } else {
            before
        }
    }
}

/// How many entries are foliage.
pub open spec fn greenery_count(voxels: Seq<(IVector3, VoxelType)>) -> nat {
    greenery_indices(voxels).len()
}

/// How many of `count` foliage entries the fixed-point `fraction` drops:
/// none at zero or below, all at `SCALE` or above, and the share in
/// between, rounded down.
pub open spec fn drop_count(count: nat, fraction: i64) -> nat {
    if fraction <= 0 {
        0
    } else if fraction >= SCALE {
        count
    } else {
        (count * fraction / (SCALE as int)) as nat
    }
}

/// The picks can be drawn one after the other from `count` entries: each
/// is an index into those that are left.
pub open spec fn picks_fit(count: nat, picks: Seq<usize>) -> bool {
    &&& picks.len() <= count
    &&& forall|k: int| 0 <= k < picks.len() ==> (#[trigger] picks[k]) < count - k
}

/// The entries marked after the picks have been drawn, one after the
/// other, from the indices `left`: each pick marks the entry whose index
/// stands at the picked place of `left` and takes the index out.
pub open spec fn picked(left: Seq<usize>, marks: Seq<bool>, picks: Seq<usize>) -> Seq<bool>
    decreases picks.len(),
{
    if picks.len() == 0 {
        marks
    } else {
        picked(
            left.remove(picks[0] as int),
            marks.update(left[picks[0] as int] as int, true),
            picks.drop_first(),
        )
    }
}

/// The entries that are not marked, in their order.
pub open spec fn unmarked(voxels: Seq<(IVector3, VoxelType)>, marks: Seq<bool>) -> Seq<
    (IVector3, VoxelType),
>
    decreases voxels.len(),
{
    if voxels.len() == 0 {
        Seq::empty()
    } else {
        let before = unmarked(voxels.drop_last(), marks.drop_last());
        if marks.last() {
            before
        } else {
            before.push(voxels.last())
        }
    }
}

/// How many entries are marked.
pub open spec fn mark_count(marks: Seq<bool>) -> nat
    decreases marks.len(),
{
    if marks.len() == 0 {
        0
    } else {
        mark_count(marks.drop_last()) + if marks.last() {
            1nat
        } else {
            0nat
        }
    }
}

/// `after` arises from `before` by taking out `dropped` foliage entries:
/// every other entry stays, and the entries that stay keep their order.
pub open spec fn thinned(
    before: Seq<(IVector3, VoxelType)>,
    after: Seq<(IVector3, VoxelType)>,
    dropped: nat,
) -> bool
    decreases before.len(),
{
    if before.len() == 0 {
        after.len() == 0 && dropped == 0
    } else {
        ||| (after.len() > 0 && after.last() == before.last() && thinned(
            before.drop_last(),
            after.drop_last(),
            dropped,
        ))
        ||| (dropped > 0 && is_greenery(before.last()) && thinned(
            before.drop_last(),
            after,
            (dropped - 1) as nat,
        ))
    }
}

/// The entries that are no foliage, in their order.
pub open spec fn without_greenery(voxels: Seq<(IVector3, VoxelType)>) -> Seq<
    (IVector3, VoxelType),
> {
    voxels.filter(|v: (IVector3, VoxelType)| !is_greenery(v))
}

/// Taking out marked foliage thins the volume by the number of marks.
pub proof fn lemma_unmarked_thinned(voxels: Seq<(IVector3, VoxelType)>, marks: Seq<bool>)
    requires
        marks.len() == voxels.len(),
        forall|i: int| 0 <= i < voxels.len() && marks[i] ==> is_greenery(#[trigger] voxels[i]),
    ensures
        thinned(voxels, unmarked(voxels, marks), mark_count(marks)),
    decreases voxels.len(),
{
    if voxels.len() > 0 {
        lemma_unmarked_thinned(voxels.drop_last(), marks.drop_last());
        let rest = unmarked(voxels.drop_last(), marks.drop_last());
        if !marks.last() {
            assert(rest.push(voxels.last()).drop_last() =~= rest);
        } else {
            assert(is_greenery(voxels[voxels.len() - 1]));
        }
    }
}

/// No more foliage can be taken out than there is.
pub proof fn lemma_thinned_bound(
    before: Seq<(IVector3, VoxelType)>,
    after: Seq<(IVector3, VoxelType)>,
    dropped: nat,
)
    requires
        thinned(before, after, dropped),
    ensures
        dropped <= greenery_count(before),
        after.len() + dropped == before.len(),
    decreases before.len(),
{
    if before.len() > 0 {
        if after.len() > 0 && after.last() == before.last() && thinned(
            before.drop_last(),
            after.drop_last(),
            dropped,
        ) {
            lemma_thinned_bound(before.drop_last(), after.drop_last(), dropped);
        } else {
            lemma_thinned_bound(before.drop_last(), after, (dropped - 1) as nat);
        }
    }
}

/// A volume thinned by nothing is the volume.
pub proof fn lemma_thinned_none(
    before: Seq<(IVector3, VoxelType)>,
    after: Seq<(IVector3, VoxelType)>,
)
    requires
        thinned(before, after, 0),
    ensures
        after == before,
    decreases before.len(),
{
    if before.len() > 0 {
        lemma_thinned_none(before.drop_last(), after.drop_last());
        assert(after =~= after.drop_last().push(after.last()));
        assert(before =~= before.drop_last().push(before.last()));
    } else {
        assert(after =~= before);
    }
}

/// A volume thinned by all of its foliage is the volume without foliage.
pub proof fn lemma_thinned_all(
    before: Seq<(IVector3, VoxelType)>,
    after: Seq<(IVector3, VoxelType)>,
)
    requires
        thinned(before, after, greenery_count(before)),
    ensures
        after == without_greenery(before),
    decreases before.len(),
{
    reveal(Seq::filter);
    if before.len() > 0 {
        let count = greenery_count(before);
        if after.len() > 0 && after.last() == before.last() && thinned(
            before.drop_last(),
            after.drop_last(),
            count,
        ) {
            lemma_thinned_bound(before.drop_last(), after.drop_last(), count);
            lemma_thinned_all(before.drop_last(), after.drop_last());
            assert(after =~= after.drop_last().push(after.last()));
        } else {
            lemma_thinned_all(before.drop_last(), after);
        }
    } else {
        assert(after =~= before);
    }
}

/// Takes the picked foliage entries out of the volume. The picks are
/// drawn one after the other from the foliage entries that are left,
/// each by its place among them; all other entries stay in their order.
pub fn drop_picked(voxels: &mut Vec<(IVector3, VoxelType)>, picks: &Vec<usize>)
    requires
        picks_fit(greenery_count(old(voxels)@), picks@),
    ensures
        final(voxels)@ == unmarked(
            old(voxels)@,
            picked(
                greenery_indices(old(voxels)@),
                Seq::new(old(voxels)@.len(), |i: int| false),
                picks@,
            ),
        ),
        thinned(old(voxels)@, final(voxels)@, picks@.len()),
{
    let ghost v0 = voxels@;
    let n: usize = voxels.len();
    let mut branch_indices: Vec<usize> = Vec::new();
    let mut marks: Vec<bool> = Vec::new();
    let mut i: usize = 0;
    proof {
        assert(v0.take(0) =~= Seq::<(IVector3, VoxelType)>::empty());
    }
    while i < n
        invariant
            i <= n,
            n == v0.len(),
            voxels@ == v0,
            branch_indices@ == greenery_indices(v0.take(i as int)),
            marks@ == Seq::new(i as nat, |j: int| false),
            forall|j: int|
                0 <= j < branch_indices@.len() ==> (#[trigger] branch_indices@[j]) < i
                    && is_greenery(v0[branch_indices@[j] as int]),
            forall|j: int, k: int|
                0 <= j < k < branch_indices@.len() ==> (#[trigger] branch_indices@[j]) < (
                #[trigger] branch_indices@[k]),
        decreases n - i,
    {
        proof {
            assert(v0.take(i + 1).drop_last() =~= v0.take(i as int));
        }
        if voxels[i].1 == VoxelType::Greenery {
            branch_indices.push(i);
        }
        marks.push(false);
        proof {
            assert(marks@ =~= Seq::new((i + 1) as nat, |j: int| false));
        }
        i += 1;
    }
    proof {
        assert(v0.take(n as int) =~= v0);
        lemma_mark_count_none(marks@);
    }
    let ghost left0 = branch_indices@;
    let ghost marks0 = marks@;
    let mut k: usize = 0;
    proof {
        assert(picks@.subrange(0, picks@.len() as int) =~= picks@);
    }
    while k < picks.len()
        invariant
            k <= picks@.len(),
            n == v0.len(),
            voxels@ == v0,
            marks@.len() == n,
            picks_fit(left0.len(), picks@),
            branch_indices@.len() == left0.len() - k,
            picked(left0, marks0, picks@) == picked(
                branch_indices@,
                marks@,
                picks@.subrange(k as int, picks@.len() as int),
            ),
            forall|j: int|
                0 <= j < branch_indices@.len() ==> (#[trigger] branch_indices@[j]) < n
                    && is_greenery(v0[branch_indices@[j] as int])
                    && !marks@[branch_indices@[j] as int],
            forall|j: int, l: int|
                0 <= j < l < branch_indices@.len() ==> (#[trigger] branch_indices@[j]) < (
                #[trigger] branch_indices@[l]),
            forall|j: int| 0 <= j < n && marks@[j] ==> is_greenery(#[trigger] v0[j]),
            mark_count(marks@) == k,
        decreases picks.len() - k,
    {
        let ghost left = branch_indices@;
        let ghost marked = marks@;
        let ghost rest = picks@.subrange(k as int, picks@.len() as int);
        let pick: usize = picks[k];
        let index: usize = branch_indices[pick];
        branch_indices.remove(pick);
        marks[index] = true;
        proof {
            assert(rest[0] == pick);
            assert(rest.drop_first() =~= picks@.subrange(k + 1, picks@.len() as int));
            assert(branch_indices@ =~= left.remove(pick as int));
            assert(marks@ =~= marked.update(index as int, true));
            lemma_mark_count_update(marked, index as int);
            assert forall|j: int| 0 <= j < branch_indices@.len() implies (
            #[trigger] branch_indices@[j]) < n && is_greenery(v0[branch_indices@[j] as int])
                && !marks@[branch_indices@[j] as int] by {
                if j < pick {
                    assert(branch_indices@[j] == left[j]);
                    assert(left[j] < left[pick as int]);
                } else {
                    assert(branch_indices@[j] == left[j + 1]);
                    assert(left[pick as int] < left[j + 1]);
                }
            }
            assert forall|j: int, l: int| 0 <= j < l < branch_indices@.len() implies (
            #[trigger] branch_indices@[j]) < (#[trigger] branch_indices@[l]) by {
                let a = if j < pick {
                    j
                } else {
                    j + 1
                };
                let b = if l < pick {
                    l
                } else {
                    l + 1
                };
                assert(branch_indices@[j] == left[a]);
                assert(branch_indices@[l] == left[b]);
            }
        }
        k += 1;
    }
    proof {
        assert(picks@.subrange(k as int, picks@.len() as int) =~= Seq::<usize>::empty());
    }
    let mut kept: Vec<(IVector3, VoxelType)> = Vec::new();
    let mut i: usize = 0;
    proof {
        assert(v0.take(0) =~= Seq::<(IVector3, VoxelType)>::empty());
    }
    while i < n
        invariant
            i <= n,
            n == v0.len(),
            voxels@ == v0,
            marks@.len() == n,
            kept@ == unmarked(v0.take(i as int), marks@.take(i as int)),
        decreases n - i,
    {
        proof {
            assert(v0.take(i + 1).drop_last() =~= v0.take(i as int));
            assert(marks@.take(i + 1).drop_last() =~= marks@.take(i as int));
        }
        if !marks[i] {
            kept.push(voxels[i]);
        }
        i += 1;
    }
    proof {
        assert(v0.take(n as int) =~= v0);
        assert(marks@.take(n as int) =~= marks@);
        lemma_unmarked_thinned(v0, marks@);
    }
    *voxels = kept;
}

/// No entry of a fresh list of marks is marked.
pub proof fn lemma_mark_count_none(marks: Seq<bool>)
    requires
        forall|i: int| 0 <= i < marks.len() ==> !marks[i],
    ensures
        mark_count(marks) == 0,
    decreases marks.len(),
{
    if marks.len() > 0 {
        lemma_mark_count_none(marks.drop_last());
    }
}

/// Marking an entry that was not marked makes one mark more.
pub proof fn lemma_mark_count_update(marks: Seq<bool>, index: int)
    requires
        0 <= index < marks.len(),
        !marks[index],
    ensures
        mark_count(marks.update(index, true)) == mark_count(marks) + 1,
    decreases marks.len(),
{
    let after = marks.update(index, true);
    if index == marks.len() - 1 {
        assert(after.drop_last() =~= marks.drop_last());
    } else {
        lemma_mark_count_update(marks.drop_last(), index);
        assert(after.drop_last() =~= marks.drop_last().update(index, true));
    }
}

/// Counts the foliage entries.
pub fn count_greenery(voxels: &Vec<(IVector3, VoxelType)>) -> (count: usize)
    ensures
        count == greenery_count(voxels@),
{
    let mut count: usize = 0;
    let mut i: usize = 0;
    proof {
        assert(voxels@.take(0) =~= Seq::<(IVector3, VoxelType)>::empty());
    }
    while i < voxels.len()
        invariant
            i <= voxels@.len(),
            count == greenery_count(voxels@.take(i as int)),
            count <= i,
        decreases voxels.len() - i,
    {
        proof {
            assert(voxels@.take(i + 1).drop_last() =~= voxels@.take(i as int));
        }
        if voxels[i].1 == VoxelType::Greenery {
            count += 1;
        }
        i += 1;
    }
    proof {
        assert(voxels@.take(voxels@.len() as int) =~= voxels@);
    }
    count
}

/// Thins the foliage: takes the given fixed-point fraction of the
/// foliage entries, chosen at random, out of the volume. All other
/// entries stay in their order. A fraction of `SCALE` or more takes out
/// all foliage, one of zero or less takes out nothing.
pub fn drop_leaves(
    voxels: &mut Vec<(IVector3, VoxelType)>,
    procentage: i64,
    rng: &mut rand::rngs::StdRng,
)
    ensures
        thinned(
            old(voxels)@,
            final(voxels)@,
            drop_count(greenery_count(old(voxels)@), procentage),
        ),
        procentage >= SCALE ==> final(voxels)@ == without_greenery(old(voxels)@),
        procentage <= 0 ==> final(voxels)@ == old(voxels)@,
{
    let count: usize = count_greenery(voxels);
    let to_drop: usize = if procentage <= 0 {
        0
    } else if procentage >= SCALE {
        count
    } else {
        assert(0 <= count * procentage / (SCALE as int) <= count) by (nonlinear_arith)
            requires
                0 < procentage < 1000,
                SCALE == 1000,
                0 <= count,
        ;
        assert(0 <= count * procentage <= 0xffff_ffff_ffff_ffff * 1000) by (nonlinear_arith)
            requires
                0 < procentage < 1000,
                0 <= count <= 0xffff_ffff_ffff_ffff,
        ;
        (count as u128 * procentage as u128 / SCALE as u128) as usize
    };
    let mut picks: Vec<usize> = Vec::with_capacity(to_drop);
    let mut k: usize = 0;
    while k < to_drop
        invariant
            k <= to_drop <= count,
            picks@.len() == k,
            forall|j: int| 0 <= j < k ==> (#[trigger] picks@[j]) < count - j,
        decreases to_drop - k,
    {
        let drawn: u64 = random_below(rng, (count - k) as u64);
        picks.push(drawn as usize);
        k += 1;
    }
    drop_picked(voxels, &picks);
    proof {
        if procentage >= SCALE {
            lemma_thinned_all(old(voxels)@, voxels@);
        }
        if procentage <= 0 {
            lemma_thinned_none(old(voxels)@, voxels@);
        }
    }
}

} // verus!
