//! The shapes that are filled with attractors.

use crate::algorithm_settings::AlgorithmSettings;
use crate::attractor::Attractor;
use crate::attractor_generator_settings::AttractorGeneratorSettings;
use crate::error::ConfigurationError;
use crate::random::random_below;
use crate::shrubbery::{attractors_wf, ATTRACTOR_LIMIT};
use crate::vec::{Vector3, COORD_LIMIT, SCALE};
use vstd::prelude::*;

verus! {

/// A random offset of at least `-half` and at most `half`.
pub fn jitter(rng: &mut rand::rngs::StdRng, half: i64) -> (r: i64)
    requires
        0 <= half <= 1_000_000_000_000,
    ensures
        is_jitter(r as int, half as int),
{
    let drawn: u64 = random_below(rng, (2 * half + 1) as u64);
    centered(drawn, half)
}

/// `offset` is a possible jitter of a lattice with half spacing `half`.
pub open spec fn is_jitter(offset: int, half: int) -> bool {
    -half <= offset <= half
}

/// The offset that a number drawn from zero up to twice `half` stands for:
/// the number, moved so that the middle of the range comes to lie at zero.
pub fn centered(drawn: u64, half: i64) -> (r: i64)
    requires
        0 <= half <= 1_000_000_000_000,
        drawn <= 2 * half,
    ensures
        r == drawn - half,
        is_jitter(r as int, half as int),
{
    drawn as i64 - half
}

/// A shape that can be filled with attractors. The library proves of its
/// own shapes that they keep what `generate` promises; of a shape that is
/// implemented elsewhere it takes the promise on trust.
pub trait Shape {
    /// What the shape promises of the attractors `after` that it leaves
    /// where it found the attractors `before`, and of its answer.
    spec fn fills(
        &self,
        pos: Vector3,
        before: Seq<Attractor>,
        after: Seq<Attractor>,
        algorithm_settings: AlgorithmSettings,
        generator_settings: AttractorGeneratorSettings,
        answer: Result<(), ConfigurationError>,
    ) -> bool;

    /// Appends attractors around `pos` to `attractors`, or refuses the
    /// configuration and appends nothing.
    fn generate(
        &self,
        pos: Vector3,
        attractors: &mut Vec<Attractor>,
        algorithm_settings: &AlgorithmSettings,
        generator_settings: &AttractorGeneratorSettings,
        rng: &mut rand::rngs::StdRng,
    ) -> (r: Result<(), ConfigurationError>)
        requires
            attractors_wf(old(attractors)@),
        ensures
            attractors_wf(final(attractors)@),
            final(attractors)@.len() >= old(attractors)@.len(),
            final(attractors)@.subrange(0, old(attractors)@.len() as int) == old(attractors)@,
            r is Err ==> final(attractors)@ == old(attractors)@,
            self.fills(
                pos,
                old(attractors)@,
                final(attractors)@,
                *algorithm_settings,
                *generator_settings,
                r,
            ),
    ;
}

/// An axis-aligned box; `x`, `y` and `z` are its full sizes in units.
#[derive(Clone, Copy, Debug, PartialEq, Eq, Structural)]
pub struct BoxShape {
    /// The size along `x`.
    pub x: i64,
    /// The size along `y`.
    pub y: i64,
    /// The size along `z`.
    pub z: i64,
}

/// The spacing of the lattice: half the difference between the attraction
/// distance and the kill distance, divided by the fixed-point density.
pub open spec fn ideal_spacing(
    algorithm_settings: AlgorithmSettings,
    generator_settings: AttractorGeneratorSettings,
) -> int {
    (algorithm_settings.leaf_attraction_dist - algorithm_settings.kill_distance) * SCALE / (2
        * generator_settings.density)
}

/// How many lattice cells of width `spacing` fit into `size` units.
pub open spec fn lattice_count(size: int, spacing: int) -> int {
    if size <= 0 {
        0
    } else {
        size / spacing
    }
}

/// The lowest coordinate of the lattice along one axis of a box of the
/// given size around `center`.
pub open spec fn lattice_start(center: int, size: int) -> int {
    center - size / 2
}

impl BoxShape {
    /// How many cells the lattice has along each axis.
    pub open spec fn counts(self, spacing: int) -> (int, int, int) {
        (
            lattice_count(self.x as int, spacing),
            lattice_count(self.y as int, spacing),
            lattice_count(self.z as int, spacing),
        )
    }

    /// The number of cells of the lattice.
    pub open spec fn cell_count(self, spacing: int) -> int {
        self.counts(spacing).0 * self.counts(spacing).1 * self.counts(spacing).2
    }

    /// The lattice lies in the world along one axis; one without extent
    /// does.
    pub open spec fn axis_fits(center: int, size: int, spacing: int) -> bool {
        size > 0 ==> {
            &&& -COORD_LIMIT <= lattice_start(center, size)
            &&& lattice_start(center, size) + lattice_count(size, spacing) * spacing
                <= COORD_LIMIT
        }
    }

    /// The first fault of the configuration, if there is one.
    pub open spec fn fault(
        self,
        pos: Vector3,
        present: int,
        algorithm_settings: AlgorithmSettings,
        generator_settings: AttractorGeneratorSettings,
    ) -> Option<ConfigurationError> {
        let spacing = ideal_spacing(algorithm_settings, generator_settings);
        if algorithm_settings.fault() is Some {
            algorithm_settings.fault()
        } else if !generator_settings.valid() {
            Some(ConfigurationError::NonPositiveDensity)
        } else if spacing <= 0 {
            Some(ConfigurationError::SpacingVanishes)
        } else if !pos.in_world() || self.x > 2 * COORD_LIMIT || self.y > 2 * COORD_LIMIT || self.z
            > 2 * COORD_LIMIT || !Self::axis_fits(pos.x as int, self.x as int, spacing)
            || !Self::axis_fits(pos.y as int, self.y as int, spacing) || !Self::axis_fits(
            pos.z as int,
            self.z as int,
            spacing,
        ) {
            Some(ConfigurationError::OutOfWorld)
        } else if present + self.cell_count(spacing) > ATTRACTOR_LIMIT {
            Some(ConfigurationError::TooManyAttractors)
        } else {
            None
        }
    }

    /// The position `p` lies in the lattice cell `index` along one axis:
    /// at the middle of the cell plus a jitter.
    pub open spec fn in_cell(p: int, center: int, size: int, spacing: int, index: int) -> bool {
        is_jitter(p - (lattice_start(center, size) + spacing / 2 + index * spacing), spacing / 2)
    }

    /// The attractor `a` is a fresh one in the `k`-th cell of the lattice,
    /// the cells counted along `z` first, then `y`, then `x`.
    pub open spec fn fills_cell(self, a: Attractor, pos: Vector3, spacing: int, k: int) -> bool {
        let (nx, ny, nz) = self.counts(spacing);
        &&& !a.reached
        &&& Self::in_cell(a.pos.x as int, pos.x as int, self.x as int, spacing, (k / nz) / ny)
        &&& Self::in_cell(a.pos.y as int, pos.y as int, self.y as int, spacing, (k / nz) % ny)
        &&& Self::in_cell(a.pos.z as int, pos.z as int, self.z as int, spacing, k % nz)
    }
}

/// How many lattice cells of width `spacing` fit into `size` units.
pub fn count_cells(size: i64, spacing: i64) -> (n: i64)
    requires
        spacing > 0,
    ensures
        n == lattice_count(size as int, spacing as int),
        0 <= n,
        n * spacing <= size || n == 0,
        n <= size || n == 0,
{
    if size <= 0 {
        0
    } else {
        let n: i64 = size / spacing;
        assert(n * spacing <= size && 0 <= n <= size) by (nonlinear_arith)
            requires
                n == size as int / spacing as int,
                size > 0,
                spacing > 0,
        ;
        n
    }
}

/// Whether the lattice lies in the world along one axis.
pub fn axis_in_world(center: i64, size: i64, spacing: i64) -> (r: bool)
    requires
        -COORD_LIMIT <= center <= COORD_LIMIT,
        size <= 2 * COORD_LIMIT,
        0 < spacing,
    ensures
        r == BoxShape::axis_fits(center as int, size as int, spacing as int),
{
    if size <= 0 {
        return true;
    }
    let n: i64 = count_cells(size, spacing);
    assert(0 <= n * spacing <= size) by (nonlinear_arith)
        requires
            n * spacing <= size || n == 0,
            0 <= n,
            0 < spacing,
            0 < size,
    ;
    let start: i64 = center - size / 2;
    let span: i64 = n * spacing;
    -COORD_LIMIT <= start && start + span <= COORD_LIMIT
}

impl Shape for BoxShape {
    /// The box answers with the first fault of the configuration, if it
    /// has one; else it appends one fresh attractor for each cell of its
    /// lattice, in the order of the cells, each within its cell.
    open spec fn fills(
        &self,
        pos: Vector3,
        before: Seq<Attractor>,
        after: Seq<Attractor>,
        algorithm_settings: AlgorithmSettings,
        generator_settings: AttractorGeneratorSettings,
        answer: Result<(), ConfigurationError>,
    ) -> bool {
        let spacing = ideal_spacing(algorithm_settings, generator_settings);
        match answer {
            Err(e) => self.fault(pos, before.len() as int, algorithm_settings, generator_settings)
                == Some(e),
            Ok(_) => {
                &&& self.fault(pos, before.len() as int, algorithm_settings, generator_settings)
                    is None
                &&& after.len() == before.len() + self.cell_count(spacing)
                &&& forall|k: int|
                    0 <= k < self.cell_count(spacing) ==> self.fills_cell(
                        #[trigger] after[before.len() + k],
                        pos,
                        spacing,
                        k,
                    )
            },
        }
    }

    /// Fills the box around `pos` with a lattice of attractors, one in
    /// each cell, each shifted from the middle of its cell by a random
    /// jitter of at most half the spacing along every axis.
    fn generate(
        &self,
        pos: Vector3,
        attractors: &mut Vec<Attractor>,
        algorithm_settings: &AlgorithmSettings,
        generator_settings: &AttractorGeneratorSettings,
        rng: &mut rand::rngs::StdRng,
    ) -> (r: Result<(), ConfigurationError>)
    {
        let ghost a0 = attractors@;
        match algorithm_settings.validate() {
            Err(e) => {
                assert(attractors@.subrange(0, a0.len() as int) =~= a0);
                return Err(e);
            },
            Ok(_) => {},
        }
        match generator_settings.validate() {
            Err(e) => {
                assert(attractors@.subrange(0, a0.len() as int) =~= a0);
                return Err(e);
            },
            Ok(_) => {},
        }
        let range: i128 = (algorithm_settings.leaf_attraction_dist
            - algorithm_settings.kill_distance) as i128 * SCALE as i128;
        let wide_spacing: i128 = range / (2 * generator_settings.density as i128);
        assert(0 <= wide_spacing <= range) by (nonlinear_arith)
            requires
                wide_spacing == range as int / (2 * generator_settings.density as int),
                range >= 0,
                generator_settings.density > 0,
        ;
        if wide_spacing <= 0 {
            assert(attractors@.subrange(0, a0.len() as int) =~= a0);
            return Err(ConfigurationError::SpacingVanishes);
        }
        let spacing: i64 = wide_spacing as i64;
        let in_world = -COORD_LIMIT <= pos.x && pos.x <= COORD_LIMIT && -COORD_LIMIT <= pos.y
            && pos.y <= COORD_LIMIT && -COORD_LIMIT <= pos.z && pos.z <= COORD_LIMIT;
        if !in_world || self.x > 2 * COORD_LIMIT || self.y > 2 * COORD_LIMIT || self.z > 2
            * COORD_LIMIT || !axis_in_world(pos.x, self.x, spacing) || !axis_in_world(
            pos.y,
            self.y,
            spacing,
        ) || !axis_in_world(pos.z, self.z, spacing) {
            assert(attractors@.subrange(0, a0.len() as int) =~= a0);
            return Err(ConfigurationError::OutOfWorld);
        }
        let nx: i64 = count_cells(self.x, spacing);
        let ny: i64 = count_cells(self.y, spacing);
        let nz: i64 = count_cells(self.z, spacing);
        assert(0 <= nx * ny <= 250_000_000_000_000_000 && 0 <= nx * ny * nz
            <= 125_000_000_000_000_000_000_000_000) by (nonlinear_arith)
            requires
                0 <= nx <= 500_000_000,
                0 <= ny <= 500_000_000,
                0 <= nz <= 500_000_000,
        ;
        let total: i128 = nx as i128 * ny as i128 * nz as i128;
        let present: usize = attractors.len();
        if present as i128 + total > ATTRACTOR_LIMIT as i128 {
            assert(attractors@.subrange(0, a0.len() as int) =~= a0);
            return Err(ConfigurationError::TooManyAttractors);
        }
        if nx == 0 || ny == 0 || nz == 0 {
            assert(nx * ny * nz == 0) by (nonlinear_arith)
                requires
                    nx == 0 || ny == 0 || nz == 0,
            ;
            assert(attractors@.subrange(0, a0.len() as int) =~= a0);
            return Ok(());
        }
        let half: i64 = spacing / 2;
        let start_x: i64 = pos.x - self.x / 2 + half;
        let start_y: i64 = pos.y - self.y / 2 + half;
        let start_z: i64 = pos.z - self.z / 2 + half;
        let mut ix: i64 = 0;
        assert(0 * ny * nz == 0) by (nonlinear_arith);
        while ix < nx
            invariant
                0 <= ix <= nx,
                0 <= ny,
                0 <= nz,
                nx == self.counts(spacing as int).0,
                ny == self.counts(spacing as int).1,
                nz == self.counts(spacing as int).2,
                total == nx * ny * nz,
                present == a0.len(),
                present + total <= ATTRACTOR_LIMIT,
                0 < spacing <= 1_000_000_000_000,
                half == spacing / 2,
                start_x == lattice_start(pos.x as int, self.x as int) + half,
                start_y == lattice_start(pos.y as int, self.y as int) + half,
                start_z == lattice_start(pos.z as int, self.z as int) + half,
                BoxShape::axis_fits(pos.x as int, self.x as int, spacing as int),
                BoxShape::axis_fits(pos.y as int, self.y as int, spacing as int),
                BoxShape::axis_fits(pos.z as int, self.z as int, spacing as int),
                attractors_wf(a0),
                self.x > 0 && self.y > 0 && self.z > 0,
                attractors@.len() == present + ix * ny * nz,
                attractors@.subrange(0, present as int) == a0,
                forall|k: int|
                    0 <= k < ix * ny * nz ==> self.fills_cell(
                        #[trigger] attractors@[present + k],
                        pos,
                        spacing as int,
                        k,
                    ) && attractors@[present + k].pos.in_world(),
            decreases nx - ix,
        {
            let mut iy: i64 = 0;
            while iy < ny
                invariant
                    0 <= ix < nx,
                    0 <= iy <= ny,
                    0 <= nz,
                    nx == self.counts(spacing as int).0,
                    ny == self.counts(spacing as int).1,
                    nz == self.counts(spacing as int).2,
                    total == nx * ny * nz,
                    present == a0.len(),
                    present + total <= ATTRACTOR_LIMIT,
                    0 < spacing <= 1_000_000_000_000,
                    half == spacing / 2,
                    start_x == lattice_start(pos.x as int, self.x as int) + half,
                    start_y == lattice_start(pos.y as int, self.y as int) + half,
                    start_z == lattice_start(pos.z as int, self.z as int) + half,
                    BoxShape::axis_fits(pos.x as int, self.x as int, spacing as int),
                    BoxShape::axis_fits(pos.y as int, self.y as int, spacing as int),
                    BoxShape::axis_fits(pos.z as int, self.z as int, spacing as int),
                    attractors_wf(a0),
                    self.x > 0 && self.y > 0 && self.z > 0,
                    attractors@.len() == present + (ix * ny + iy) * nz,
                    attractors@.subrange(0, present as int) == a0,
                    forall|k: int|
                        0 <= k < (ix * ny + iy) * nz ==> self.fills_cell(
                            #[trigger] attractors@[present + k],
                            pos,
                            spacing as int,
                            k,
                        ) && attractors@[present + k].pos.in_world(),
                decreases ny - iy,
            {
                let mut iz: i64 = 0;
                while iz < nz
                    invariant
                        0 <= ix < nx,
                        0 <= iy < ny,
                        0 <= iz <= nz,
                        nx == self.counts(spacing as int).0,
                        ny == self.counts(spacing as int).1,
                        nz == self.counts(spacing as int).2,
                        total == nx * ny * nz,
                        present == a0.len(),
                        present + total <= ATTRACTOR_LIMIT,
                        0 < spacing <= 1_000_000_000_000,
                        half == spacing / 2,
                        start_x == lattice_start(pos.x as int, self.x as int) + half,
                        start_y == lattice_start(pos.y as int, self.y as int) + half,
                        start_z == lattice_start(pos.z as int, self.z as int) + half,
                        BoxShape::axis_fits(pos.x as int, self.x as int, spacing as int),
                        BoxShape::axis_fits(pos.y as int, self.y as int, spacing as int),
                        BoxShape::axis_fits(pos.z as int, self.z as int, spacing as int),
                        attractors_wf(a0),
                        self.x > 0 && self.y > 0 && self.z > 0,
                        attractors@.len() == present + (ix * ny + iy) * nz + iz,
                        attractors@.subrange(0, present as int) == a0,
                        forall|k: int|
                            0 <= k < (ix * ny + iy) * nz + iz ==> self.fills_cell(
                                #[trigger] attractors@[present + k],
                                pos,
                                spacing as int,
                                k,
                            ) && attractors@[present + k].pos.in_world(),
                    decreases nz - iz,
                {
                    let ghost before = attractors@;
                    let ghost k = (ix * ny + iy) * nz + iz;
                    proof {
                        lemma_lattice_index(
                            ix as int,
                            iy as int,
                            iz as int,
                            nx as int,
                            ny as int,
                            nz as int,
                        );
                        lemma_cell_in_axis(pos.x as int, self.x as int, spacing as int, ix as int);
                        lemma_cell_in_axis(pos.y as int, self.y as int, spacing as int, iy as int);
                        lemma_cell_in_axis(pos.z as int, self.z as int, spacing as int, iz as int);
                    }
                    let jx: i64 = jitter(rng, half);
                    let jy: i64 = jitter(rng, half);
                    let jz: i64 = jitter(rng, half);
                    let place = Vector3 {
                        x: start_x + ix * spacing + jx,
                        y: start_y + iy * spacing + jy,
                        z: start_z + iz * spacing + jz,
                    };
                    attractors.push(Attractor::new(place));
                    proof {
                        assert(attractors@.subrange(0, present as int) =~= before.subrange(
                            0,
                            present as int,
                        ));
                        assert forall|j: int| 0 <= j < k + 1 implies self.fills_cell(
                            #[trigger] attractors@[present + j],
                            pos,
                            spacing as int,
                            j,
                        ) && attractors@[present + j].pos.in_world() by {
                            if j < k {
                                assert(attractors@[present + j] == before[present + j]);
                            }
                        }
                    }
                    iz = iz + 1;
                }
                proof {
                    assert((ix * ny + iy) * nz + nz == (ix * ny + (iy + 1)) * nz)
                        by (nonlinear_arith);
                }
                iy = iy + 1;
            }
            proof {
                assert((ix * ny + ny) * nz == (ix + 1) * ny * nz) by (nonlinear_arith);
                assert((ix * ny + 0) * nz == ix * ny * nz) by (nonlinear_arith);
            }
            ix = ix + 1;
        }
        proof {
            assert forall|k: int| 0 <= k < attractors@.len() implies (
            #[trigger] attractors@[k]).pos.in_world() && !attractors@[k].reached by {
                if k < present {
                    assert(attractors@.subrange(0, present as int)[k] == a0[k]);
                } else {
                    let j = k - present;
                    assert(self.fills_cell(attractors@[present + j], pos, spacing as int, j));
                }
            }
        }
        Ok(())
    }
}

/// The cell with the indices `ix`, `iy`, `iz` is the cell number
/// `(ix * ny + iy) * nz + iz` of the lattice.
pub proof fn lemma_lattice_index(ix: int, iy: int, iz: int, nx: int, ny: int, nz: int)
    requires
        0 <= ix < nx,
        0 <= iy < ny,
        0 <= iz < nz,
    ensures
        ({
            let k = (ix * ny + iy) * nz + iz;
            &&& 0 <= k < nx * ny * nz
            &&& k % nz == iz
            &&& (k / nz) % ny == iy
            &&& (k / nz) / ny == ix
        }),
{
    let row = ix * ny + iy;
    let k = row * nz + iz;
    assert(0 <= row && row * nz >= 0 && ix * ny >= 0) by (nonlinear_arith)
        requires
            0 <= ix,
            0 <= iy,
            0 < ny,
            0 < nz,
            row == ix * ny + iy,
    ;
    vstd::arithmetic::div_mod::lemma_fundamental_div_mod_converse(k, nz, row, iz);
    vstd::arithmetic::div_mod::lemma_fundamental_div_mod_converse(row, ny, ix, iy);
    assert(k < nx * ny * nz) by (nonlinear_arith)
        requires
            k == (ix * ny + iy) * nz + iz,
            0 <= ix < nx,
            0 <= iy < ny,
            0 <= iz < nz,
    ;
}

/// Every cell of a lattice that lies in the world lies in the world.
pub proof fn lemma_cell_in_axis(center: int, size: int, spacing: int, index: int)
    requires
        BoxShape::axis_fits(center, size, spacing),
        0 < spacing,
        0 < size,
        0 <= index < lattice_count(size, spacing),
    ensures
        -COORD_LIMIT <= lattice_start(center, size) + index * spacing,
        lattice_start(center, size) + index * spacing + spacing <= COORD_LIMIT,
        0 <= index * spacing,
        2 * (spacing / 2) <= spacing,
{
    let n = lattice_count(size, spacing);
    assert(0 <= index * spacing && index * spacing + spacing <= n * spacing) by (nonlinear_arith)
        requires
            0 <= index,
            index + 1 <= n,
            0 < spacing,
    ;
}

} // verus!
