//! World builder: rasterizes a height field into bricks and populates a
//! brickmap tree.
//!
//! The world is iterated in a fixed nested order — chunk columns over x and
//! z, then bricks within each chunk (y, then x, then z), then voxels within
//! each brick — and each voxel of a column is marked solid when it lies at
//! or below the scaled surface height, with the surface voxel in the
//! "grass" color and everything below it in the "dirt" color.  Columns
//! outside the height field's extent stay empty.  Bricks that end up with
//! no solid voxel are not placed, and after all placements the mip
//! aggregates are rebuilt exactly once.
use vstd::prelude::*;
use crate::brick::Brick;
use crate::brick::Color;
use crate::brick::GridPos;
use crate::brick::vox_index;
use crate::brickmap::CpuBrickmap;
use crate::brickmap::side_length;
use crate::MAX_DEPTH;

verus! {

/// Fixed multiplier from a raw height-field sample to a surface height in
/// voxels.
pub const HEIGHT_SCALE: u32 = 200;

/// A missing required palette entry: fatal at startup, never a per-voxel
/// error.
#[derive(Clone, Copy, PartialEq, Eq, Structural, Debug)]
pub enum ConfigurationError {
    MissingPaletteEntry,
}

/// The two colors the builder paints with.
#[derive(Clone, Copy, PartialEq, Eq, Structural, Debug)]
pub struct Palette {
    pub grass: Color,
    pub dirt: Color,
}

impl Palette {
    /// Builds the palette from looked-up entries; a missing required key is
    /// a fatal configuration error, reported if and only if one of the two
    /// entries is absent.
    pub fn resolve(grass: Option<Color>, dirt: Option<Color>) -> (r: Result<
        Palette,
        ConfigurationError,
    >)
        ensures
            r is Ok <==> grass is Some && dirt is Some,
            r is Ok ==> r->Ok_0 == (Palette { grass: grass->Some_0, dirt: dirt->Some_0 }),
            r is Err ==> r->Err_0 == ConfigurationError::MissingPaletteEntry,
    {
        match (grass, dirt) {
            (Some(g), Some(d)) => Ok(Palette { grass: g, dirt: d }),
            _ => Err(ConfigurationError::MissingPaletteEntry),
        }
    }
}

/// A height field: a grid of unsigned raw samples, one per horizontal
/// cell, indexed row-major as `rows[z][x]`.
pub struct Heightmap(pub Vec<Vec<u32>>);

impl Heightmap {
    /// The grid as a mathematical sequence of rows.
    pub open spec fn grid(self) -> Seq<Seq<u32>> {
        Seq::new(self.0@.len() as nat, |i: int| self.0@[i]@)
    }

    /// The grid is rectangular: every row has the first row's length.
    pub open spec fn wf(self) -> bool {
        forall|i: int| 0 <= i < self.grid().len() ==> (#[trigger] self.grid()[i]).len()
            == self.grid()[0].len()
    }

    /// Looks up the sample of the column at `(x, z)`; a column outside the
    /// grid's extent has no data.
    pub fn sample(&self, x: u32, z: u32) -> (r: Option<u32>)
        ensures
            r == sample_at(self.grid(), x as int, z as int),
    {
        if (z as usize) < self.0.len() {
            let row: &Vec<u32> = &self.0[z as usize];
            if (x as usize) < row.len() {
                return Some(row[x as usize]);
            }
        }
        None
    }
}

/// The raw sample of the column at `(x, z)`, or `None` outside the grid.
pub open spec fn sample_at(hm: Seq<Seq<u32>>, x: int, z: int) -> Option<u32> {
    if 0 <= z < hm.len() && 0 <= x < hm[z].len() {
        Some(hm[z][x])
    } else {
        None
    }
}

/// What the builder puts at global voxel `(gx, gy, gz)`: nothing outside
/// the height field; otherwise solid up to the scaled surface height, the
/// surface voxel in the grass color and everything below it in the dirt
/// color.
pub open spec fn expected_voxel(
    hm: Seq<Seq<u32>>,
    grass: Color,
    dirt: Color,
    gx: int,
    gy: int,
    gz: int,
) -> Option<Color> {
    match sample_at(hm, gx, gz) {
        Some(sample) => {
            let surface = sample * (HEIGHT_SCALE as int);
            if gy == surface {
                Some(grass)
            } else if gy < surface {
                Some(dirt)
            } else {
                None
            }
        },
        None => None,
    }
}

/// The voxel content the builder computes for the brick at brick-grid
/// coordinate `p`.
pub open spec fn expected_brick(
    hm: Seq<Seq<u32>>,
    grass: Color,
    dirt: Color,
    p: GridPos,
) -> Seq<Option<Color>> {
    Seq::new(
        crate::BRICK_VOLUME as nat,
        |i: int|
            expected_voxel(
                hm,
                grass,
                dirt,
                p.x * 4 + i / 16,
                p.y * 4 + (i / 4) % 4,
                p.z * 4 + i % 4,
            ),
    )
}

/// All voxels of the content are empty.
pub open spec fn view_empty(v: Seq<Option<Color>>) -> bool {
    forall|i: int| 0 <= i < v.len() ==> v[i] is None
}

/// The tree holds at `p` exactly what the builder computes for `p`: the
/// expected content when it has any solid voxel, nothing otherwise.
pub open spec fn built_at(t: CpuBrickmap, hm: Seq<Seq<u32>>, pal: Palette, p: GridPos) -> bool {
    if view_empty(expected_brick(hm, pal.grass, pal.dirt, p)) {
        t.lookup(p) is None
    } else {
        t.leaf_view(p) == Some(expected_brick(hm, pal.grass, pal.dirt, p))
    }
}

/// Computes one brick's voxel content from the height field, and whether
/// any voxel of it is solid.
pub fn compute_brick(hm: &Heightmap, pal: &Palette, p: GridPos) -> (r: (Brick, bool))
    requires
        p.x < 0x10000000,
        p.y < 0x10000000,
        p.z < 0x10000000,
    ensures
        r.0.wf(),
        r.0@ == expected_brick(hm.grid(), pal.grass, pal.dirt, p),
        r.1 == !view_empty(expected_brick(hm.grid(), pal.grass, pal.dirt, p)),
{
    let ghost exp = expected_brick(hm.grid(), pal.grass, pal.dirt, p);
    let mut brick = Brick::empty();
    let mut any = false;
    let mut idx: usize = 0;
    while idx < 64
        invariant
            idx <= 64,
            brick.wf(),
            p.x < 0x10000000 && p.y < 0x10000000 && p.z < 0x10000000,
            exp == expected_brick(hm.grid(), pal.grass, pal.dirt, p),
            forall|i: int| 0 <= i < idx ==> brick@[i] == exp[i],
            forall|i: int| idx <= i < 64 ==> brick@[i] is None,
            any == exists|i: int| 0 <= i < idx && #[trigger] exp[i] is Some,
        decreases 64 - idx,
    {
        let x = (idx / 16) as u32;
        let y = ((idx / 4) % 4) as u32;
        let z = (idx % 4) as u32;
        proof {
            assert(vox_index(x as int, y as int, z as int) == idx);
        }
        let gx = p.x * 4 + x;
        let gy = p.y * 4 + y;
        let gz = p.z * 4 + z;
        let sample = hm.sample(gx, gz);
        let mut wrote = false;
        match sample {
            Some(sv) => {
                let surface: u64 = (sv as u64) * (HEIGHT_SCALE as u64);
                if (gy as u64) <= surface {
                    let color = if (gy as u64) == surface {
                        pal.grass
                    } else {
                        pal.dirt
                    };
                    brick.write(GridPos { x, y, z }, color);
                    any = true;
                    wrote = true;
                    proof {
                        assert(exp[idx as int] == Some(color));
                    }
                }
            },
            None => {},
        }
        proof {
            if !wrote {
                assert(exp[idx as int] is None);
            }
        }
        idx = idx + 1;
    }
    proof {
        assert(brick@ =~= exp);
        if !view_empty(exp) {
            let w = choose|i: int| 0 <= i < exp.len() && !(exp[i] is None);
            assert(exp[w] is Some);
        }
    }
    (brick, any)
}

/// The chunk column `(cx, cz)` covers brick coordinates with x in
/// `[4*cx, 4*cx+4)`, z in `[4*cz, 4*cz+4)`, and y below 4 (the world is
/// one chunk tall).
pub open spec fn in_chunk(p: GridPos, cx: u32, cz: u32) -> bool {
    &&& cx * 4 <= p.x < cx * 4 + 4
    &&& p.y < 4
    &&& cz * 4 <= p.z < cz * 4 + 4
}

/// Position of `p` in the chunk's fixed brick iteration order: y first,
/// then x, then z.
pub open spec fn chunk_code(p: GridPos, cx: u32, cz: u32) -> int {
    p.y * 16 + (p.x - cx * 4) * 4 + (p.z - cz * 4)
}

/// Builds every brick of one chunk column and places the non-empty ones.
fn build_chunk(t: &mut CpuBrickmap, hm: &Heightmap, pal: &Palette, cx: u32, cz: u32)
    requires
        old(t).wf(),
        (cx as int + 1) * 4 <= old(t).world_side(),
        (cz as int + 1) * 4 <= old(t).world_side(),
        forall|p: GridPos| in_chunk(p, cx, cz) ==> old(t).lookup(p) is None,
    ensures
        final(t).wf(),
        final(t).depth == old(t).depth,
        forall|p: GridPos|
            in_chunk(p, cx, cz) ==> built_at(*final(t), hm.grid(), *pal, p),
        forall|p: GridPos|
            final(t).valid_pos(p) && !in_chunk(p, cx, cz) ==> final(t).lookup(p) == old(t).lookup(
                p,
            ) && final(t).leaf_view(p) == old(t).leaf_view(p),
{
    proof {
        crate::brickmap::lemma_world_bound(t.depth as nat);
    }
    let mut idx: u32 = 0;
    while idx < 64
        invariant
            t.wf(),
            t.depth == old(t).depth,
            idx <= 64,
            t.world_side() <= 0x10000000,
            (cx as int + 1) * 4 <= t.world_side(),
            (cz as int + 1) * 4 <= t.world_side(),
            forall|p: GridPos|
                in_chunk(p, cx, cz) && chunk_code(p, cx, cz) < idx ==> built_at(
                    *t,
                    hm.grid(),
                    *pal,
                    p,
                ),
            forall|p: GridPos|
                in_chunk(p, cx, cz) && chunk_code(p, cx, cz) >= idx ==> (*t).lookup(p) is None,
            forall|p: GridPos|
                (*t).valid_pos(p) && !in_chunk(p, cx, cz) ==> (*t).lookup(p) == old(t).lookup(p)
                    && (*t).leaf_view(p) == old(t).leaf_view(p),
        decreases 64 - idx,
    {
        let by = idx / 16;
        let bx = (idx / 4) % 4;
        let bz = idx % 4;
        let p = GridPos { x: cx * 4 + bx, y: by, z: cz * 4 + bz };
        proof {
            assert(in_chunk(p, cx, cz));
            assert(chunk_code(p, cx, cz) == idx);
            assert(t.valid_pos(p));
        }
        let ghost tpre = *t;
        let (brick, any) = compute_brick(hm, pal, p);
        if any {
            let r = t.place_brick(brick, p);
            proof {
                assert(r is Ok);
                assert(built_at(*t, hm.grid(), *pal, p));
                assert forall|q: GridPos|
                    in_chunk(q, cx, cz) && chunk_code(q, cx, cz) < idx + 1 implies built_at(
                    *t,
                    hm.grid(),
                    *pal,
                    q,
                ) by {
                    if chunk_code(q, cx, cz) == idx {
                        assert(q.y == p.y && q.x == p.x && q.z == p.z);
                        assert(q == p);
                    } else {
                        assert(q != p);
                        assert(t.valid_pos(q));
                        assert(t.lookup(q) == tpre.lookup(q));
                        assert(t.leaf_view(q) == tpre.leaf_view(q));
                    }
                }
                assert forall|q: GridPos|
                    in_chunk(q, cx, cz) && chunk_code(q, cx, cz) >= idx + 1 implies (*t).lookup(
                    q,
                ) is None by {
                    assert(q != p);
                    assert(t.valid_pos(q));
                    assert(t.lookup(q) == tpre.lookup(q));
                }
                assert forall|q: GridPos|
                    (*t).valid_pos(q) && !in_chunk(q, cx, cz) implies (*t).lookup(q) == old(
                    t,
                ).lookup(q) && (*t).leaf_view(q) == old(t).leaf_view(q) by {
                    assert(q != p);
                    assert(t.lookup(q) == tpre.lookup(q));
                    assert(t.leaf_view(q) == tpre.leaf_view(q));
                }
            }
        } else {
            proof {
                assert((*t).lookup(p) is None);
                assert(view_empty(expected_brick(hm.grid(), pal.grass, pal.dirt, p)));
                assert(built_at(*t, hm.grid(), *pal, p));
                assert forall|q: GridPos|
                    in_chunk(q, cx, cz) && chunk_code(q, cx, cz) < idx + 1 implies built_at(
                    *t,
                    hm.grid(),
                    *pal,
                    q,
                ) by {
                    if chunk_code(q, cx, cz) == idx {
                        assert(q == p);
                    }
                }
            }
        }
        idx = idx + 1;
    }
    proof {
        assert forall|p: GridPos| in_chunk(p, cx, cz) implies built_at(
            *t,
            hm.grid(),
            *pal,
            p,
        ) by {
            assert(chunk_code(p, cx, cz) < 64);
        }
    }
}

/// Converts an external height field into a fully populated brickmap tree:
/// iterates chunk columns, builds each brick, places the non-empty ones,
/// and rebuilds the mip aggregates exactly once at the end.
///
/// `world_depth` is the world side length in voxels as a power of two; the
/// tree depth is `world_depth` minus the brick's own two levels.  The world
/// is one chunk (4 bricks) tall, as tall as the chunk iteration reaches.
pub fn setup_voxels(heightmap: &Heightmap, world_depth: u32, palette: &Palette) -> (t: CpuBrickmap)
    requires
        world_depth >= 2,
        world_depth - 2 <= MAX_DEPTH,
    ensures
        t.wf(),
        t.depth == world_depth - 2,
        crate::mipmap::fully_pruned(t.nodes@, 0),
        forall|p: GridPos|
            t.valid_pos(p) && t.world_side() >= 4 && p.y < 4 ==> built_at(
                t,
                heightmap.grid(),
                *palette,
                p,
            ),
        forall|p: GridPos|
            t.valid_pos(p) && !(t.world_side() >= 4 && p.y < 4) ==> t.lookup(p) is None,
{
    let depth = world_depth - 2;
    let mut t = CpuBrickmap::new(depth);
    proof {
        crate::brickmap::lemma_world_bound(depth as nat);
    }
    if depth >= 2 {
        let chunks = side_length(depth - 2);
        proof {
            vstd::arithmetic::power2::lemma_pow2_adds((depth - 2) as nat, 2);
            vstd::arithmetic::power2::lemma2_to64();
            assert(chunks as int * 4 == t.world_side());
        }
        let mut cx: u32 = 0;
        while cx < chunks
            invariant
                t.wf(),
                t.depth == depth,
                depth <= MAX_DEPTH,
                cx <= chunks,
                chunks as int * 4 == t.world_side(),
                t.world_side() <= 0x10000000,
                forall|p: GridPos|
                    t.valid_pos(p) && p.y < 4 && p.x < cx * 4 ==> built_at(
                        t,
                        heightmap.grid(),
                        *palette,
                        p,
                    ),
                forall|p: GridPos|
                    t.valid_pos(p) && !(p.y < 4 && p.x < cx * 4) ==> t.lookup(p) is None,
            decreases chunks - cx,
        {
            let mut cz: u32 = 0;
            while cz < chunks
                invariant
                    t.wf(),
                    t.depth == depth,
                    depth <= MAX_DEPTH,
                    cx < chunks,
                    cz <= chunks,
                    chunks as int * 4 == t.world_side(),
                    t.world_side() <= 0x10000000,
                    forall|p: GridPos|
                        t.valid_pos(p) && p.y < 4 && (p.x < cx * 4 || (p.x < cx * 4 + 4 && p.z
                            < cz * 4)) ==> built_at(t, heightmap.grid(), *palette, p),
                    forall|p: GridPos|
                        t.valid_pos(p) && !(p.y < 4 && (p.x < cx * 4 || (p.x < cx * 4 + 4 && p.z
                            < cz * 4))) ==> t.lookup(p) is None,
                decreases chunks - cz,
            {
                let ghost tpre = t;
                proof {
                    assert forall|p: GridPos| in_chunk(p, cx, cz) implies t.lookup(p) is None by {
                        assert(t.valid_pos(p));
                    }
                }
                build_chunk(&mut t, heightmap, palette, cx, cz);
                proof {
                    assert forall|p: GridPos|
                        t.valid_pos(p) && p.y < 4 && (p.x < cx * 4 || (p.x < cx * 4 + 4 && p.z
                            < cz * 4 + 4)) implies built_at(t, heightmap.grid(), *palette, p) by {
                        if in_chunk(p, cx, cz) {
                        } else {
                            assert(tpre.valid_pos(p));
                            assert(p.x < cx * 4 || (p.x < cx * 4 + 4 && p.z < cz * 4));
                            assert(built_at(tpre, heightmap.grid(), *palette, p));
                            assert(t.lookup(p) == tpre.lookup(p));
                            assert(t.leaf_view(p) == tpre.leaf_view(p));
                        }
                    }
                    assert forall|p: GridPos|
                        t.valid_pos(p) && !(p.y < 4 && (p.x < cx * 4 || (p.x < cx * 4 + 4 && p.z
                            < cz * 4 + 4))) implies t.lookup(p) is None by {
                        assert(!in_chunk(p, cx, cz));
                        assert(tpre.valid_pos(p));
                        assert(tpre.lookup(p) is None);
                        assert(t.lookup(p) == tpre.lookup(p));
                    }
                }
                cz = cz + 1;
            }
            proof {
                assert forall|p: GridPos|
                    t.valid_pos(p) && p.y < 4 && p.x < (cx + 1) * 4 implies built_at(
                    t,
                    heightmap.grid(),
                    *palette,
                    p,
                ) by {
                    assert(p.z < chunks * 4);
                }
            }
            cx = cx + 1;
        }
    }
    proof {
        if t.world_side() >= 4 {
            assert(t.depth >= 2) by {
                if t.depth < 2 {
                    vstd::arithmetic::power2::lemma2_to64();
                    vstd::arithmetic::power2::lemma_pow2_strictly_increases(
                        t.depth as nat,
                        2,
                    );
                }
            }
        }
    }
    let ghost tmid = t;
    t.recreate_mipmaps();
    proof {
        assert forall|p: GridPos|
            t.valid_pos(p) && t.world_side() >= 4 && p.y < 4 implies built_at(
            t,
            heightmap.grid(),
            *palette,
            p,
        ) by {
            assert(tmid.valid_pos(p));
            assert(tmid.world_side() >= 4 && tmid.depth >= 2);
            assert(built_at(tmid, heightmap.grid(), *palette, p));
            assert(t.lookup(p) == tmid.lookup(p));
            assert(t.leaf_view(p) == tmid.leaf_view(p));
        }
        assert forall|p: GridPos|
            t.valid_pos(p) && !(t.world_side() >= 4 && p.y < 4) implies t.lookup(p) is None by {
            assert(tmid.valid_pos(p));
            assert(tmid.lookup(p) is None);
            assert(t.lookup(p) == tmid.lookup(p));
        }
    }
    t
}

/// Law: over a column whose sample is `hvalue`, the built voxels form a
/// flat surface: solid exactly up to `hvalue` times the height multiplier,
/// the surface voxel in the grass color and every voxel below it in the
/// dirt color.  With every sample equal to `hvalue`, the whole world is
/// that flat surface.
pub proof fn lemma_flat_world(
    hm: Seq<Seq<u32>>,
    grass: Color,
    dirt: Color,
    hvalue: u32,
    gx: int,
    gy: int,
    gz: int,
)
    requires
        0 <= gz < hm.len(),
        0 <= gx < hm[gz].len(),
        hm[gz][gx] == hvalue,
    ensures
        expected_voxel(hm, grass, dirt, gx, gy, gz) == (if gy == hvalue * (HEIGHT_SCALE as int) {
            Some(grass)
        } else if gy < hvalue * (HEIGHT_SCALE as int) {
            Some(dirt)
        } else {
            None::<Color>
        }),
{
}

/// Reduces a full-resolution sample grid to a coarser height field by
/// keeping every `sample_step`-th sample per axis, rounding the sampled
/// dimensions up.  This is the resolution step behind loading a height
/// field from a decoded image.
pub fn process_heightmap(grid: &Heightmap, sample_step: usize) -> (r: Heightmap)
    requires
        1 <= sample_step <= 0x10000000,
        grid.grid().len() <= 0x10000000,
        forall|i: int| 0 <= i < grid.grid().len() ==> (#[trigger] grid.grid()[i]).len()
            <= 0x10000000,
    ensures
        r.grid().len() * sample_step >= grid.grid().len(),
        r.grid().len() > 0 ==> (r.grid().len() - 1) * sample_step < grid.grid().len(),
        r.grid().len() == 0 ==> grid.grid().len() == 0,
        forall|j: int|
            0 <= j < r.grid().len() ==> {
                let src = grid.grid()[j * sample_step];
                let dst = #[trigger] r.grid()[j];
                &&& dst.len() * sample_step >= src.len()
                &&& dst.len() > 0 ==> (dst.len() - 1) * sample_step < src.len()
                &&& dst.len() == 0 ==> src.len() == 0
                &&& forall|i: int| 0 <= i < dst.len() ==> #[trigger] dst[i] == src[i
                    * sample_step]
            },
{
    let mut out: Vec<Vec<u32>> = Vec::new();
    let mut z: usize = 0;
    while z < grid.0.len()
        invariant
            1 <= sample_step <= 0x10000000,
            grid.grid().len() <= 0x10000000,
            forall|i: int| 0 <= i < grid.grid().len() ==> (#[trigger] grid.grid()[i]).len()
                <= 0x10000000,
            z == out@.len() * sample_step,
            out@.len() <= grid.grid().len(),
            out@.len() > 0 ==> (out@.len() - 1) * sample_step < grid.grid().len(),
            forall|j: int|
                0 <= j < out@.len() ==> {
                    let src = grid.grid()[j * sample_step];
                    let dst = (#[trigger] out@[j])@;
                    &&& dst.len() * sample_step >= src.len()
                    &&& dst.len() > 0 ==> (dst.len() - 1) * sample_step < src.len()
                    &&& dst.len() == 0 ==> src.len() == 0
                    &&& forall|i: int| 0 <= i < dst.len() ==> #[trigger] dst[i] == src[i
                        * sample_step]
                },
        decreases grid.0@.len() + sample_step - z,
    {
        let row: &Vec<u32> = &grid.0[z];
        proof {
            assert(grid.grid()[z as int] == grid.0@[z as int]@);
            assert(row@.len() <= 0x10000000);
        }
        let mut orow: Vec<u32> = Vec::new();
        let mut x: usize = 0;
        while x < row.len()
            invariant
                1 <= sample_step <= 0x10000000,
                row@.len() <= 0x10000000,
                x == orow@.len() * sample_step,
                orow@.len() <= row@.len(),
                orow@.len() > 0 ==> (orow@.len() - 1) * sample_step < row@.len(),
                forall|i: int| 0 <= i < orow@.len() ==> #[trigger] orow@[i] == row@[i
                    * sample_step],
            decreases row@.len() + sample_step - x,
        {
            orow.push(row[x]);
            proof {
                assert((orow@.len()) * sample_step == (orow@.len() - 1) * sample_step
                    + sample_step) by (nonlinear_arith)
                    requires orow@.len() >= 1 && sample_step >= 0;
                assert(orow@.len() <= row@.len()) by (nonlinear_arith)
                    requires
                        (orow@.len() - 1) * sample_step < row@.len(),
                        sample_step >= 1,
                        orow@.len() >= 1,
                ;
            }
            x = x + sample_step;
        }
        let ghost zpre = z;
        out.push(orow);
        proof {
            assert((out@.len()) * sample_step == (out@.len() - 1) * sample_step + sample_step)
                by (nonlinear_arith)
                requires out@.len() >= 1 && sample_step >= 0;
            assert(out@.len() <= grid.grid().len()) by (nonlinear_arith)
                requires
                    (out@.len() - 1) * sample_step < grid.grid().len(),
                    sample_step >= 1,
                    out@.len() >= 1,
            ;
            assert(grid.grid()[zpre as int] == grid.0@[zpre as int]@);
        }
        z = z + sample_step;
    }
    Heightmap(out)
}

} // verus!
