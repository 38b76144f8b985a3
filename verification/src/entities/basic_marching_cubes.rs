//! A chunk of terrain: a cube of lattice points, each with a sampled density (its weight)
//! and the side of the surface it lies on (its sign), and the triangles that marching
//! cubes draws through the cubes between neighbouring lattice points.
//!
//! Weights are bit patterns of IEEE-754 binary32 numbers. The chunk decides where the
//! surface crosses the lattice; turning a crossing into a position in space is left to
//! the caller, who can do arithmetic on such numbers.

use crate::entities::table_reader::{
    cube_corner, edge_corner_a, edge_corner_b, edge_end, edge_start, valid_row, Corner,
    TriangulationTable, EDGES,
};
use crate::utils::constants::{CHUNK_BOUNDS, TEST_ISOVALUE_BITS};
use crate::utils::grid::{grid_cells, grid_filled, grid_get, grid_set, in_cube, Grid};
use crate::utils::offset::Offset;
use crate::utils::weight::{spec_ge, spec_interpolable, weight_ge, weight_interpolable};
use vstd::prelude::*;

verus! {

/// The side of the surface on which a lattice point lies.
#[allow(non_camel_case_types)]
#[derive(Clone, Copy, Debug, PartialEq, Eq, Structural)]
pub enum Mask {
    /// The weight is below the isovalue.
    MINUS,
    /// The weight is at or above the isovalue.
    PLUS,
}

/// A place where the surface passes through an edge of a lattice cube. It becomes one
/// vertex of the mesh.
#[derive(Clone, Copy, Debug, PartialEq, Eq, Structural)]
pub struct Crossing {
    /// The cube, named by its lattice point of least coordinates.
    pub x: usize,
    pub y: usize,
    pub z: usize,
    /// The edge of the cube, and the two corners of the unit cube that it joins.
    pub edge: u16,
    pub corner_a: Corner,
    pub corner_b: Corner,
    /// The weights at the two ends of the edge.
    pub weight_a: u32,
    pub weight_b: u32,
    /// The vertex lies halfway along the edge, because the weights are not two finite,
    /// different numbers. Otherwise it lies at the fraction
    /// `(isovalue - weight_a) / (weight_b - weight_a)` of the way from `corner_a`.
    pub midpoint: bool,
}

/// The lattice of a chunk of this bound fits in memory that can be addressed: a grid of
/// `bound` points along each axis, four bytes a point.
pub open spec fn bound_fits(bound: usize) -> bool {
    1 <= bound && 4 * (bound * bound * bound) <= isize::MAX
}

/// The vertices that a chunk of this bound can get from a table whose longest row has
/// `longest` edges can be counted in a signed 32-bit number, as a draw call counts them.
pub open spec fn mesh_fits(bound: usize, longest: nat) -> bool {
    (bound - 1) * (bound - 1) * (bound - 1) * longest <= i32::MAX
}

/// Where the sample of lattice point `(x, y, z)` stands in the row of samples of a chunk.
pub open spec fn flat_index(x: int, y: int, z: int, bound: int) -> int {
    (x * bound + y) * bound + z
}

/// One coordinate of the point at which the density is sampled, counted in lattice
/// steps of the whole terrain. Neighbouring chunks overlap by one lattice plane, so a
/// chunk starts `bound - 1` steps after the one before it.
pub open spec fn spec_sample_coordinate(offset: i32, bound: usize, index: int) -> int {
    offset * (bound - 1) + index
}

/// The sign bit of a weight: 1 at or above the isovalue, else 0.
pub open spec fn spec_sign(weight: u32, isovalue: u32) -> u32 {
    if spec_ge(weight, isovalue) {
        1
    } else {
        0
    }
}

/// Label consistency, as the rule by which every lattice point is labelled: the sign
/// is 1 exactly where the weight is at or above the isovalue and 0 elsewhere. A weight
/// equal to the isovalue is at it, so its sign is 1; a weight below it has sign 0.
pub proof fn lemma_sign_follows_the_isovalue(weight: u32, isovalue: u32)
    ensures
        spec_sign(weight, isovalue) == 1 <==> spec_ge(weight, isovalue),
        spec_sign(weight, isovalue) == 0 || spec_sign(weight, isovalue) == 1,
        !crate::utils::weight::is_nan(isovalue) ==> spec_sign(isovalue, isovalue) == 1,
        crate::utils::weight::rank(weight) < crate::utils::weight::rank(isovalue) ==> spec_sign(
            weight,
            isovalue,
        ) == 0,
{
}

/// The lattice point at corner `c` of the cube at `(x, y, z)`.
pub open spec fn corner_point(x: int, y: int, z: int, c: Corner) -> (int, int, int) {
    (x + c.x, y + c.y, z + c.z)
}

/// The sign bit at corner number `k` of the cube at `(x, y, z)`.
pub open spec fn corner_bit(signs: Map<(int, int, int), u32>, x: int, y: int, z: int, k: int) -> int {
    signs[corner_point(x, y, z, cube_corner(k))] as int
}

/// The configuration of the cube at `(x, y, z)`: bit `k` is the sign bit of corner `k`.
pub open spec fn cube_config(signs: Map<(int, int, int), u32>, x: int, y: int, z: int) -> int {
    corner_bit(signs, x, y, z, 0) + 2 * corner_bit(signs, x, y, z, 1) + 4 * corner_bit(
        signs,
        x,
        y,
        z,
        2,
    ) + 8 * corner_bit(signs, x, y, z, 3) + 16 * corner_bit(signs, x, y, z, 4) + 32 * corner_bit(
        signs,
        x,
        y,
        z,
        5,
    ) + 64 * corner_bit(signs, x, y, z, 6) + 128 * corner_bit(signs, x, y, z, 7)
}

/// The crossing of the surface with one edge of the cube at `(x, y, z)`.
pub open spec fn spec_crossing(
    weights: Map<(int, int, int), u32>,
    x: int,
    y: int,
    z: int,
    edge: u16,
) -> Crossing {
    let a = edge_corner_a(edge as int);
    let b = edge_corner_b(edge as int);
    let weight_a = weights[corner_point(x, y, z, a)];
    let weight_b = weights[corner_point(x, y, z, b)];
    Crossing {
        x: x as usize,
        y: y as usize,
        z: z as usize,
        edge,
        corner_a: a,
        corner_b: b,
        weight_a,
        weight_b,
        midpoint: !spec_interpolable(weight_a, weight_b),
    }
}

/// The labelled lattice of a chunk, as far as meshing depends on it.
pub struct Lattice {
    pub signs: Map<(int, int, int), u32>,
    pub weights: Map<(int, int, int), u32>,
}

/// The vertices that the cube at `(x, y, z)` adds to the mesh: one for each edge that
/// the table lists for the cube's configuration, in the table's order.
pub open spec fn cell_mesh(l: Lattice, table: TriangulationTable, x: int, y: int, z: int) -> Seq<
    Crossing,
> {
    let row = table.spec_lookup(cube_config(l.signs, x, y, z) as u8);
    Seq::new(row.len(), |i: int| spec_crossing(l.weights, x, y, z, row[i]))
}

/// The vertices of the cubes `(x, y, 0)` to `(x, y, n - 1)`.
pub open spec fn line_mesh(l: Lattice, table: TriangulationTable, x: int, y: int, n: int) -> Seq<
    Crossing,
>
    decreases n,
{
    if n <= 0 {
        Seq::empty()
    } else {
        line_mesh(l, table, x, y, n - 1) + cell_mesh(l, table, x, y, n - 1)
    }
}

/// The vertices of the lines `(x, 0)` to `(x, n - 1)`, each of `m` cubes.
pub open spec fn slab_mesh(l: Lattice, table: TriangulationTable, m: int, x: int, n: int) -> Seq<
    Crossing,
>
    decreases n,
{
    if n <= 0 {
        Seq::empty()
    } else {
        slab_mesh(l, table, m, x, n - 1) + line_mesh(l, table, x, n - 1, m)
    }
}

/// The vertices of the slabs `0` to `n - 1`, each of `m` lines of `m` cubes.
pub open spec fn block_mesh(l: Lattice, table: TriangulationTable, m: int, n: int) -> Seq<Crossing>
    decreases n,
{
    if n <= 0 {
        Seq::empty()
    } else {
        block_mesh(l, table, m, n - 1) + slab_mesh(l, table, m, n - 1, m)
    }
}

/// The mesh of a chunk with `bound` lattice points along each axis: the vertices of its
/// `(bound - 1)^3` cubes, the cubes taken with x outermost and z innermost.
pub open spec fn mesh(l: Lattice, table: TriangulationTable, bound: int) -> Seq<Crossing> {
    block_mesh(l, table, bound - 1, bound - 1)
}

/// Index `i` holds the number `i`: each vertex is used once, in the order of emission.
pub open spec fn counting(indices: Seq<u32>) -> bool {
    forall|i: int| 0 <= i < indices.len() ==> #[trigger] indices[i] == i
}

/// The lattice points that a scan with x outermost and z innermost has passed when it
/// stands at `(x, y, z)`.
pub open spec fn scanned(p: (int, int, int), x: int, y: int, z: int) -> bool {
    p.0 < x || (p.0 == x && (p.1 < y || (p.1 == y && p.2 < z)))
}

proof fn lemma_flat_index_bounds(x: int, y: int, z: int, n: int)
    by (nonlinear_arith)
    requires
        0 <= x < n,
        0 <= y < n,
        0 <= z < n,
    ensures
        0 <= x * n + y < n * n,
        0 <= (x * n + y) * n + z < n * n * n,
        n * n <= n * n * n,
{
}

proof fn lemma_flat_index_steps(x: int, y: int, n: int)
    by (nonlinear_arith)
    ensures
        flat_index(x, y, n, n) == flat_index(x, y + 1, 0, n),
        flat_index(x, n, 0, n) == flat_index(x + 1, 0, 0, n),
        flat_index(0, 0, 0, n) == 0,
        flat_index(n, 0, 0, n) == n * n * n,
{
}

proof fn lemma_room_for_cell(done: int, cells: int, longest: int)
    by (nonlinear_arith)
    requires
        0 <= done < cells,
        0 <= longest,
    ensures
        done * longest + longest <= cells * longest,
        done * longest + longest == (done + 1) * longest,
{
}

proof fn lemma_bound_is_small(bound: int)
    by (nonlinear_arith)
    requires
        1 <= bound,
        4 * (bound * bound * bound) <= 0x7fff_ffff_ffff_ffff,
    ensures
        bound < 0x20_0000,
{
}

/// The point at which the density of lattice point `(x, y, z)` of the chunk at `offset`
/// is sampled, in lattice steps of the whole terrain along each axis.
pub open spec fn spec_sample_point(offset: Offset, bound: usize, x: int, y: int, z: int) -> (
    int,
    int,
    int,
) {
    (
        spec_sample_coordinate(offset.x, bound, x),
        spec_sample_coordinate(offset.y, bound, y),
        spec_sample_coordinate(offset.z, bound, z),
    )
}

/// Seam continuity: two chunks whose offsets differ by one step along one axis sample the
/// same points on the lattice plane they share, the last plane of the one being the
/// first plane of the other. Equal points have equal densities, so the meshes of the
/// two chunks meet.
pub proof fn lemma_seam_continuity(a: Offset, b: Offset, bound: usize, u: int, v: int)
    requires
        1 <= bound,
    ensures
        b.x == a.x + 1 && b.y == a.y && b.z == a.z ==> spec_sample_point(a, bound, bound - 1, u, v)
            == spec_sample_point(b, bound, 0, u, v),
        b.x == a.x && b.y == a.y + 1 && b.z == a.z ==> spec_sample_point(a, bound, u, bound - 1, v)
            == spec_sample_point(b, bound, u, 0, v),
        b.x == a.x && b.y == a.y && b.z == a.z + 1 ==> spec_sample_point(a, bound, u, v, bound - 1)
            == spec_sample_point(b, bound, u, v, 0),
{
    let step = bound - 1;
    assert((a.x + 1) * step == a.x * step + step) by (nonlinear_arith);
    assert((a.y + 1) * step == a.y * step + step) by (nonlinear_arith);
    assert((a.z + 1) * step == a.z * step + step) by (nonlinear_arith);
}

/// One coordinate of a sample point. See [`spec_sample_coordinate`].
pub fn sample_coordinate(offset: i32, bound: usize, index: usize) -> (c: i64)
    requires
        bound_fits(bound),
        index < bound,
    ensures
        c == spec_sample_coordinate(offset, bound, index as int),
{
    proof {
        lemma_bound_is_small(bound as int);
        let step = bound - 1;
        assert(-0x8000_0000 * 0x20_0000 <= offset * step <= 0x8000_0000 * 0x20_0000)
            by (nonlinear_arith)
            requires
                -0x8000_0000 <= offset < 0x8000_0000,
                0 <= step < 0x20_0000,
        ;
    }
    (offset as i64) * ((bound - 1) as i64) + (index as i64)
}

/// The row of points holds, at the place of lattice point `(x, y, z)`, the point at
/// which that lattice point is sampled.
pub open spec fn point_recorded(
    points: Seq<(i64, i64, i64)>,
    offset: Offset,
    bound: usize,
    x: int,
    y: int,
    z: int,
) -> bool {
    let at = flat_index(x, y, z, bound as int);
    let p = spec_sample_point(offset, bound, x, y, z);
    0 <= at < points.len() && points[at].0 == p.0 && points[at].1 == p.1 && points[at].2 == p.2
}

/// The sample points of every lattice point of the chunk at `offset`, in the order in
/// which [`MCChunk::with_settings`] takes the samples.
pub fn sample_points(offset: Offset, bound: usize) -> (points: Vec<(i64, i64, i64)>)
    requires
        bound_fits(bound),
    ensures
        points@.len() == bound * bound * bound,
        forall|x: int, y: int, z: int|
            in_cube((x, y, z), bound as int) ==> #[trigger] point_recorded(
                points@,
                offset,
                bound,
                x,
                y,
                z,
            ),
{
    let mut points: Vec<(i64, i64, i64)> = Vec::new();
    proof {
        lemma_flat_index_steps(0, 0, bound as int);
    }
    let mut x: usize = 0;
    while x < bound
        invariant
            x <= bound,
            bound_fits(bound),
            points@.len() == flat_index(x as int, 0, 0, bound as int),
            forall|i: int, j: int, k: int|
                in_cube((i, j, k), bound as int) && scanned((i, j, k), x as int, 0, 0)
                    ==> #[trigger] point_recorded(points@, offset, bound, i, j, k),
        decreases bound - x,
    {
        let px: i64 = sample_coordinate(offset.x, bound, x);
        let mut y: usize = 0;
        while y < bound
            invariant
                x < bound,
                y <= bound,
                bound_fits(bound),
                px == spec_sample_coordinate(offset.x, bound, x as int),
                points@.len() == flat_index(x as int, y as int, 0, bound as int),
                forall|i: int, j: int, k: int|
                    in_cube((i, j, k), bound as int) && scanned((i, j, k), x as int, y as int, 0)
                        ==> #[trigger] point_recorded(points@, offset, bound, i, j, k),
            decreases bound - y,
        {
            let py: i64 = sample_coordinate(offset.y, bound, y);
            let mut z: usize = 0;
            while z < bound
                invariant
                    x < bound,
                    y < bound,
                    z <= bound,
                    bound_fits(bound),
                    px == spec_sample_coordinate(offset.x, bound, x as int),
                    py == spec_sample_coordinate(offset.y, bound, y as int),
                    points@.len() == flat_index(x as int, y as int, z as int, bound as int),
                    forall|i: int, j: int, k: int|
                        in_cube((i, j, k), bound as int) && scanned(
                            (i, j, k),
                            x as int,
                            y as int,
                            z as int,
                        ) ==> #[trigger] point_recorded(points@, offset, bound, i, j, k),
                decreases bound - z,
            {
                let pz: i64 = sample_coordinate(offset.z, bound, z);
                let ghost before = points@;
                points.push((px, py, pz));
                assert forall|i: int, j: int, k: int|
                    in_cube((i, j, k), bound as int) && scanned(
                        (i, j, k),
                        x as int,
                        y as int,
                        z + 1,
                    ) implies #[trigger] point_recorded(points@, offset, bound, i, j, k) by {
                    if scanned((i, j, k), x as int, y as int, z as int) {
                        assert(point_recorded(before, offset, bound, i, j, k));
                    }
                }
                z += 1;
            }
            proof {
                lemma_flat_index_steps(x as int, y as int, bound as int);
            }
            y += 1;
        }
        proof {
            lemma_flat_index_steps(x as int, y as int, bound as int);
        }
        x += 1;
    }
    proof {
        lemma_flat_index_steps(bound as int, 0, bound as int);
    }
    points
}

/// The weight at the place of lattice point `(x, y, z)` is one that the sampler gave
/// for the point at which that lattice point is sampled.
pub open spec fn weight_sampled<S: Fn(i64, i64, i64) -> u32>(
    samples: Seq<u32>,
    offset: Offset,
    bound: usize,
    sample: S,
    x: int,
    y: int,
    z: int,
) -> bool {
    let at = flat_index(x, y, z, bound as int);
    let p = spec_sample_point(offset, bound, x, y, z);
    0 <= at < samples.len() && call_ensures(sample, (p.0 as i64, p.1 as i64, p.2 as i64), samples[at])
}

/// Samples the density at every lattice point of the chunk at `offset`: calls `sample`
/// once for each of the chunk's sample points, in their order, and gives the weights in
/// the order in which [`MCChunk::with_settings`] takes them.
pub fn sample_lattice<S: Fn(i64, i64, i64) -> u32>(offset: Offset, bound: usize, sample: &S) -> (samples:
    Vec<u32>)
    requires
        bound_fits(bound),
        forall|x: i64, y: i64, z: i64| call_requires(*sample, (x, y, z)),
    ensures
        samples@.len() == bound * bound * bound,
        forall|x: int, y: int, z: int|
            in_cube((x, y, z), bound as int) ==> #[trigger] weight_sampled(
                samples@,
                offset,
                bound,
                *sample,
                x,
                y,
                z,
            ),
{
    let points: Vec<(i64, i64, i64)> = sample_points(offset, bound);
    let mut samples: Vec<u32> = Vec::new();
    let mut i: usize = 0;
    while i < points.len()
        invariant
            i <= points.len(),
            samples@.len() == i,
            forall|x: i64, y: i64, z: i64| call_requires(*sample, (x, y, z)),
            forall|j: int|
                0 <= j < i ==> call_ensures(
                    *sample,
                    (points@[j].0, points@[j].1, points@[j].2),
                    #[trigger] samples@[j],
                ),
        decreases points.len() - i,
    {
        let point: (i64, i64, i64) = points[i];
        samples.push(sample(point.0, point.1, point.2));
        i += 1;
    }
    assert forall|x: int, y: int, z: int| in_cube((x, y, z), bound as int) implies #[trigger] weight_sampled(
        samples@,
        offset,
        bound,
        *sample,
        x,
        y,
        z,
    ) by {
        assert(point_recorded(points@, offset, bound, x, y, z));
        let at = flat_index(x, y, z, bound as int);
        assert(call_ensures(*sample, (points@[at].0, points@[at].1, points@[at].2), samples@[at]));
    }
    samples
}

/// Whether the lattice of a chunk of this bound fits in memory.
pub fn bound_can_be_held(chunk_bounds: usize) -> (fits: bool)
    ensures
        fits == bound_fits(chunk_bounds),
{
    if chunk_bounds == 0 {
        return false;
    }
    if chunk_bounds >= 0x20_0000 {
        proof {
            if bound_fits(chunk_bounds) {
                lemma_bound_is_small(chunk_bounds as int);
            }
        }
        return false;
    }
    let b: u128 = chunk_bounds as u128;
    assert(b * b < 0x20_0000 * 0x20_0000 && b * b * b < 0x20_0000 * 0x20_0000 * 0x20_0000)
        by (nonlinear_arith)
        requires
            0 <= b < 0x20_0000,
    ;
    let points: u128 = b * b * b;
    4 * points <= isize::MAX as u128
}

/// Whether a chunk of this bound can be built with this table: the lattice fits in
/// memory and the vertices of the largest possible mesh can be counted.
pub fn settings_fit(chunk_bounds: usize, tri_table: &TriangulationTable) -> (fits: bool)
    ensures
        fits == (bound_fits(chunk_bounds) && mesh_fits(chunk_bounds, tri_table.longest_row())),
{
    if !bound_can_be_held(chunk_bounds) {
        return false;
    }
    proof {
        lemma_bound_is_small(chunk_bounds as int);
    }
    let m: u128 = (chunk_bounds - 1) as u128;
    assert(m * m < 0x20_0000 * 0x20_0000 && m * m * m < 0x20_0000 * 0x20_0000 * 0x20_0000)
        by (nonlinear_arith)
        requires
            0 <= m < 0x20_0000,
    ;
    let cells: u128 = m * m * m;
    let longest: u128 = tri_table.longest_run() as u128;
    assert(cells * longest <= 0x8000_0000_0000_0000 * 0x1_0000_0000_0000_0000) by (nonlinear_arith)
        requires
            0 <= cells < 0x8000_0000_0000_0000,
            0 <= longest < 0x1_0000_0000_0000_0000,
    ;
    cells * longest <= i32::MAX as u128
}

/// The crossing belongs to the mesh of a lattice of `m` cubes along each axis: it lies
/// in one of the cubes, on an edge that the table lists for the configuration of that
/// cube, and carries the corners of that edge and the weights found at them.
pub open spec fn vertex_of(l: Lattice, table: TriangulationTable, m: int, c: Crossing) -> bool {
    &&& c.x < m && c.y < m && c.z < m
    &&& table.spec_lookup(cube_config(l.signs, c.x as int, c.y as int, c.z as int) as u8).contains(
        c.edge,
    )
    &&& c == spec_crossing(l.weights, c.x as int, c.y as int, c.z as int, c.edge)
}

proof fn lemma_line_vertices(l: Lattice, table: TriangulationTable, m: int, x: int, y: int, n: int)
    requires
        0 <= x < m <= usize::MAX,
        0 <= y < m,
        n <= m,
    ensures
        forall|i: int|
            0 <= i < line_mesh(l, table, x, y, n).len() ==> vertex_of(
                l,
                table,
                m,
                #[trigger] line_mesh(l, table, x, y, n)[i],
            ),
    decreases n,
{
    if n > 0 {
        lemma_line_vertices(l, table, m, x, y, n - 1);
        let before = line_mesh(l, table, x, y, n - 1);
        let cell = cell_mesh(l, table, x, y, n - 1);
        let row = table.spec_lookup(cube_config(l.signs, x, y, n - 1) as u8);
        assert forall|i: int| 0 <= i < line_mesh(l, table, x, y, n).len() implies vertex_of(
            l,
            table,
            m,
            #[trigger] line_mesh(l, table, x, y, n)[i],
        ) by {
            if i < before.len() {
                assert(line_mesh(l, table, x, y, n)[i] == before[i]);
            } else {
                let k = i - before.len();
                assert(line_mesh(l, table, x, y, n)[i] == cell[k]);
                assert(row[k] == cell[k].edge);
            }
        }
    }
}

proof fn lemma_slab_vertices(l: Lattice, table: TriangulationTable, m: int, x: int, n: int)
    requires
        0 <= x < m <= usize::MAX,
        n <= m,
    ensures
        forall|i: int|
            0 <= i < slab_mesh(l, table, m, x, n).len() ==> vertex_of(
                l,
                table,
                m,
                #[trigger] slab_mesh(l, table, m, x, n)[i],
            ),
    decreases n,
{
    if n > 0 {
        lemma_slab_vertices(l, table, m, x, n - 1);
        lemma_line_vertices(l, table, m, x, n - 1, m);
        let before = slab_mesh(l, table, m, x, n - 1);
        let line = line_mesh(l, table, x, n - 1, m);
        assert forall|i: int| 0 <= i < slab_mesh(l, table, m, x, n).len() implies vertex_of(
            l,
            table,
            m,
            #[trigger] slab_mesh(l, table, m, x, n)[i],
        ) by {
            if i < before.len() {
                assert(slab_mesh(l, table, m, x, n)[i] == before[i]);
            } else {
                assert(slab_mesh(l, table, m, x, n)[i] == line[i - before.len()]);
            }
        }
    }
}

proof fn lemma_block_vertices(l: Lattice, table: TriangulationTable, m: int, n: int)
    requires
        m <= usize::MAX,
        n <= m,
    ensures
        forall|i: int|
            0 <= i < block_mesh(l, table, m, n).len() ==> vertex_of(
                l,
                table,
                m,
                #[trigger] block_mesh(l, table, m, n)[i],
            ),
    decreases n,
{
    if n > 0 {
        lemma_block_vertices(l, table, m, n - 1);
        lemma_slab_vertices(l, table, m, n - 1, m);
        let before = block_mesh(l, table, m, n - 1);
        let slab = slab_mesh(l, table, m, n - 1, m);
        assert forall|i: int| 0 <= i < block_mesh(l, table, m, n).len() implies vertex_of(
            l,
            table,
            m,
            #[trigger] block_mesh(l, table, m, n)[i],
        ) by {
            if i < before.len() {
                assert(block_mesh(l, table, m, n)[i] == before[i]);
            } else {
                assert(block_mesh(l, table, m, n)[i] == slab[i - before.len()]);
            }
        }
    }
}

/// Every vertex of a mesh lies on an edge of a cube of the lattice, and on no edge but
/// those that the table lists for the configuration of that cube: in a cube with one
/// corner above the surface, on the edges that the table gives for that corner.
pub proof fn lemma_mesh_vertices(l: Lattice, table: TriangulationTable, bound: usize)
    requires
        table.wf(),
        1 <= bound,
    ensures
        forall|i: int|
            0 <= i < mesh(l, table, bound as int).len() ==> {
                let c = #[trigger] mesh(l, table, bound as int)[i];
                &&& vertex_of(l, table, bound - 1, c)
                &&& c.edge < EDGES
                &&& c.corner_a == edge_corner_a(c.edge as int)
                &&& c.corner_b == edge_corner_b(c.edge as int)
            },
{
    lemma_block_vertices(l, table, bound - 1, bound - 1);
    assert forall|i: int| 0 <= i < mesh(l, table, bound as int).len() implies ({
        let c = #[trigger] mesh(l, table, bound as int)[i];
        c.edge < EDGES
    }) by {
        let c = mesh(l, table, bound as int)[i];
        let config = cube_config(l.signs, c.x as int, c.y as int, c.z as int) as u8;
        table.lemma_lookup(config);
        let row = table.spec_lookup(config);
        let k = choose|k: int| 0 <= k < row.len() && row[k] == c.edge;
        assert(row[k] < EDGES);
    }
}

proof fn lemma_uniform_line(l: Lattice, table: TriangulationTable, bound: int, sign: u32, x: int, y: int, n: int)
    requires
        sign == 0 || sign == 1,
        forall|p: (int, int, int)| in_cube(p, bound) ==> #[trigger] l.signs[p] == sign,
        0 <= x < bound - 1,
        0 <= y < bound - 1,
        n <= bound - 1,
    ensures
        line_mesh(l, table, x, y, n) == Seq::<Crossing>::empty(),
    decreases n,
{
    if n > 0 {
        lemma_uniform_line(l, table, bound, sign, x, y, n - 1);
        let z = n - 1;
        assert forall|k: int| 0 <= k < 8 implies corner_bit(l.signs, x, y, z, k) == sign by {
            assert(in_cube(corner_point(x, y, z, cube_corner(k)), bound));
        }
        assert(cube_config(l.signs, x, y, z) == 255 * sign);
        assert(cell_mesh(l, table, x, y, z) == Seq::<Crossing>::empty());
    }
}

proof fn lemma_uniform_slab(l: Lattice, table: TriangulationTable, bound: int, sign: u32, x: int, n: int)
    requires
        sign == 0 || sign == 1,
        forall|p: (int, int, int)| in_cube(p, bound) ==> #[trigger] l.signs[p] == sign,
        0 <= x < bound - 1,
        n <= bound - 1,
    ensures
        slab_mesh(l, table, bound - 1, x, n) == Seq::<Crossing>::empty(),
    decreases n,
{
    if n > 0 {
        lemma_uniform_slab(l, table, bound, sign, x, n - 1);
        lemma_uniform_line(l, table, bound, sign, x, n - 1, bound - 1);
    }
}

proof fn lemma_uniform_block(l: Lattice, table: TriangulationTable, bound: int, sign: u32, n: int)
    requires
        sign == 0 || sign == 1,
        forall|p: (int, int, int)| in_cube(p, bound) ==> #[trigger] l.signs[p] == sign,
        n <= bound - 1,
    ensures
        block_mesh(l, table, bound - 1, n) == Seq::<Crossing>::empty(),
    decreases n,
{
    if n > 0 {
        lemma_uniform_block(l, table, bound, sign, n - 1);
        lemma_uniform_slab(l, table, bound, sign, n - 1, bound - 1);
    }
}

/// No surface inside a homogeneous lattice: where every lattice point lies on the same
/// side of the surface, every cube has configuration 0 or 255 and the mesh is empty,
/// whatever the table holds.
pub proof fn lemma_uniform_lattice_has_no_mesh(l: Lattice, table: TriangulationTable, bound: int, sign: u32)
    requires
        sign == 0 || sign == 1,
        forall|p: (int, int, int)| in_cube(p, bound) ==> #[trigger] l.signs[p] == sign,
    ensures
        mesh(l, table, bound) == Seq::<Crossing>::empty(),
{
    lemma_uniform_block(l, table, bound, sign, bound - 1);
}

/// The configuration of a cube in which corner `k` alone lies above the surface.
pub open spec fn single_corner_config(k: int) -> int {
    if k == 0 {
        1
    } else if k == 1 {
        2
    } else if k == 2 {
        4
    } else if k == 3 {
        8
    } else if k == 4 {
        16
    } else if k == 5 {
        32
    } else if k == 6 {
        64
    } else {
        128
    }
}

/// The edge has corner `k` at one of its ends.
pub open spec fn edge_meets_corner(edge: int, k: int) -> bool {
    edge_start(edge) == k || edge_end(edge) == k
}

/// The axis along which an edge runs: 0 for x, 1 for y, 2 for z.
pub open spec fn edge_axis(edge: int) -> int {
    let a = edge_corner_a(edge);
    let b = edge_corner_b(edge);
    if a.x != b.x {
        0
    } else if a.y != b.y {
        1
    } else {
        2
    }
}

/// The row is one triangle round corner `k`: three different edges that meet there.
pub open spec fn triangle_round_corner(row: Seq<u16>, k: int) -> bool {
    &&& row.len() == 3
    &&& forall|i: int| 0 <= i < 3 ==> (#[trigger] row[i]) < EDGES && edge_meets_corner(row[i] as int, k)
    &&& row[0] != row[1] && row[1] != row[2] && row[0] != row[2]
}

/// At each corner of the cube three edges meet, one along each axis.
pub proof fn lemma_three_edges_at_a_corner(k: int, e1: int, e2: int)
    requires
        0 <= k < 8,
        0 <= e1 < EDGES,
        0 <= e2 < EDGES,
        edge_meets_corner(e1, k),
        edge_meets_corner(e2, k),
    ensures
        0 <= edge_axis(e1) < 3,
        e1 != e2 ==> edge_axis(e1) != edge_axis(e2),
{
}

/// A single cube with one corner above the surface. Its configuration is that of the
/// corner, neither 0 nor 255, and its mesh is the row of that configuration. Where the
/// row is a triangle round the corner, the mesh is three vertices, one on each of the
/// three edges that meet at the corner and so one along each axis; each has the high
/// corner at one end and a low corner at the other, so the isovalue lies between its
/// two weights, and where both weights are finite it is placed by interpolation.
pub proof fn lemma_one_high_corner(
    l: Lattice,
    table: TriangulationTable,
    isovalue: u32,
    k: int,
)
    requires
        table.wf(),
        0 <= k < 8,
        forall|p: (int, int, int)|
            in_cube(p, 2) ==> #[trigger] l.signs[p] == spec_sign(l.weights[p], isovalue),
        forall|i: int|
            0 <= i < 8 ==> (spec_ge(
                #[trigger] l.weights[corner_point(0, 0, 0, cube_corner(i))],
                isovalue,
            ) <==> i == k),
    ensures
        cube_config(l.signs, 0, 0, 0) == single_corner_config(k),
        0 < cube_config(l.signs, 0, 0, 0) < 255,
        mesh(l, table, 2) == cell_mesh(l, table, 0, 0, 0),
        mesh(l, table, 2).len() == table.spec_lookup(single_corner_config(k) as u8).len(),
        triangle_round_corner(table.spec_lookup(single_corner_config(k) as u8), k) ==> {
            let vertices = mesh(l, table, 2);
            &&& vertices.len() == 3
            &&& forall|i: int|
                0 <= i < 3 ==> {
                    let v = #[trigger] vertices[i];
                    let high = cube_corner(k);
                    &&& v.x == 0 && v.y == 0 && v.z == 0
                    &&& edge_meets_corner(v.edge as int, k)
                    &&& (v.corner_a == high) != (v.corner_b == high)
                    &&& spec_ge(v.weight_a, isovalue) != spec_ge(v.weight_b, isovalue)
                    &&& crate::utils::weight::is_finite(v.weight_a) && crate::utils::weight::is_finite(
                        v.weight_b,
                    ) ==> !v.midpoint
                }
            &&& edge_axis(vertices[0].edge as int) != edge_axis(vertices[1].edge as int)
            &&& edge_axis(vertices[1].edge as int) != edge_axis(vertices[2].edge as int)
            &&& edge_axis(vertices[0].edge as int) != edge_axis(vertices[2].edge as int)
        },
{
    assert forall|i: int| 0 <= i < 8 implies corner_bit(l.signs, 0, 0, 0, i) == (if i == k {
        1int
    } else {
        0int
    }) by {
        assert(in_cube(corner_point(0, 0, 0, cube_corner(i)), 2));
    }
    assert(cube_config(l.signs, 0, 0, 0) == single_corner_config(k));
    // the chunk is its one cube
    assert(line_mesh(l, table, 0, 0, 0) == Seq::<Crossing>::empty());
    assert(line_mesh(l, table, 0, 0, 1) == line_mesh(l, table, 0, 0, 0) + cell_mesh(l, table, 0, 0, 0));
    assert(slab_mesh(l, table, 1, 0, 0) == Seq::<Crossing>::empty());
    assert(slab_mesh(l, table, 1, 0, 1) == slab_mesh(l, table, 1, 0, 0) + line_mesh(l, table, 0, 0, 1));
    assert(block_mesh(l, table, 1, 0) == Seq::<Crossing>::empty());
    assert(block_mesh(l, table, 1, 1) == block_mesh(l, table, 1, 0) + slab_mesh(l, table, 1, 0, 1));
    assert(mesh(l, table, 2) == cell_mesh(l, table, 0, 0, 0));
    let row = table.spec_lookup(single_corner_config(k) as u8);
    if triangle_round_corner(row, k) {
        let vertices = mesh(l, table, 2);
        assert forall|i: int| 0 <= i < 3 implies ({
            let v = #[trigger] vertices[i];
            let high = cube_corner(k);
            &&& v.x == 0 && v.y == 0 && v.z == 0
            &&& edge_meets_corner(v.edge as int, k)
            &&& (v.corner_a == high) != (v.corner_b == high)
            &&& spec_ge(v.weight_a, isovalue) != spec_ge(v.weight_b, isovalue)
            &&& crate::utils::weight::is_finite(v.weight_a) && crate::utils::weight::is_finite(
                v.weight_b,
            ) ==> !v.midpoint
        }) by {
            let e = row[i] as int;
            assert(vertices[i] == spec_crossing(l.weights, 0, 0, 0, row[i]));
            assert(0 <= edge_start(e) < 8 && 0 <= edge_end(e) < 8 && edge_start(e) != edge_end(e));
        }
        lemma_three_edges_at_a_corner(k, row[0] as int, row[1] as int);
        lemma_three_edges_at_a_corner(k, row[1] as int, row[2] as int);
        lemma_three_edges_at_a_corner(k, row[0] as int, row[2] as int);
    }
}

/// A chunk: its lattice of signs and weights, and the mesh drawn through it.
pub struct MCChunk {
    vertices: Vec<Crossing>,
    indices: Vec<u32>,
    grid: Grid,
    grid_weights: Grid,
    offset: Offset,
    chunk_bounds: usize,
    isovalue: u32,
}

impl MCChunk {
    /// The signs and weights of the lattice points.
    pub closed spec fn lattice(&self) -> Lattice {
        Lattice { signs: grid_cells(self.grid), weights: grid_cells(self.grid_weights) }
    }

    /// The vertices of the mesh, as crossings of the surface with lattice edges.
    pub closed spec fn spec_vertices(&self) -> Seq<Crossing> {
        self.vertices@
    }

    /// One index for each vertex, in order, three to a triangle.
    pub closed spec fn spec_indices(&self) -> Seq<u32> {
        self.indices@
    }

    pub closed spec fn spec_offset(&self) -> Offset {
        self.offset
    }

    pub closed spec fn spec_chunk_bounds(&self) -> usize {
        self.chunk_bounds
    }

    pub closed spec fn spec_isovalue(&self) -> u32 {
        self.isovalue
    }

    /// Both grids are cubes of `chunk_bounds` points along each axis.
    pub open spec fn shaped(&self) -> bool {
        let n = self.spec_chunk_bounds() as int;
        &&& bound_fits(self.spec_chunk_bounds())
        &&& forall|p: (int, int, int)| #[trigger] self.lattice().signs.dom().contains(p) <==> in_cube(p, n)
        &&& forall|p: (int, int, int)|
            #[trigger] self.lattice().weights.dom().contains(p) <==> in_cube(p, n)
    }

    /// Every lattice point carries the sign of its weight: 1 exactly where the weight is
    /// at or above the isovalue.
    pub open spec fn labelled(&self) -> bool {
        &&& self.shaped()
        &&& forall|p: (int, int, int)|
            in_cube(p, self.spec_chunk_bounds() as int) ==> #[trigger] self.lattice().signs[p]
                == spec_sign(self.lattice().weights[p], self.spec_isovalue())
    }

    /// Label consistency: in a labelled chunk the sign of a lattice point is 1 exactly
    /// where its weight is at or above the isovalue.
    pub proof fn lemma_label_consistency(&self, x: int, y: int, z: int)
        requires
            self.labelled(),
            in_cube((x, y, z), self.spec_chunk_bounds() as int),
        ensures
            self.lattice().signs[(x, y, z)] == 1 <==> spec_ge(
                self.lattice().weights[(x, y, z)],
                self.spec_isovalue(),
            ),
            self.lattice().signs[(x, y, z)] == 0 || self.lattice().signs[(x, y, z)] == 1,
    {
    }

    /// The lattice is labelled and the indices count the vertices.
    pub open spec fn wf(&self) -> bool {
        &&& self.labelled()
        &&& self.spec_indices().len() == self.spec_vertices().len()
        &&& self.spec_indices().len() <= i32::MAX
        &&& counting(self.spec_indices())
    }

    /// A chunk of the default bound and isovalue. See [`MCChunk::with_settings`].
    pub fn new(offset: Offset, samples: &Vec<u32>, tri_table: &TriangulationTable) -> (chunk: MCChunk)
        requires
            tri_table.wf(),
            samples.len() == CHUNK_BOUNDS * CHUNK_BOUNDS * CHUNK_BOUNDS,
            mesh_fits(CHUNK_BOUNDS, tri_table.longest_row()),
        ensures
            chunk.wf(),
            chunk.spec_offset() == offset,
            chunk.spec_chunk_bounds() == CHUNK_BOUNDS,
            chunk.spec_isovalue() == TEST_ISOVALUE_BITS,
            forall|x: int, y: int, z: int|
                0 <= x < CHUNK_BOUNDS && 0 <= y < CHUNK_BOUNDS && 0 <= z < CHUNK_BOUNDS
                    ==> #[trigger] chunk.lattice().weights[(x, y, z)] == samples[flat_index(
                    x,
                    y,
                    z,
                    CHUNK_BOUNDS as int,
                )],
            chunk.spec_vertices() == mesh(chunk.lattice(), *tri_table, CHUNK_BOUNDS as int),
    {
        MCChunk::with_settings(offset, CHUNK_BOUNDS, TEST_ISOVALUE_BITS, samples, tri_table)
    }

    /// Builds the chunk at `offset` from the densities sampled at its lattice points:
    /// `samples[(x * chunk_bounds + y) * chunk_bounds + z]` is the weight of lattice point
    /// `(x, y, z)`. Labels every point against `isovalue` and draws the mesh.
    pub fn with_settings(
        offset: Offset,
        chunk_bounds: usize,
        isovalue: u32,
        samples: &Vec<u32>,
        tri_table: &TriangulationTable,
    ) -> (chunk: MCChunk)
        requires
            tri_table.wf(),
            bound_fits(chunk_bounds),
            samples.len() == chunk_bounds * chunk_bounds * chunk_bounds,
            mesh_fits(chunk_bounds, tri_table.longest_row()),
        ensures
            chunk.wf(),
            chunk.spec_offset() == offset,
            chunk.spec_chunk_bounds() == chunk_bounds,
            chunk.spec_isovalue() == isovalue,
            forall|x: int, y: int, z: int|
                0 <= x < chunk_bounds && 0 <= y < chunk_bounds && 0 <= z < chunk_bounds
                    ==> #[trigger] chunk.lattice().weights[(x, y, z)] == samples[flat_index(
                    x,
                    y,
                    z,
                    chunk_bounds as int,
                )],
            chunk.spec_vertices() == mesh(chunk.lattice(), *tri_table, chunk_bounds as int),
    {
        let mut mc_chunk = MCChunk {
            vertices: Vec::new(),
            indices: Vec::new(),
            grid: grid_filled(chunk_bounds, 0),
            grid_weights: grid_filled(chunk_bounds, 0),
            offset,
            chunk_bounds,
            isovalue,
        };
        mc_chunk.label_initial_vertices(samples);
        mc_chunk.generate_vertices(tri_table);
        mc_chunk
    }

    /// As [`MCChunk::with_settings`], for a caller that has not tested the limits: gives
    /// no chunk where the lattice cannot be held, where the vertices of the largest
    /// possible mesh cannot be counted, or where the samples are not one for each lattice
    /// point.
    pub fn try_with_settings(
        offset: Offset,
        chunk_bounds: usize,
        isovalue: u32,
        samples: &Vec<u32>,
        tri_table: &TriangulationTable,
    ) -> (built: Option<MCChunk>)
        requires
            tri_table.wf(),
        ensures
            built is Some <==> {
                &&& bound_fits(chunk_bounds)
                &&& mesh_fits(chunk_bounds, tri_table.longest_row())
                &&& samples.len() == chunk_bounds * chunk_bounds * chunk_bounds
            },
            built matches Some(chunk) ==> {
                &&& chunk.wf()
                &&& chunk.spec_offset() == offset
                &&& chunk.spec_chunk_bounds() == chunk_bounds
                &&& chunk.spec_isovalue() == isovalue
                &&& forall|x: int, y: int, z: int|
                    0 <= x < chunk_bounds && 0 <= y < chunk_bounds && 0 <= z < chunk_bounds
                        ==> #[trigger] chunk.lattice().weights[(x, y, z)] == samples[flat_index(
                        x,
                        y,
                        z,
                        chunk_bounds as int,
                    )]
                &&& chunk.spec_vertices() == mesh(chunk.lattice(), *tri_table, chunk_bounds as int)
            },
    {
        if !settings_fit(chunk_bounds, tri_table) {
            return None;
        }
        assert(chunk_bounds * chunk_bounds <= chunk_bounds * chunk_bounds * chunk_bounds)
            by (nonlinear_arith)
            requires
                1 <= chunk_bounds,
        ;
        if samples.len() != chunk_bounds * chunk_bounds * chunk_bounds {
            return None;
        }
        Some(MCChunk::with_settings(offset, chunk_bounds, isovalue, samples, tri_table))
    }

    /// The offset at which the chunk stands in the grid of chunks.
    pub fn offset(&self) -> (o: Offset)
        ensures
            o == self.spec_offset(),
    {
        self.offset
    }

    /// The number of lattice points along each axis.
    pub fn chunk_bounds(&self) -> (n: usize)
        ensures
            n == self.spec_chunk_bounds(),
    {
        self.chunk_bounds
    }

    /// The isovalue against which the lattice was labelled.
    pub fn isovalue(&self) -> (v: u32)
        ensures
            v == self.spec_isovalue(),
    {
        self.isovalue
    }

    /// The vertices of the mesh.
    pub fn vertices(&self) -> (v: &Vec<Crossing>)
        ensures
            v@ == self.spec_vertices(),
    {
        &self.vertices
    }

    /// The indices of the mesh.
    pub fn indices(&self) -> (v: &Vec<u32>)
        ensures
            v@ == self.spec_indices(),
    {
        &self.indices
    }

    /// The weight of lattice point `(x, y, z)`.
    pub fn weight(&self, x: usize, y: usize, z: usize) -> (w: u32)
        requires
            self.shaped(),
            x < self.spec_chunk_bounds(),
            y < self.spec_chunk_bounds(),
            z < self.spec_chunk_bounds(),
        ensures
            w == self.lattice().weights[(x as int, y as int, z as int)],
    {
        assert(in_cube((x as int, y as int, z as int), self.chunk_bounds as int));
        assert(self.lattice().weights == grid_cells(self.grid_weights));
        grid_get(&self.grid_weights, x, y, z)
    }

    /// The sign of lattice point `(x, y, z)`: `PLUS` exactly where the weight is at or
    /// above the isovalue.
    pub fn sign(&self, x: usize, y: usize, z: usize) -> (m: Mask)
        requires
            self.labelled(),
            x < self.spec_chunk_bounds(),
            y < self.spec_chunk_bounds(),
            z < self.spec_chunk_bounds(),
        ensures
            m == Mask::PLUS <==> spec_ge(
                self.lattice().weights[(x as int, y as int, z as int)],
                self.spec_isovalue(),
            ),
            m == Mask::PLUS <==> self.lattice().signs[(x as int, y as int, z as int)] == 1,
    {
        assert(in_cube((x as int, y as int, z as int), self.chunk_bounds as int));
        assert(self.lattice().signs == grid_cells(self.grid));
        if grid_get(&self.grid, x, y, z) == 1 {
            Mask::PLUS
        } else {
            Mask::MINUS
        }
    }

    /// Stores the sampled weight of every lattice point and labels the point with its sign.
    fn label_initial_vertices(&mut self, samples: &Vec<u32>)
        requires
            old(self).shaped(),
            samples.len() == old(self).spec_chunk_bounds() * old(self).spec_chunk_bounds() * old(self).spec_chunk_bounds(),
        ensures
            final(self).labelled(),
            final(self).spec_offset() == old(self).spec_offset(),
            final(self).spec_chunk_bounds() == old(self).spec_chunk_bounds(),
            final(self).spec_isovalue() == old(self).spec_isovalue(),
            final(self).spec_vertices() == old(self).spec_vertices(),
            final(self).spec_indices() == old(self).spec_indices(),
            forall|p: (int, int, int)|
                in_cube(p, old(self).spec_chunk_bounds() as int) ==> #[trigger] final(self).lattice().weights[p] == samples[flat_index(
                    p.0,
                    p.1,
                    p.2,
                    old(self).spec_chunk_bounds() as int,
                )],
    {
        let n: usize = self.chunk_bounds;
        let isovalue: u32 = self.isovalue;
        let mut x: usize = 0;
        while x < n
            invariant
                x <= n,
                n == self.chunk_bounds,
                isovalue == self.isovalue,
                self.shaped(),
                self.offset == old(self).offset,
                self.chunk_bounds == old(self).chunk_bounds,
                self.isovalue == old(self).isovalue,
                self.vertices == old(self).vertices,
                self.indices == old(self).indices,
                samples.len() == n * n * n,
                forall|p: (int, int, int)|
                    in_cube(p, n as int) && scanned(p, x as int, 0, 0) ==> {
                        &&& #[trigger] grid_cells(self.grid_weights)[p] == samples[flat_index(
                            p.0,
                            p.1,
                            p.2,
                            n as int,
                        )]
                        &&& grid_cells(self.grid)[p] == spec_sign(
                            grid_cells(self.grid_weights)[p],
                            isovalue,
                        )
                    },
            decreases n - x,
        {
            let mut y: usize = 0;
            while y < n
                invariant
                    x < n,
                    y <= n,
                    n == self.chunk_bounds,
                    isovalue == self.isovalue,
                    self.shaped(),
                    self.offset == old(self).offset,
                    self.chunk_bounds == old(self).chunk_bounds,
                    self.isovalue == old(self).isovalue,
                    self.vertices == old(self).vertices,
                    self.indices == old(self).indices,
                    samples.len() == n * n * n,
                    forall|p: (int, int, int)|
                        in_cube(p, n as int) && scanned(p, x as int, y as int, 0) ==> {
                            &&& #[trigger] grid_cells(self.grid_weights)[p] == samples[flat_index(
                                p.0,
                                p.1,
                                p.2,
                                n as int,
                            )]
                            &&& grid_cells(self.grid)[p] == spec_sign(
                                grid_cells(self.grid_weights)[p],
                                isovalue,
                            )
                        },
                decreases n - y,
            {
                let mut z: usize = 0;
                while z < n
                    invariant
                        x < n,
                        y < n,
                        z <= n,
                        n == self.chunk_bounds,
                        isovalue == self.isovalue,
                        self.shaped(),
                        self.offset == old(self).offset,
                        self.chunk_bounds == old(self).chunk_bounds,
                        self.isovalue == old(self).isovalue,
                        self.vertices == old(self).vertices,
                        self.indices == old(self).indices,
                        samples.len() == n * n * n,
                        forall|p: (int, int, int)|
                            in_cube(p, n as int) && scanned(p, x as int, y as int, z as int) ==> {
                                &&& #[trigger] grid_cells(self.grid_weights)[p] == samples[flat_index(
                                    p.0,
                                    p.1,
                                    p.2,
                                    n as int,
                                )]
                                &&& grid_cells(self.grid)[p] == spec_sign(
                                    grid_cells(self.grid_weights)[p],
                                    isovalue,
                                )
                            },
                    decreases n - z,
                {
                    proof {
                        lemma_flat_index_bounds(x as int, y as int, z as int, n as int);
                    }
                    let weight: u32 = samples[(x * n + y) * n + z];
                    assert(self.lattice().weights == grid_cells(self.grid_weights));
                    assert(self.lattice().signs == grid_cells(self.grid));
                    assert(in_cube((x as int, y as int, z as int), n as int));
                    grid_set(&mut self.grid_weights, x, y, z, weight);
                    if weight_ge(weight, isovalue) {
                        grid_set(&mut self.grid, x, y, z, 1);
                    } else {
                        grid_set(&mut self.grid, x, y, z, 0);
                    }
                    z += 1;
                }
                y += 1;
            }
            x += 1;
        }
    }

    /// The configuration of the cube at `(x, y, z)`.
    fn cube_configuration(&self, x: usize, y: usize, z: usize) -> (cube_config: u8)
        requires
            self.labelled(),
            x + 1 < self.spec_chunk_bounds(),
            y + 1 < self.spec_chunk_bounds(),
            z + 1 < self.spec_chunk_bounds(),
        ensures
            cube_config == self::cube_config(self.lattice().signs, x as int, y as int, z as int),
    {
        let ghost n = self.chunk_bounds as int;
        assert(self.lattice().signs == grid_cells(self.grid));
        assert(in_cube((x as int, y as int, z as int), n));
        assert(in_cube((x + 1, y as int, z as int), n));
        assert(in_cube((x + 1, y as int, z + 1), n));
        assert(in_cube((x as int, y as int, z + 1), n));
        assert(in_cube((x as int, y + 1, z as int), n));
        assert(in_cube((x + 1, y + 1, z as int), n));
        assert(in_cube((x + 1, y + 1, z + 1), n));
        assert(in_cube((x as int, y + 1, z + 1), n));
        let s0: u8 = grid_get(&self.grid, x, y, z) as u8;
        let s1: u8 = grid_get(&self.grid, x + 1, y, z) as u8;
        let s2: u8 = grid_get(&self.grid, x + 1, y, z + 1) as u8;
        let s3: u8 = grid_get(&self.grid, x, y, z + 1) as u8;
        let s4: u8 = grid_get(&self.grid, x, y + 1, z) as u8;
        let s5: u8 = grid_get(&self.grid, x + 1, y + 1, z) as u8;
        let s6: u8 = grid_get(&self.grid, x + 1, y + 1, z + 1) as u8;
        let s7: u8 = grid_get(&self.grid, x, y + 1, z + 1) as u8;

        let mut cube_config: u8 = 0;
        cube_config |= s0 << 0;
        cube_config |= s1 << 1;
        cube_config |= s2 << 2;
        cube_config |= s3 << 3;
        cube_config |= s4 << 4;
        cube_config |= s5 << 5;
        cube_config |= s6 << 6;
        cube_config |= s7 << 7;
        assert(cube_config == s0 + 2 * s1 + 4 * s2 + 8 * s3 + 16 * s4 + 32 * s5 + 64 * s6 + 128
            * s7) by (bit_vector)
            requires
                s0 <= 1 && s1 <= 1 && s2 <= 1 && s3 <= 1 && s4 <= 1 && s5 <= 1 && s6 <= 1 && s7 <= 1,
                cube_config == ((((((((0u8 | (s0 << 0u8)) | (s1 << 1u8)) | (s2 << 2u8)) | (s3
                    << 3u8)) | (s4 << 4u8)) | (s5 << 5u8)) | (s6 << 6u8)) | (s7 << 7u8)),
        ;
        cube_config
    }

    /// Adds to the mesh the vertices of the cube at `(x, y, z)`.
    fn march_cube(
        &self,
        tri_table: &TriangulationTable,
        x: usize,
        y: usize,
        z: usize,
        vertices: &mut Vec<Crossing>,
        indices: &mut Vec<u32>,
    )
        requires
            self.labelled(),
            tri_table.wf(),
            x + 1 < self.spec_chunk_bounds(),
            y + 1 < self.spec_chunk_bounds(),
            z + 1 < self.spec_chunk_bounds(),
            old(indices)@.len() == old(vertices)@.len(),
            counting(old(indices)@),
            old(vertices)@.len() + tri_table.longest_row() <= i32::MAX,
        ensures
            final(vertices)@ == old(vertices)@ + cell_mesh(
                self.lattice(),
                *tri_table,
                x as int,
                y as int,
                z as int,
            ),
            final(indices)@.len() == final(vertices)@.len(),
            counting(final(indices)@),
    {
        let cube_config: u8 = self.cube_configuration(x, y, z);
        let ghost cell = cell_mesh(self.lattice(), *tri_table, x as int, y as int, z as int);
        if cube_config != 0 && cube_config != 255 {
            let cube_vertices: &Vec<u16> = tri_table.lookup(cube_config);
            let mut i: usize = 0;
            while i < cube_vertices.len()
                invariant
                    i <= cube_vertices.len(),
                    self.labelled(),
                    tri_table.wf(),
                    x + 1 < self.spec_chunk_bounds(),
                    y + 1 < self.spec_chunk_bounds(),
                    z + 1 < self.spec_chunk_bounds(),
                    cube_vertices@ == tri_table.spec_lookup(cube_config),
                    valid_row(cube_vertices@),
                    cube_vertices@.len() <= tri_table.longest_row(),
                    cell == cell_mesh(self.lattice(), *tri_table, x as int, y as int, z as int),
                    cube_config == self::cube_config(self.lattice().signs, x as int, y as int, z as int),
                    old(vertices)@.len() + tri_table.longest_row() <= i32::MAX,
                    vertices@ == old(vertices)@ + cell.subrange(0, i as int),
                    indices@.len() == vertices@.len(),
                    counting(indices@),
                decreases cube_vertices.len() - i,
            {
                let vert: u16 = cube_vertices[i];
                let (corner_a, corner_b) = tri_table.corner_offsets(vert);
                proof {
                    crate::entities::table_reader::lemma_edges_of_the_cube(vert as int);
                    let n = self.chunk_bounds as int;
                    assert(self.lattice().weights == grid_cells(self.grid_weights));
                    assert(in_cube(corner_point(x as int, y as int, z as int, corner_a), n));
                    assert(in_cube(corner_point(x as int, y as int, z as int, corner_b), n));
                }
                let corner_a_weight: u32 = grid_get(
                    &self.grid_weights,
                    x + corner_a.x,
                    y + corner_a.y,
                    z + corner_a.z,
                );
                let corner_b_weight: u32 = grid_get(
                    &self.grid_weights,
                    x + corner_b.x,
                    y + corner_b.y,
                    z + corner_b.z,
                );
                let crossing = Crossing {
                    x,
                    y,
                    z,
                    edge: vert,
                    corner_a,
                    corner_b,
                    weight_a: corner_a_weight,
                    weight_b: corner_b_weight,
                    midpoint: !weight_interpolable(corner_a_weight, corner_b_weight),
                };
                assert(crossing == cell[i as int]);
                assert(cell.subrange(0, i + 1) == cell.subrange(0, i as int).push(crossing));
                let index: u32 = vertices.len() as u32;
                vertices.push(crossing);
                indices.push(index);
                i += 1;
            }
            assert(cell.subrange(0, i as int) == cell);
        } else {
            assert(cell.len() == 0);
            assert(vertices@ == old(vertices)@ + cell);
        }
    }

    /// Draws the mesh through the labelled lattice: every cube in turn, x outermost and
    /// z innermost.
    fn generate_vertices(&mut self, tri_table: &TriangulationTable)
        requires
            old(self).labelled(),
            tri_table.wf(),
            mesh_fits(old(self).spec_chunk_bounds(), tri_table.longest_row()),
        ensures
            final(self).wf(),
            final(self).lattice() == old(self).lattice(),
            final(self).spec_offset() == old(self).spec_offset(),
            final(self).spec_chunk_bounds() == old(self).spec_chunk_bounds(),
            final(self).spec_isovalue() == old(self).spec_isovalue(),
            final(self).spec_vertices() == mesh(
                old(self).lattice(),
                *tri_table,
                old(self).spec_chunk_bounds() as int,
            ),
    {
        let mut vertices_table: Vec<Crossing> = Vec::new();
        let mut indices_table: Vec<u32> = Vec::new();
        let m: usize = self.chunk_bounds - 1;
        let ghost l = self.lattice();
        let ghost longest = tri_table.longest_row() as int;
        let ghost cells = m * m * m;
        let ghost done: int = 0;
        proof {
            lemma_flat_index_steps(0, 0, m as int);
        }

        let mut x: usize = 0;
        while x < m
            invariant
                x <= m,
                m + 1 == self.chunk_bounds,
                self.labelled(),
                tri_table.wf(),
                l == self.lattice(),
                longest == tri_table.longest_row(),
                cells == m * m * m,
                cells * longest <= i32::MAX,
                done == flat_index(x as int, 0, 0, m as int),
                vertices_table@.len() <= done * longest,
                vertices_table@ == block_mesh(l, *tri_table, m as int, x as int),
                indices_table@.len() == vertices_table@.len(),
                counting(indices_table@),
            decreases m - x,
        {
            let mut y: usize = 0;
            while y < m
                invariant
                    x < m,
                    y <= m,
                    m + 1 == self.chunk_bounds,
                    self.labelled(),
                    tri_table.wf(),
                    l == self.lattice(),
                    longest == tri_table.longest_row(),
                    cells == m * m * m,
                    cells * longest <= i32::MAX,
                    done == flat_index(x as int, y as int, 0, m as int),
                    vertices_table@.len() <= done * longest,
                    vertices_table@ == block_mesh(l, *tri_table, m as int, x as int) + slab_mesh(
                        l,
                        *tri_table,
                        m as int,
                        x as int,
                        y as int,
                    ),
                    indices_table@.len() == vertices_table@.len(),
                    counting(indices_table@),
                decreases m - y,
            {
                let mut z: usize = 0;
                while z < m
                    invariant
                        x < m,
                        y < m,
                        z <= m,
                        m + 1 == self.chunk_bounds,
                        self.labelled(),
                        tri_table.wf(),
                        l == self.lattice(),
                        longest == tri_table.longest_row(),
                        cells == m * m * m,
                        cells * longest <= i32::MAX,
                        done == flat_index(x as int, y as int, z as int, m as int),
                        vertices_table@.len() <= done * longest,
                        vertices_table@ == block_mesh(l, *tri_table, m as int, x as int) + slab_mesh(
                            l,
                            *tri_table,
                            m as int,
                            x as int,
                            y as int,
                        ) + line_mesh(l, *tri_table, x as int, y as int, z as int),
                        indices_table@.len() == vertices_table@.len(),
                        counting(indices_table@),
                    decreases m - z,
                {
                    proof {
                        lemma_flat_index_bounds(x as int, y as int, z as int, m as int);
                        lemma_room_for_cell(done, cells, longest);
                        tri_table.lemma_lookup(
                            cube_config(l.signs, x as int, y as int, z as int) as u8,
                        );
                    }
                    self.march_cube(tri_table, x, y, z, &mut vertices_table, &mut indices_table);
                    proof {
                        done = done + 1;
                    }
                    z += 1;
                }
                proof {
                    lemma_flat_index_steps(x as int, y as int, m as int);
                }
                y += 1;
            }
            proof {
                lemma_flat_index_steps(x as int, y as int, m as int);
            }
            x += 1;
        }

        self.vertices = vertices_table;
        self.indices = indices_table;
    }
}

} // verus!
