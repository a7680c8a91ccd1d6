//! Index layout of the procedural sphere and cylinder meshes, and of the
//! shared buffer that holds both.
//!
//! Both meshes are grids of rings: ring `r` holds `sectors + 1` vertices (the
//! last one closes the ring over the first), and vertex `(r, s)` stands at
//! position `r * (sectors + 1) + s` of the vertex list. The sphere has
//! `stacks + 1` rings from pole to pole; the cylinder has two, one at each end.
//! Where each vertex lies is computed by the caller from its grid point.
use vstd::prelude::*;

use vstd::arithmetic::div_mod::lemma_fundamental_div_mod_converse;

verus! {

/// A vertex of a tessellation grid: its ring and its position around the ring.
#[derive(Clone, Copy, Debug, PartialEq, Eq)]
pub struct GridPoint {
    pub ring: usize,
    pub sector: usize,
}

pub open spec fn as_ints(s: Seq<u32>) -> Seq<int> {
    s.map_values(|x: u32| x as int)
}

/// Number of vertices of a grid of `rings` rings of `sectors + 1` vertices.
pub open spec fn grid_len(rings: int, sectors: int) -> int {
    rings * (sectors + 1)
}

/// The grid point that stands at position `k` of the vertex list.
pub open spec fn grid_point(sectors: int, k: int) -> GridPoint {
    GridPoint { ring: (k / (sectors + 1)) as usize, sector: (k % (sectors + 1)) as usize }
}

/// The triangles of the sphere quad at stack `i`, sector `j`. The quads of the
/// top stack lose their first triangle and those of the bottom stack their
/// last: at the poles these would be degenerate.
pub open spec fn sphere_quad(stacks: int, sectors: int, i: int, j: int) -> Seq<int> {
    let k1 = i * (sectors + 1) + j;
    let k2 = k1 + sectors + 1;
    (if i != 0 {
        seq![k1, k2, k1 + 1]
    } else {
        Seq::empty()
    }) + (if i != stacks - 1 {
        seq![k1 + 1, k2, k2 + 1]
    } else {
        Seq::empty()
    })
}

/// The triangles of the first `j` quads of stack `i`.
pub open spec fn sphere_row(stacks: int, sectors: int, i: int, j: nat) -> Seq<int>
    decreases j,
{
    if j == 0 {
        Seq::empty()
    } else {
        sphere_row(stacks, sectors, i, (j - 1) as nat) + sphere_quad(stacks, sectors, i, j - 1)
    }
}

/// The triangles of the first `i` stacks.
pub open spec fn sphere_rows(stacks: int, sectors: int, i: nat) -> Seq<int>
    decreases i,
{
    if i == 0 {
        Seq::empty()
    } else {
        sphere_rows(stacks, sectors, (i - 1) as nat) + sphere_row(
            stacks,
            sectors,
            i - 1,
            sectors as nat,
        )
    }
}

/// The index list of the sphere mesh, stack by stack, sector by sector.
pub open spec fn sphere_index_list(stacks: nat, sectors: nat) -> Seq<int> {
    sphere_rows(stacks as int, sectors as int, stacks)
}

/// The index list of the cylinder's first `j` quads, each joining ring 0 to ring 1.
pub open spec fn cylinder_quads(sectors: int, j: nat) -> Seq<int>
    decreases j,
{
    if j == 0 {
        Seq::empty()
    } else {
        let k1 = j - 1;
        let k2 = k1 + sectors + 1;
        cylinder_quads(sectors, (j - 1) as nat) + seq![k1, k1 + 1, k2, k2, k1 + 1, k2 + 1]
    }
}

/// The index list of the cylinder mesh.
pub open spec fn cylinder_index_list(sectors: nat) -> Seq<int> {
    cylinder_quads(sectors as int, sectors)
}

/// Every index of `s` names one of `n` vertices.
pub open spec fn indices_below(s: Seq<u32>, n: int) -> bool {
    forall|k: int| 0 <= k < s.len() ==> (#[trigger] s[k]) < n
}

/// The sphere's index list: `(stack_count + 1) * (sector_count + 1)` vertices
/// are named, each index below that count.
pub fn sphere_indices(stack_count: usize, sector_count: usize) -> (r: Vec<u32>)
    requires
        grid_len(stack_count + 1, sector_count as int) <= u32::MAX,
    ensures
        as_ints(r@) == sphere_index_list(stack_count as nat, sector_count as nat),
        indices_below(r@, grid_len(stack_count + 1, sector_count as int)),
{
    let ghost stacks = stack_count as int;
    let ghost sectors = sector_count as int;
    let ghost count = grid_len(stack_count + 1, sector_count as int);
    proof {
        assert(sectors + 1 <= count) by (nonlinear_arith)
            requires
                count == (stacks + 1) * (sectors + 1),
                stacks >= 0,
                sectors >= 0,
        ;
    }
    let w: usize = sector_count + 1;
    let mut indices: Vec<u32> = Vec::new();
    let mut i: usize = 0;
    proof {
        assert(as_ints(indices@) =~= Seq::<int>::empty());
    }
    while i < stack_count
        invariant
            i <= stack_count,
            w == sector_count + 1,
            count == (stacks + 1) * w,
            count <= u32::MAX,
            stacks == stack_count,
            sectors == sector_count,
            as_ints(indices@) == sphere_rows(stacks, sectors, i as nat),
            indices_below(indices@, count),
        decreases stack_count - i,
    {
        proof {
            assert((i + 2) * w <= count) by (nonlinear_arith)
                requires
                    count == (stacks + 1) * w,
                    i < stacks,
                    w >= 1,
            ;
            assert(i * w + w == (i + 1) * w) by (nonlinear_arith);
            assert((i + 1) * w + w == (i + 2) * w) by (nonlinear_arith);
        }
        let start: u32 = (i * w) as u32;
        let mut k1: u32 = start;
        let mut k2: u32 = start + w as u32;
        let mut j: usize = 0;
        let ghost rows_before = as_ints(indices@);
        proof {
            assert(as_ints(indices@) =~= rows_before + sphere_row(stacks, sectors, i as int, 0));
        }
        while j < sector_count
            invariant
                i < stack_count,
                j <= sector_count,
                w == sector_count + 1,
                count == (stacks + 1) * w,
                (i + 2) * w <= count,
                i * w + w == (i + 1) * w,
                (i + 1) * w + w == (i + 2) * w,
                count <= u32::MAX,
                stacks == stack_count,
                sectors == sector_count,
                k1 == i * w + j,
                k2 == k1 + w,
                rows_before == sphere_rows(stacks, sectors, i as nat),
                as_ints(indices@) == rows_before + sphere_row(stacks, sectors, i as int, j as nat),
                indices_below(indices@, count),
            decreases sector_count - j,
        {
            let ghost before = indices@;
            if i != 0 {
                indices.push(k1);
                indices.push(k2);
                indices.push(k1 + 1);
            }
            let ghost middle = indices@;
            if i != stack_count - 1 {
                indices.push(k1 + 1);
                indices.push(k2);
                indices.push(k2 + 1);
            }
            proof {
                let q = sphere_quad(stacks, sectors, i as int, j as int);
                assert(as_ints(indices@) =~= as_ints(before) + q);
                assert(rows_before + sphere_row(stacks, sectors, i as int, (j + 1) as nat) =~= (
                rows_before + sphere_row(stacks, sectors, i as int, j as nat)) + q);
                assert forall|k: int| 0 <= k < indices@.len() implies (#[trigger] indices@[k])
                    < count by {
                    if k >= before.len() {
                        assert(as_ints(indices@)[k] == indices@[k] as int);
                    }
                }
            }
            k1 += 1;
            k2 += 1;
            j += 1;
        }
        i += 1;
    }
    indices
}

/// The cylinder's index list: `2 * (sector_count + 1)` vertices are named, each
/// index below that count.
pub fn cylinder_indices(sector_count: usize) -> (r: Vec<u32>)
    requires
        grid_len(2, sector_count as int) <= u32::MAX,
    ensures
        as_ints(r@) == cylinder_index_list(sector_count as nat),
        indices_below(r@, grid_len(2, sector_count as int)),
{
    let ghost count = grid_len(2, sector_count as int);
    let ghost sectors = sector_count as int;
    let mut indices: Vec<u32> = Vec::new();
    let mut k1: u32 = 0;
    let mut k2: u32 = (sector_count + 1) as u32;
    let mut j: usize = 0;
    proof {
        assert(as_ints(indices@) =~= Seq::<int>::empty());
    }
    while j < sector_count
        invariant
            j <= sector_count,
            count == 2 * (sector_count + 1),
            count <= u32::MAX,
            sectors == sector_count,
            k1 == j,
            k2 == j + sector_count + 1,
            as_ints(indices@) == cylinder_quads(sectors, j as nat),
            indices_below(indices@, count),
        decreases sector_count - j,
    {
        let ghost before = indices@;
        indices.push(k1);
        indices.push(k1 + 1);
        indices.push(k2);
        indices.push(k2);
        indices.push(k1 + 1);
        indices.push(k2 + 1);
        proof {
            assert(as_ints(indices@) =~= cylinder_quads(sectors, (j + 1) as nat));
            assert forall|k: int| 0 <= k < indices@.len() implies (#[trigger] indices@[k])
                < count by {
                if k >= before.len() {
                    assert(as_ints(indices@)[k] == indices@[k] as int);
                }
            }
        }
        k1 += 1;
        k2 += 1;
        j += 1;
    }
    indices
}

/// A contiguous range `start .. end` of the index list.
#[derive(Clone, Copy, Debug, PartialEq, Eq)]
pub struct IndexRange {
    pub start: u32,
    pub end: u32,
}

/// One vertex list and one index list holding both meshes: the sphere's
/// indices are `sphere_index_range`, the cylinder's `cylinder_index_range`.
pub struct MeshBuffers<V> {
    pub vertices: Vec<V>,
    pub indices: Vec<u32>,
    pub sphere_index_range: IndexRange,
    pub cylinder_index_range: IndexRange,
}

/// `s` with `by` added to every member.
pub open spec fn shift(s: Seq<int>, by: int) -> Seq<int> {
    s.map_values(|x: int| x + by)
}

/// `s` with `by` added to every index.
pub open spec fn offset_by(s: Seq<u32>, by: int) -> Seq<int> {
    s.map_values(|x: u32| x as int + by)
}

/// The shared index list: the first mesh's indices, then the second's moved
/// past the first mesh's `first_vertices` vertices.
pub open spec fn merged_index_list(first: Seq<u32>, second: Seq<u32>, first_vertices: int) -> Seq<
    int,
> {
    as_ints(first) + offset_by(second, first_vertices)
}

/// Where the first mesh's indices stay below its `v1` vertices and the second
/// mesh's below its `v2`, every index of the shared list stays below `v1 + v2`.
pub proof fn lemma_merged_indices_below(first: Seq<u32>, second: Seq<u32>, v1: nat, v2: nat)
    requires
        indices_below(first, v1 as int),
        indices_below(second, v2 as int),
    ensures
        forall|k: int|
            0 <= k < merged_index_list(first, second, v1 as int).len() ==> 0 <= #[trigger] merged_index_list(
                first,
                second,
                v1 as int,
            )[k] < v1 + v2,
{
    let m = merged_index_list(first, second, v1 as int);
    assert forall|k: int| 0 <= k < m.len() implies 0 <= #[trigger] m[k] < v1 + v2 by {
        if k < first.len() {
            assert(m[k] == first[k] as int);
        } else {
            assert(m[k] == second[k - first.len()] as int + v1);
        }
    }
}

/// Puts two meshes into one vertex list and one index list: the second mesh's
/// vertices follow the first's, and its indices are moved past them.
pub fn merge_meshes<V>(
    first_vertices: Vec<V>,
    first_indices: Vec<u32>,
    second_vertices: Vec<V>,
    second_indices: Vec<u32>,
) -> (r: MeshBuffers<V>)
    requires
        first_vertices@.len() + second_vertices@.len() <= u32::MAX,
        first_indices@.len() + second_indices@.len() <= u32::MAX,
        indices_below(first_indices@, first_vertices@.len() as int),
        indices_below(second_indices@, second_vertices@.len() as int),
    ensures
        r.vertices@ == first_vertices@ + second_vertices@,
        as_ints(r.indices@) == merged_index_list(
            first_indices@,
            second_indices@,
            first_vertices@.len() as int,
        ),
        r.sphere_index_range == (IndexRange { start: 0, end: first_indices@.len() as u32 }),
        r.cylinder_index_range == (IndexRange {
            start: first_indices@.len() as u32,
            end: (first_indices@.len() + second_indices@.len()) as u32,
        }),
        indices_below(r.indices@, r.vertices@.len() as int),
        forall|k: int|
            0 <= k < first_indices@.len() ==> (#[trigger] r.indices@[k]) < first_vertices@.len(),
        forall|k: int|
            first_indices@.len() <= k < r.indices@.len() ==> first_vertices@.len()
                <= #[trigger] r.indices@[k],
{
    let offset: u32 = first_vertices.len() as u32;
    let n_first: u32 = first_indices.len() as u32;
    let n_second: u32 = second_indices.len() as u32;
    let mut indices = first_indices;
    let mut k: usize = 0;
    while k < second_indices.len()
        invariant
            k <= second_indices@.len(),
            offset == first_vertices@.len(),
            offset + second_vertices@.len() <= u32::MAX,
            indices_below(second_indices@, second_vertices@.len() as int),
            as_ints(indices@) == as_ints(first_indices@) + offset_by(
                second_indices@.take(k as int),
                offset as int,
            ),
        decreases second_indices.len() - k,
    {
        let ghost before = indices@;
        indices.push(second_indices[k] + offset);
        proof {
            assert(offset_by(second_indices@.take(k + 1), offset as int) =~= offset_by(
                second_indices@.take(k as int),
                offset as int,
            ).push(second_indices@[k as int] + offset));
            assert(as_ints(indices@) =~= as_ints(before).push(indices@.last() as int));
        }
        k += 1;
    }
    proof {
        assert(second_indices@.take(k as int) =~= second_indices@);
        lemma_merged_indices_below(
            first_indices@,
            second_indices@,
            first_vertices@.len(),
            second_vertices@.len(),
        );
        assert forall|j: int| 0 <= j < indices@.len() implies (#[trigger] indices@[j])
            < first_vertices@.len() + second_vertices@.len() by {
            assert(as_ints(indices@)[j] == indices@[j] as int);
        }
        assert forall|j: int| 0 <= j < first_indices@.len() implies (#[trigger] indices@[j])
            < first_vertices@.len() by {
            assert(as_ints(indices@)[j] == indices@[j] as int);
            assert(as_ints(first_indices@)[j] == first_indices@[j] as int);
        }
        assert forall|j: int| first_indices@.len() <= j < indices@.len() implies first_vertices@.len()
            <= #[trigger] indices@[j] by {
            assert(as_ints(indices@)[j] == indices@[j] as int);
        }
    }
    let mut vertices = first_vertices;
    let mut second = second_vertices;
    vertices.append(&mut second);
    MeshBuffers {
        vertices,
        indices,
        sphere_index_range: IndexRange { start: 0, end: n_first },
        cylinder_index_range: IndexRange { start: n_first, end: n_first + n_second },
    }
}

/// The vertices of a grid of `rings` rings, in list order: `vertex` gives the
/// vertex of each grid point.
pub fn grid_vertices<V, F: Fn(GridPoint) -> V>(rings: usize, sector_count: usize, vertex: &F) -> (r:
    Vec<V>)
    requires
        grid_len(rings as int, sector_count as int) <= u32::MAX,
        forall|p: GridPoint| vertex.requires((p,)),
    ensures
        r@.len() == grid_len(rings as int, sector_count as int),
        forall|k: int|
            0 <= k < r@.len() ==> vertex.ensures((grid_point(sector_count as int, k),), #[trigger] r@[k]),
{
    let ghost w = sector_count + 1;
    proof {
        assert(rings <= grid_len(rings as int, sector_count as int)) by (nonlinear_arith)
            requires
                grid_len(rings as int, sector_count as int) == rings * (sector_count + 1),
        ;
    }
    let mut out: Vec<V> = Vec::new();
    let mut ring: usize = 0;
    while ring < rings
        invariant
            ring <= rings,
            w == sector_count + 1,
            grid_len(rings as int, sector_count as int) <= u32::MAX,
            forall|p: GridPoint| vertex.requires((p,)),
            out@.len() == ring * w,
            forall|k: int|
                0 <= k < out@.len() ==> vertex.ensures(
                    (grid_point(sector_count as int, k),),
                    #[trigger] out@[k],
                ),
        decreases rings - ring,
    {
        proof {
            assert(sector_count + 1 <= u32::MAX) by (nonlinear_arith)
                requires
                    grid_len(rings as int, sector_count as int) == rings * (sector_count + 1),
                    grid_len(rings as int, sector_count as int) <= u32::MAX,
                    ring < rings,
            ;
        }
        let mut sector: usize = 0;
        while sector <= sector_count
            invariant
                ring < rings,
                sector_count + 1 <= u32::MAX,
                sector <= sector_count + 1,
                w == sector_count + 1,
                grid_len(rings as int, sector_count as int) <= u32::MAX,
                forall|p: GridPoint| vertex.requires((p,)),
                out@.len() == ring * w + sector,
                forall|k: int|
                    0 <= k < out@.len() ==> vertex.ensures(
                        (grid_point(sector_count as int, k),),
                        #[trigger] out@[k],
                    ),
            decreases sector_count + 1 - sector,
        {
            let p = GridPoint { ring, sector };
            let v = vertex(p);
            proof {
                lemma_fundamental_div_mod_converse(ring * w + sector, w, ring as int, sector as int);
                assert(grid_point(sector_count as int, out@.len() as int) == p);
            }
            out.push(v);
            sector += 1;
        }
        proof {
            assert(ring * w + w == (ring + 1) * w) by (nonlinear_arith);
        }
        ring += 1;
    }
    out
}

/// Number of indices that one quad of stack `i` contributes.
pub open spec fn quad_len(stacks: int, i: int) -> int {
    (if i != 0 {
        3int
    } else {
        0int
    }) + (if i != stacks - 1 {
        3int
    } else {
        0int
    })
}

/// Number of indices of the sphere mesh: none for a single stack (both of its
/// triangles per quad touch a pole), else `6 * sectors * (stacks - 1)`.
pub open spec fn sphere_index_count(stacks: int, sectors: int) -> int {
    if stacks >= 2 {
        6 * sectors * (stacks - 1)
    } else {
        0
    }
}

/// The index count per sector of the first `i` stacks.
pub open spec fn rows_per_sector(stacks: int, i: int) -> int {
    if i == 0 || stacks < 2 {
        0
    } else if i < stacks {
        6 * i - 3
    } else {
        6 * stacks - 6
    }
}

proof fn lemma_sphere_row_len(stacks: int, sectors: int, i: int, j: nat)
    ensures
        sphere_row(stacks, sectors, i, j).len() == j * quad_len(stacks, i),
    decreases j,
{
    if j > 0 {
        lemma_sphere_row_len(stacks, sectors, i, (j - 1) as nat);
        assert(sphere_quad(stacks, sectors, i, j - 1).len() == quad_len(stacks, i));
        assert((j - 1) * quad_len(stacks, i) + quad_len(stacks, i) == j * quad_len(stacks, i))
            by (nonlinear_arith);
    } else {
        assert(j * quad_len(stacks, i) == 0) by (nonlinear_arith)
            requires
                j == 0,
        ;
    }
}

proof fn lemma_sphere_rows_len(stacks: int, sectors: nat, i: nat)
    requires
        stacks >= 1,
        i <= stacks,
    ensures
        sphere_rows(stacks, sectors as int, i).len() == sectors * rows_per_sector(stacks, i as int),
    decreases i,
{
    if i > 0 {
        lemma_sphere_rows_len(stacks, sectors, (i - 1) as nat);
        lemma_sphere_row_len(stacks, sectors as int, i - 1, sectors);
        assert(rows_per_sector(stacks, i - 1) + quad_len(stacks, i - 1) == rows_per_sector(
            stacks,
            i as int,
        ));
        assert(sectors * rows_per_sector(stacks, i - 1) + sectors * quad_len(stacks, i - 1)
            == sectors * rows_per_sector(stacks, i as int)) by (nonlinear_arith)
            requires
                rows_per_sector(stacks, i - 1) + quad_len(stacks, i - 1) == rows_per_sector(
                    stacks,
                    i as int,
                ),
        ;
    }
}

/// The sphere mesh has `sphere_index_count` indices.
proof fn lemma_sphere_index_count(stacks: nat, sectors: nat)
    ensures
        sphere_index_list(stacks, sectors).len() == sphere_index_count(stacks as int, sectors as int),
{
    if stacks >= 1 {
        lemma_sphere_rows_len(stacks as int, sectors, stacks);
        assert(sectors * rows_per_sector(stacks as int, stacks as int) == sphere_index_count(
            stacks as int,
            sectors as int,
        )) by (nonlinear_arith)
            requires
                rows_per_sector(stacks as int, stacks as int) == if stacks >= 2 {
                    6 * stacks - 6
                } else {
                    0
                },
        ;
    }
}

proof fn lemma_cylinder_quads_len(sectors: int, j: nat)
    ensures
        cylinder_quads(sectors, j).len() == 6 * j,
    decreases j,
{
    if j > 0 {
        lemma_cylinder_quads_len(sectors, (j - 1) as nat);
    }
}

/// The sphere mesh: its grid of `stack_count + 1` rings, and its index list.
pub fn generate_sphere_mesh<V, F: Fn(GridPoint) -> V>(
    stack_count: usize,
    sector_count: usize,
    vertex: &F,
) -> (r: (Vec<V>, Vec<u32>))
    requires
        grid_len(stack_count + 1, sector_count as int) <= u32::MAX,
        forall|p: GridPoint| vertex.requires((p,)),
    ensures
        r.0@.len() == grid_len(stack_count + 1, sector_count as int),
        forall|k: int|
            0 <= k < r.0@.len() ==> vertex.ensures(
                (grid_point(sector_count as int, k),),
                #[trigger] r.0@[k],
            ),
        as_ints(r.1@) == sphere_index_list(stack_count as nat, sector_count as nat),
        indices_below(r.1@, r.0@.len() as int),
{
    proof {
        assert(stack_count + 1 <= grid_len(stack_count + 1, sector_count as int))
            by (nonlinear_arith)
            requires
                grid_len(stack_count + 1, sector_count as int) == (stack_count + 1) * (
                sector_count + 1),
        ;
    }
    let vertices = grid_vertices(stack_count + 1, sector_count, vertex);
    let indices = sphere_indices(stack_count, sector_count);
    (vertices, indices)
}

/// The cylinder mesh: its grid of two rings, and its index list.
pub fn generate_cylinder_mesh<V, F: Fn(GridPoint) -> V>(sector_count: usize, vertex: &F) -> (r: (
    Vec<V>,
    Vec<u32>,
))
    requires
        grid_len(2, sector_count as int) <= u32::MAX,
        forall|p: GridPoint| vertex.requires((p,)),
    ensures
        r.0@.len() == grid_len(2, sector_count as int),
        forall|k: int|
            0 <= k < r.0@.len() ==> vertex.ensures(
                (grid_point(sector_count as int, k),),
                #[trigger] r.0@[k],
            ),
        as_ints(r.1@) == cylinder_index_list(sector_count as nat),
        indices_below(r.1@, r.0@.len() as int),
{
    let vertices = grid_vertices(2, sector_count, vertex);
    let indices = cylinder_indices(sector_count);
    (vertices, indices)
}

/// Builds the shared mesh buffer: the sphere mesh (`stack_count + 1` rings),
/// then the cylinder mesh (two rings), its indices moved past the sphere's
/// vertices. `sphere_vertex` and `cylinder_vertex` give each grid point's vertex.
pub fn create_mesh_buffers<V, FS: Fn(GridPoint) -> V, FC: Fn(GridPoint) -> V>(
    stack_count: usize,
    sector_count: usize,
    sphere_vertex: &FS,
    cylinder_vertex: &FC,
) -> (r: MeshBuffers<V>)
    requires
        grid_len(stack_count + 1, sector_count as int) + grid_len(2, sector_count as int)
            <= u32::MAX,
        sphere_index_count(stack_count as int, sector_count as int) + 6 * sector_count
            <= u32::MAX,
        forall|p: GridPoint| sphere_vertex.requires((p,)),
        forall|p: GridPoint| cylinder_vertex.requires((p,)),
    ensures
        ({
            let n_sphere = grid_len(stack_count + 1, sector_count as int);
            let sphere = sphere_index_list(stack_count as nat, sector_count as nat);
            let cylinder = cylinder_index_list(sector_count as nat);
            &&& r.vertices@.len() == n_sphere + grid_len(2, sector_count as int)
            &&& forall|k: int|
                0 <= k < n_sphere ==> sphere_vertex.ensures(
                    (grid_point(sector_count as int, k),),
                    #[trigger] r.vertices@[k],
                )
            &&& forall|k: int|
                n_sphere <= k < r.vertices@.len() ==> cylinder_vertex.ensures(
                    (grid_point(sector_count as int, k - n_sphere),),
                    #[trigger] r.vertices@[k],
                )
            &&& as_ints(r.indices@) == sphere + shift(cylinder, n_sphere)
            &&& r.sphere_index_range == (IndexRange { start: 0, end: sphere.len() as u32 })
            &&& r.cylinder_index_range == (IndexRange {
                start: sphere.len() as u32,
                end: (sphere.len() + cylinder.len()) as u32,
            })
            &&& indices_below(r.indices@, r.vertices@.len() as int)
            &&& forall|k: int|
                0 <= k < sphere.len() ==> (#[trigger] r.indices@[k]) < n_sphere
            &&& forall|k: int|
                sphere.len() <= k < sphere.len() + cylinder.len() ==> n_sphere
                    <= #[trigger] r.indices@[k] < r.vertices@.len()
        }),
{
    let ghost n_sphere = grid_len(stack_count + 1, sector_count as int);
    proof {
        lemma_sphere_index_count(stack_count as nat, sector_count as nat);
        lemma_cylinder_quads_len(sector_count as int, sector_count as nat);
    }
    let (v1, i1) = generate_sphere_mesh(stack_count, sector_count, sphere_vertex);
    let (v2, i2) = generate_cylinder_mesh(sector_count, cylinder_vertex);
    proof {
        assert(as_ints(i1@).len() == i1@.len());
        assert(as_ints(i2@).len() == i2@.len());
    }
    let ghost s1 = v1@;
    let ghost s2 = v2@;
    let ghost j1 = i1@;
    let ghost j2 = i2@;
    let r = merge_meshes(v1, i1, v2, i2);
    proof {
        let cylinder = cylinder_index_list(sector_count as nat);
        assert(offset_by(j2, n_sphere) =~= shift(cylinder, n_sphere)) by {
            assert forall|k: int| 0 <= k < j2.len() implies offset_by(j2, n_sphere)[k]
                == #[trigger] shift(cylinder, n_sphere)[k] by {
                assert(as_ints(j2)[k] == j2[k] as int);
            }
        }
        assert forall|k: int| n_sphere <= k < r.vertices@.len() implies cylinder_vertex.ensures(
            (grid_point(sector_count as int, k - n_sphere),),
            #[trigger] r.vertices@[k],
        ) by {
            assert(r.vertices@[k] == s2[k - n_sphere]);
        }
        assert forall|k: int| 0 <= k < n_sphere implies sphere_vertex.ensures(
            (grid_point(sector_count as int, k),),
            #[trigger] r.vertices@[k],
        ) by {
            assert(r.vertices@[k] == s1[k]);
        }
        assert(j1.len() == sphere_index_list(stack_count as nat, sector_count as nat).len());
        assert(j2.len() == cylinder.len());
        assert(s1.len() == n_sphere);
        let sphere = sphere_index_list(stack_count as nat, sector_count as nat);
        assert(as_ints(r.indices@).len() == r.indices@.len());
        assert(r.indices@.len() == j1.len() + j2.len());
        assert forall|k: int| 0 <= k < sphere.len() implies (#[trigger] r.indices@[k]) < n_sphere by {
            assert(k < j1.len());
        }
        assert forall|k: int| sphere.len() <= k < sphere.len() + cylinder.len() implies n_sphere
            <= #[trigger] r.indices@[k] < r.vertices@.len() by {
            assert(j1.len() <= k < r.indices@.len());
            assert(r.indices@[k] < r.vertices@.len());
        }
    }
    r
}

} // verus!
