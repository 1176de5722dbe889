//! Index layout of a chunk's vertex grid.
//!
//! A chunk built at resolution `res` has `res` cells along each edge and
//! `res + 1` vertices. Vertices are numbered row by row: vertex `(i, j)`,
//! column `i` of row `j`, has index `j * (res + 1) + i`. Every cell is cut
//! into two triangles, all wound the same way.

use crate::config::MAX_RESOLUTION;
use crate::coord::ChunkCoord;
use vstd::prelude::*;

verus! {

/// Number of vertices of a chunk.
pub open spec fn spec_vertex_count(res: u32) -> int {
    (res + 1) * (res + 1)
}

/// Index of vertex `(i, j)`.
pub open spec fn spec_vertex_index(i: int, j: int, res: u32) -> int {
    j * (res + 1) + i
}

/// The column or row next to `i` towards zero; the border stays in place.
pub open spec fn toward_zero(i: u32) -> int {
    if i == 0 {
        0
    } else {
        i - 1
    }
}

/// The column or row next to `i` away from zero; the border stays in
/// place.
pub open spec fn toward_edge(i: u32, res: u32) -> int {
    if i == res {
        i as int
    } else {
        i + 1
    }
}

/// The six vertex indices of cell `(i, j)`: the triangle
/// `(i, j)`, `(i, j + 1)`, `(i + 1, j)` and the triangle
/// `(i + 1, j)`, `(i, j + 1)`, `(i + 1, j + 1)`.
pub open spec fn cell_indices(i: int, j: int, res: u32) -> Seq<int> {
    let i0 = spec_vertex_index(i, j, res);
    let i1 = i0 + 1;
    let i2 = i0 + res + 1;
    let i3 = i2 + 1;
    seq![i0, i2, i1, i1, i2, i3]
}

/// The index buffer of a chunk: the cells row by row, six indices each.
pub open spec fn spec_grid_indices(res: u32) -> Seq<u32> {
    Seq::new(
        (6 * (res * res)) as nat,
        |k: int| cell_indices((k / 6) % (res as int), (k / 6) / (res as int), res)[k % 6] as u32,
    )
}

/// Column of the vertex with index `idx`.
pub open spec fn column_of(idx: int, res: u32) -> int {
    idx % (res + 1)
}

/// Row of the vertex with index `idx`.
pub open spec fn row_of(idx: int, res: u32) -> int {
    idx / (res + 1)
}

/// Twice the signed area of the triangle `a`, `b`, `c` in the plane of
/// columns and rows; its sign tells which way the triangle is wound.
pub open spec fn winding(a: int, b: int, c: int, res: u32) -> int {
    (column_of(b, res) - column_of(a, res)) * (row_of(c, res) - row_of(a, res)) - (row_of(b, res)
        - row_of(a, res)) * (column_of(c, res) - column_of(a, res))
}

/// Indices of the four neighbours of a vertex, clamped at the border.
#[derive(Clone, Copy, Debug, PartialEq, Eq, Structural)]
pub struct Neighbors {
    /// One column towards zero.
    pub left: u32,
    /// One column away from zero.
    pub right: u32,
    /// One row towards zero.
    pub down: u32,
    /// One row away from zero.
    pub up: u32,
}

/// Every vertex index lies below the vertex count, which fits 32 bits.
pub proof fn lemma_vertex_index_bound(i: int, j: int, res: u32)
    requires
        0 <= i <= res,
        0 <= j <= res,
        res <= MAX_RESOLUTION,
    ensures
        0 <= spec_vertex_index(i, j, res) < spec_vertex_count(res) <= u32::MAX,
        column_of(spec_vertex_index(i, j, res), res) == i,
        row_of(spec_vertex_index(i, j, res), res) == j,
{
    let n = res + 1;
    assert(0 <= j * n + i < n * n) by (nonlinear_arith)
        requires
            0 <= i < n,
            0 <= j < n,
    ;
    assert(n * n <= 65535 * 65535) by (nonlinear_arith)
        requires
            0 < n <= 65535,
    ;
    vstd::arithmetic::div_mod::lemma_fundamental_div_mod_converse(j * n + i, n, j, i);
}

/// Where the six indices of cell `(i, j)` stand in the index buffer, and
/// that each of them names a vertex of the chunk.
pub proof fn lemma_cell_in_buffer(res: u32, i: int, j: int)
    requires
        res <= MAX_RESOLUTION,
        0 <= i < res,
        0 <= j < res,
    ensures
        0 <= 6 * (j * res + i),
        6 * (j * res + i) + 6 <= spec_grid_indices(res).len(),
        forall|m: int|
            0 <= m < 6 ==> {
                &&& (#[trigger] spec_grid_indices(res)[6 * (j * res + i) + m]) == cell_indices(
                    i,
                    j,
                    res,
                )[m]
                &&& 0 <= cell_indices(i, j, res)[m] < spec_vertex_count(res)
            },
{
    let r = res as int;
    let q = j * r + i;
    assert(0 <= q < r * r) by (nonlinear_arith)
        requires
            q == j * r + i,
            0 <= i < r,
            0 <= j < r,
    ;
    vstd::arithmetic::div_mod::lemma_fundamental_div_mod_converse(q, r, j, i);
    lemma_vertex_index_bound(i, j, res);
    lemma_vertex_index_bound(i + 1, j, res);
    lemma_vertex_index_bound(i, j + 1, res);
    lemma_vertex_index_bound(i + 1, j + 1, res);
    assert(spec_vertex_index(i, j + 1, res) == spec_vertex_index(i, j, res) + res + 1)
        by (nonlinear_arith);
    assert forall|m: int| 0 <= m < 6 implies {
        &&& (#[trigger] spec_grid_indices(res)[6 * (j * res + i) + m]) == cell_indices(i, j, res)[m]
        &&& 0 <= cell_indices(i, j, res)[m] < spec_vertex_count(res)
    } by {
        vstd::arithmetic::div_mod::lemma_fundamental_div_mod_converse(6 * q + m, 6, q, m);
    }
}

/// Every triangle of the index buffer is wound the same way: taken in
/// the plane of columns and rows, each has signed area `-1/2`.
pub proof fn lemma_consistent_winding(res: u32, t: int)
    requires
        res <= MAX_RESOLUTION,
        0 <= t < 2 * (res * res),
    ensures
        3 * t + 2 < spec_grid_indices(res).len(),
        winding(
            spec_grid_indices(res)[3 * t] as int,
            spec_grid_indices(res)[3 * t + 1] as int,
            spec_grid_indices(res)[3 * t + 2] as int,
            res,
        ) == -1,
{
    let r = res as int;
    let q = t / 2;
    let half = t % 2;
    vstd::arithmetic::div_mod::lemma_fundamental_div_mod(t, 2);
    vstd::arithmetic::div_mod::lemma_mod_bound(t, 2);
    assert(r > 0 && 0 <= q < r * r) by (nonlinear_arith)
        requires
            0 <= t < 2 * (r * r),
            r >= 0,
            t == 2 * q + half,
            0 <= half < 2,
    ;
    let i = q % r;
    let j = q / r;
    vstd::arithmetic::div_mod::lemma_fundamental_div_mod(q, r);
    vstd::arithmetic::div_mod::lemma_mod_bound(q, r);
    assert(r * j == j * r) by (nonlinear_arith);
    assert(0 <= j < r) by (nonlinear_arith)
        requires
            0 <= q < r * r,
            q == j * r + i,
            0 <= i < r,
    ;
    lemma_cell_in_buffer(res, i, j);
    lemma_vertex_index_bound(i, j, res);
    lemma_vertex_index_bound(i + 1, j, res);
    lemma_vertex_index_bound(i, j + 1, res);
    lemma_vertex_index_bound(i + 1, j + 1, res);
    assert(spec_vertex_index(i, j + 1, res) == spec_vertex_index(i, j, res) + res + 1)
        by (nonlinear_arith);
    let g = spec_grid_indices(res);
    let base = 6 * (j * r + i);
    assert(3 * t == base + 3 * half);
    assert(g[base + 0] == cell_indices(i, j, res)[0]);
    assert(g[base + 1] == cell_indices(i, j, res)[1]);
    assert(g[base + 2] == cell_indices(i, j, res)[2]);
    assert(g[base + 3] == cell_indices(i, j, res)[3]);
    assert(g[base + 4] == cell_indices(i, j, res)[4]);
    assert(g[base + 5] == cell_indices(i, j, res)[5]);
    let v00 = spec_vertex_index(i, j, res);
    let v10 = spec_vertex_index(i + 1, j, res);
    let v01 = spec_vertex_index(i, j + 1, res);
    let v11 = spec_vertex_index(i + 1, j + 1, res);
    assert(v10 == v00 + 1);
    assert(v11 == v01 + 1);
    if half == 0 {
        assert(g[3 * t] == v00 && g[3 * t + 1] == v01 && g[3 * t + 2] == v10);
        assert(winding(v00, v01, v10, res) == -1) by (nonlinear_arith)
            requires
                column_of(v00, res) == i,
                column_of(v01, res) == i,
                column_of(v10, res) == i + 1,
                row_of(v00, res) == j,
                row_of(v01, res) == j + 1,
                row_of(v10, res) == j,
        ;
    } else {
        assert(g[3 * t] == v10 && g[3 * t + 1] == v01 && g[3 * t + 2] == v11);
        assert(winding(v10, v01, v11, res) == -1) by (nonlinear_arith)
            requires
                column_of(v10, res) == i + 1,
                column_of(v01, res) == i,
                column_of(v11, res) == i + 1,
                row_of(v10, res) == j,
                row_of(v01, res) == j + 1,
                row_of(v11, res) == j + 1,
        ;
    }
}

/// Computes the number of vertices of a chunk of resolution `res`.
pub fn vertex_count(res: u32) -> (n: u32)
    requires
        res <= MAX_RESOLUTION,
    ensures
        n == spec_vertex_count(res),
{
    proof {
        lemma_vertex_index_bound(0, 0, res);
    }
    (res + 1) * (res + 1)
}

/// Computes the index of vertex `(i, j)`.
pub fn vertex_index(i: u32, j: u32, res: u32) -> (idx: u32)
    requires
        i <= res,
        j <= res,
        res <= MAX_RESOLUTION,
    ensures
        idx == spec_vertex_index(i as int, j as int, res),
        idx < spec_vertex_count(res),
{
    proof {
        lemma_vertex_index_bound(i as int, j as int, res);
        assert(j * (res + 1) <= j * (res + 1) + i);
    }
    j * (res + 1) + i
}

/// Computes the indices of the vertices next to `(i, j)`, from which a
/// central difference is taken. At the border the vertex stands in for
/// the neighbour it lacks.
pub fn neighbors(i: u32, j: u32, res: u32) -> (n: Neighbors)
    requires
        i <= res,
        j <= res,
        res <= MAX_RESOLUTION,
    ensures
        n.left == spec_vertex_index(toward_zero(i), j as int, res),
        n.right == spec_vertex_index(toward_edge(i, res), j as int, res),
        n.down == spec_vertex_index(i as int, toward_zero(j), res),
        n.up == spec_vertex_index(i as int, toward_edge(j, res), res),
{
    let i_l: u32 = if i == 0 {
        i
    } else {
        i - 1
    };
    let i_r: u32 = if i == res {
        i
    } else {
        i + 1
    };
    let j_d: u32 = if j == 0 {
        j
    } else {
        j - 1
    };
    let j_u: u32 = if j == res {
        j
    } else {
        j + 1
    };
    Neighbors {
        left: vertex_index(i_l, j, res),
        right: vertex_index(i_r, j, res),
        down: vertex_index(i, j_d, res),
        up: vertex_index(i, j_u, res),
    }
}

/// Builds the index buffer of a chunk of resolution `res`: two triangles
/// for each cell, the cells taken row by row.
pub fn grid_indices(res: u32) -> (out: Vec<u32>)
    requires
        res <= MAX_RESOLUTION,
    ensures
        out@ == spec_grid_indices(res),
{
    let ghost target = spec_grid_indices(res);
    let ghost r: int = res as int;
    let row: u32 = res + 1;
    let mut out: Vec<u32> = Vec::new();
    let mut j: u32 = 0;
    proof {
        assert(r * r >= 0) by (nonlinear_arith);
    }
    while j < res
        invariant
            res <= MAX_RESOLUTION,
            r == res,
            row == res + 1,
            target == spec_grid_indices(res),
            0 <= j <= res,
            out@.len() == 6 * (j * r),
            forall|k: int| 0 <= k < out@.len() ==> out@[k] == #[trigger] target[k],
        decreases res - j,
    {
        let mut i: u32 = 0;
        while i < res
            invariant
                res <= MAX_RESOLUTION,
                r == res,
                row == res + 1,
                target == spec_grid_indices(res),
                0 <= j < res,
                0 <= i <= res,
                out@.len() == 6 * (j * r + i),
                forall|k: int| 0 <= k < out@.len() ==> out@[k] == #[trigger] target[k],
            decreases res - i,
        {
            let ghost q: int = j * r + i;
            let ghost base: int = out@.len() as int;
            proof {
                lemma_vertex_index_bound(i as int, j as int, res);
                lemma_vertex_index_bound(i + 1, j + 1, res);
                assert(spec_vertex_index(i + 1, j + 1, res) == spec_vertex_index(
                    i as int,
                    j as int,
                    res,
                ) + res + 2) by (nonlinear_arith);
                vstd::arithmetic::div_mod::lemma_fundamental_div_mod_converse(
                    q,
                    r,
                    j as int,
                    i as int,
                );
                assert(0 <= q < r * r) by (nonlinear_arith)
                    requires
                        q == j * r + i,
                        0 <= i < r,
                        0 <= j < r,
                ;
                assert forall|m: int| 0 <= m < 6 implies (#[trigger] (6 * q + m)) / 6 == q && (6
                    * q + m) % 6 == m by {
                    vstd::arithmetic::div_mod::lemma_fundamental_div_mod_converse(
                        6 * q + m,
                        6,
                        q,
                        m,
                    );
                }
                assert(base == 6 * q);
            }
            let i0: u32 = j * row + i;
            let i1: u32 = i0 + 1;
            let i2: u32 = i0 + row;
            let i3: u32 = i2 + 1;
            out.push(i0);
            out.push(i2);
            out.push(i1);
            out.push(i1);
            out.push(i2);
            out.push(i3);
            proof {
                let cell = cell_indices(i as int, j as int, res);
                assert(cell[0] == i0 && cell[1] == i2 && cell[2] == i1 && cell[3] == i1 && cell[4]
                    == i2 && cell[5] == i3);
                assert forall|k: int| 0 <= k < out@.len() implies out@[k] == #[trigger] target[k] by {
                    if k >= base {
                        let m = k - base;
                        assert(k == 6 * q + m);
                        assert((6 * q + m) / 6 == q && (6 * q + m) % 6 == m);
                    }
                }
            }
            i = i + 1;
        }
        proof {
            assert(6 * (j * r + r) == 6 * ((j + 1) * r)) by (nonlinear_arith);
        }
        j = j + 1;
    }
    proof {
        assert(out@ =~= target);
    }
    out
}

/// Rows and columns of the height grid from which a chunk's collision
/// shape is made: one for each row and column of vertices, so that the
/// grid holds one height for each vertex.
pub fn heightfield_dims(res: u32) -> (dims: (usize, usize))
    requires
        res <= MAX_RESOLUTION,
    ensures
        dims.0 == res + 1,
        dims.1 == res + 1,
        dims.0 * dims.1 == spec_vertex_count(res),
{
    ((res + 1) as usize, (res + 1) as usize)
}

/// World position of the corner of chunk `coord` from which its vertices
/// are laid out: the coordinate times the chunk size, on both axes.
pub fn chunk_origin(coord: &ChunkCoord, chunk_size: u32) -> (origin: (i64, i64))
    ensures
        origin.0 == coord.x * chunk_size,
        origin.1 == coord.z * chunk_size,
{
    proof {
        assert(-0x8000_0000 * 0xffff_ffff <= coord.x * chunk_size <= 0x7fff_ffff * 0xffff_ffff)
            by (nonlinear_arith)
            requires
                -0x8000_0000 <= coord.x <= 0x7fff_ffff,
                0 <= chunk_size <= 0xffff_ffff,
        ;
        assert(-0x8000_0000 * 0xffff_ffff <= coord.z * chunk_size <= 0x7fff_ffff * 0xffff_ffff)
            by (nonlinear_arith)
            requires
                -0x8000_0000 <= coord.z <= 0x7fff_ffff,
                0 <= chunk_size <= 0xffff_ffff,
        ;
    }
    (coord.x as i64 * chunk_size as i64, coord.z as i64 * chunk_size as i64)
}

} // verus!
