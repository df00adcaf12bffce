//! Blocked layout of a row-major matrix.
//!
//! Rows are taken in chunks. Within a chunk, the leading vertical dimensions
//! are stored dimension by dimension; the others follow in blocks of sixty-four
//! dimensions, each row by row.
use vstd::prelude::*;
use vstd::arithmetic::div_mod::{lemma_fundamental_div_mod, lemma_mod_bound};
use crate::kmeans::superkmeans::common::{H_DIM_SIZE, VECTOR_CHUNK_SIZE};
use crate::significand::{
    lemma_round_nearest_error, round_nearest, round_significand, DOUBLE_LIMIT,
};

verus! {

/// How many dimensions are stored vertically, and how many horizontally.
#[derive(Debug, Clone, Copy, PartialEq, Eq, Structural)]
pub struct DimensionSplit {
    pub horizontal_d: usize,
    pub vertical_d: usize,
}

/// Three quarters of `d`, truncated; double precision computes them exactly as
/// far as it holds `3 * d`, and rounds above.
pub open spec fn three_quarters(d: nat) -> nat {
    if 3 * d < DOUBLE_LIMIT {
        3 * d / 4
    } else {
        round_nearest(3 * round_nearest(d, DOUBLE_LIMIT as nat), DOUBLE_LIMIT as nat) / 4
    }
}

/// Number of horizontal dimensions: three quarters of `d`, rounded to the
/// nearest multiple of 64; one block where that would leave no vertical
/// dimension, and none for at most 64 dimensions.
pub open spec fn horizontal_part(d: nat) -> nat {
    let rounded = (three_quarters(d) + 32) / 64 * 64;
    if d <= 64 {
        0
    } else if rounded >= d {
        64
    } else {
        rounded
    }
}

pub open spec fn vertical_part(d: nat) -> int {
    d - horizontal_part(d)
}

/// A split leaves at least one vertical dimension and whole horizontal blocks.
pub proof fn lemma_split(d: nat)
    requires
        0 < d <= u64::MAX,
    ensures
        0 < vertical_part(d) <= d,
        horizontal_part(d) % 64 == 0,
        three_quarters(d) <= d,
{
    let limit = DOUBLE_LIMIT as nat;
    lemma_round_nearest_error(d, limit);
    let a = round_nearest(d, limit);
    lemma_round_nearest_error(3 * a, limit);
    let b = round_nearest(3 * a, limit);
    if 3 * d >= limit {
        assert(0x20_0000_0000_0000 * a <= 0x20_0000_0000_0000 * d + d);
        assert(0x20_0000_0000_0000 * b <= 0x20_0000_0000_0000 * (3 * a) + 3 * a);
    }
}

/// Splits `d` dimensions.
pub fn get_dimension_split(d: usize) -> (split: DimensionSplit)
    requires
        d > 0,
    ensures
        split.horizontal_d == horizontal_part(d as nat),
        split.vertical_d == vertical_part(d as nat),
        split.vertical_d > 0,
        split.horizontal_d % 64 == 0,
        split.horizontal_d + split.vertical_d == d,
{
    proof {
        lemma_split(d as nat);
        lemma_round_nearest_error(d as nat, DOUBLE_LIMIT as nat);
        lemma_round_nearest_error(
            3 * round_nearest(d as nat, DOUBLE_LIMIT as nat),
            DOUBLE_LIMIT as nat,
        );
    }
    if d <= H_DIM_SIZE {
        return DimensionSplit { horizontal_d: 0, vertical_d: d };
    }
    let exact: u128 = round_significand(d as u128, DOUBLE_LIMIT);
    let share: usize = (round_significand(3 * exact, DOUBLE_LIMIT) / 4) as usize;
    let blocks: usize = share / H_DIM_SIZE + (share % H_DIM_SIZE) / (H_DIM_SIZE / 2);
    proof {
        assert(blocks == (share + 32) / 64);
        assert(share <= d);
    }
    let horizontal: usize = if blocks <= (d - 1) / H_DIM_SIZE {
        blocks * H_DIM_SIZE
    } else {
        H_DIM_SIZE
    };
    DimensionSplit { horizontal_d: horizontal, vertical_d: d - horizontal }
}

/// One block of rows of a blocked matrix.
#[derive(Debug, Clone, Copy, PartialEq, Eq, Structural)]
pub struct PdxCluster {
    pub num_embeddings: u32,
    /// Where the block starts in the data buffer.
    pub data_offset: usize,
    /// Where the block starts in the row index buffer.
    pub indices_offset: usize,
    /// Where the block starts in the row-major buffer of vertical dimensions.
    pub aux_offset: usize,
}

/// The blocks of a blocked matrix.
pub struct IndexPdxIvf {
    pub num_dimensions: u32,
    pub num_clusters: u32,
    pub num_horizontal_dimensions: u32,
    pub num_vertical_dimensions: u32,
    pub clusters: Vec<PdxCluster>,
}

/// Rows of block `c` when `n` rows are cut every 1024.
pub open spec fn block_rows(n: int, c: int) -> int {
    if 1024 * (c + 1) <= n {
        1024
    } else {
        n - 1024 * c
    }
}

/// Rows in the first `n` blocks.
pub open spec fn rows_in(clusters: Seq<PdxCluster>, n: nat) -> nat
    decreases n,
{
    if n == 0 {
        0
    } else {
        rows_in(clusters, (n - 1) as nat) + clusters[n - 1].num_embeddings as nat
    }
}

impl IndexPdxIvf {
    /// The blocks of a matrix of `n` rows and `d` dimensions.
    pub open spec fn describes(self, n: int, d: int) -> bool {
        &&& self.num_dimensions == d
        &&& self.num_horizontal_dimensions == horizontal_part(d as nat)
        &&& self.num_vertical_dimensions == vertical_part(d as nat)
        &&& self.num_clusters == self.clusters@.len()
        &&& self.clusters@.len() == (n + 1023) / 1024
        &&& forall|c: int|
            0 <= c < self.clusters@.len() ==> {
                let block = #[trigger] self.clusters@[c];
                &&& block.num_embeddings == block_rows(n, c)
                &&& block.data_offset == 1024 * c * d
                &&& block.indices_offset == 1024 * c
                &&& block.aux_offset == 1024 * c * vertical_part(d as nat)
            }
    }

    /// Cuts a matrix of `n_points` rows and `d` dimensions into blocks.
    pub fn new(n_points: usize, d: usize) -> (r: IndexPdxIvf)
        requires
            0 < d <= u32::MAX,
            n_points <= u32::MAX,
            n_points * d <= usize::MAX,
        ensures
            r.describes(n_points as int, d as int),
    {
        let split = get_dimension_split(d);
        let v: usize = split.vertical_d;
        let full: usize = n_points / VECTOR_CHUNK_SIZE;
        let rest: usize = n_points % VECTOR_CHUNK_SIZE;
        let mut clusters: Vec<PdxCluster> = Vec::new();
        let total: usize = full + if rest > 0 {
            1
        } else {
            0
        };
        for c in 0..total
            invariant
                0 < d,
                v == vertical_part(d as nat),
                0 < v <= d,
                n_points * d <= usize::MAX,
                n_points <= u32::MAX,
                full == n_points / 1024,
                rest == n_points % 1024,
                total == (n_points + 1023) / 1024,
                clusters@.len() == c,
                forall|b: int|
                    0 <= b < c ==> {
                        let block = #[trigger] clusters@[b];
                        &&& block.num_embeddings == block_rows(n_points as int, b)
                        &&& block.data_offset == 1024 * b * d
                        &&& block.indices_offset == 1024 * b
                        &&& block.aux_offset == 1024 * b * v
                    },
        {
            let rows: usize = if c < full {
                VECTOR_CHUNK_SIZE
            } else {
                rest
            };
            proof {
                assert(1024 * c * d <= n_points * d) by (nonlinear_arith)
                    requires
                        1024 * c <= n_points,
                        d > 0,
                ;
                assert(1024 * c * v <= 1024 * c * d) by (nonlinear_arith)
                    requires
                        v <= d,
                        c >= 0,
                ;
                assert(1024 * c * v >= 0) by (nonlinear_arith);
            }
            clusters.push(
                PdxCluster {
                    num_embeddings: rows as u32,
                    data_offset: 1024 * c * d,
                    indices_offset: 1024 * c,
                    aux_offset: 1024 * c * v,
                },
            );
        }
        IndexPdxIvf {
            num_dimensions: d as u32,
            num_clusters: total as u32,
            num_horizontal_dimensions: split.horizontal_d as u32,
            num_vertical_dimensions: v as u32,
            clusters,
        }
    }

    /// Rows of all blocks.
    pub fn indices_buffer_len(&self) -> (r: usize)
        requires
            rows_in(self.clusters@, self.clusters@.len()) <= usize::MAX,
        ensures
            r == rows_in(self.clusters@, self.clusters@.len()),
    {
        let mut total: usize = 0;
        for c in 0..self.clusters.len()
            invariant
                rows_in(self.clusters@, self.clusters@.len()) <= usize::MAX,
                total == rows_in(self.clusters@, c as nat),
        {
            proof {
                lemma_rows_in_monotone(self.clusters@, (c + 1) as nat, self.clusters@.len());
            }
            total += self.clusters[c].num_embeddings as usize;
        }
        total
    }

    /// Length of the data buffer: every element is stored once.
    pub fn data_buffer_len(&self) -> (r: usize)
        requires
            rows_in(self.clusters@, self.clusters@.len()) <= usize::MAX,
            rows_in(self.clusters@, self.clusters@.len()) * self.num_dimensions <= usize::MAX,
        ensures
            r == rows_in(self.clusters@, self.clusters@.len()) * self.num_dimensions,
    {
        self.indices_buffer_len() * self.num_dimensions as usize
    }

    /// Length of the row-major buffer of vertical dimensions.
    pub fn aux_buffer_len(&self) -> (r: usize)
        requires
            rows_in(self.clusters@, self.clusters@.len()) <= usize::MAX,
            rows_in(self.clusters@, self.clusters@.len()) * self.num_vertical_dimensions
                <= usize::MAX,
        ensures
            r == rows_in(self.clusters@, self.clusters@.len()) * self.num_vertical_dimensions,
    {
        self.indices_buffer_len() * self.num_vertical_dimensions as usize
    }
}

proof fn lemma_rows_in_monotone(clusters: Seq<PdxCluster>, a: nat, b: nat)
    requires
        a <= b,
    ensures
        rows_in(clusters, a) <= rows_in(clusters, b),
    decreases b,
{
    if a < b {
        lemma_rows_in_monotone(clusters, a, (b - 1) as nat);
    }
}

/// The blocks of a matrix hold all of its rows.
pub proof fn law_blocks_hold_all_rows(index: IndexPdxIvf, n: int, d: int)
    requires
        n >= 0,
        index.describes(n, d),
    ensures
        rows_in(index.clusters@, index.clusters@.len()) == n,
{
    lemma_rows_in(index, n, d, index.clusters@.len());
}

proof fn lemma_rows_in(index: IndexPdxIvf, n: int, d: int, k: nat)
    requires
        n >= 0,
        index.describes(n, d),
        k <= index.clusters@.len(),
    ensures
        rows_in(index.clusters@, k) == if 1024 * k <= n {
            1024 * k as int
        } else {
            n
        },
    decreases k,
{
    if k > 0 {
        lemma_rows_in(index, n, d, (k - 1) as nat);
        assert(index.clusters@[k - 1].num_embeddings == block_rows(n, k - 1));
    }
}

/// Rows of the chunk that starts at row `first`, when chunks have `cs` rows.
pub open spec fn chunk_rows(n: int, cs: int, first: int) -> int {
    if first + cs <= n {
        cs
    } else {
        n - first
    }
}

/// Where dimension `j` of row `i` lies within a chunk of `rows` rows whose
/// first `v` dimensions are vertical.
pub open spec fn local_position(v: int, rows: int, i: int, j: int) -> int {
    if j < v {
        j * rows + i
    } else {
        let b = (j - v) / 64 * 64;
        (v + b) * rows + i * 64 + (j - v - b)
    }
}

/// Where the blocked layout of an `n` by `d` matrix in chunks of `cs` rows
/// holds dimension `j` of row `i`.
pub open spec fn position(n: int, d: int, cs: int, i: int, j: int) -> int {
    let first = i / cs * cs;
    first * d + local_position(
        vertical_part(d as nat),
        chunk_rows(n, cs, first),
        i - first,
        j,
    )
}

proof fn lemma_local_bounds(v: int, d: int, rows: int, i: int, j: int)
    requires
        0 < v <= d,
        (d - v) % 64 == 0,
        0 <= i < rows,
        0 <= j < d,
    ensures
        0 <= local_position(v, rows, i, j) < rows * d,
        j < v ==> local_position(v, rows, i, j) < v * rows,
        j >= v ==> {
            let b = (j - v) / 64 * 64;
            (v + b) * rows <= local_position(v, rows, i, j) < (v + b + 64) * rows
        },
{
    if j < v {
        assert(0 <= j * rows && j * rows + i < v * rows) by (nonlinear_arith)
            requires
                0 <= j,
                j + 1 <= v,
                0 <= i < rows,
        ;
        assert(v * rows <= rows * d) by (nonlinear_arith)
            requires
                v <= d,
                rows > 0,
        ;
    } else {
        let b = (j - v) / 64 * 64;
        assert(b + 64 <= d - v);
        assert((v + b + 64) * rows == (v + b) * rows + 64 * rows) by (nonlinear_arith);
        assert((v + b) * rows >= 0) by (nonlinear_arith)
            requires
                v + b >= 0,
                rows > 0,
        ;
        assert((v + b + 64) * rows <= rows * d) by (nonlinear_arith)
            requires
                v + b + 64 <= d,
                rows > 0,
        ;
    }
}

proof fn lemma_local_injective(v: int, d: int, rows: int, i1: int, j1: int, i2: int, j2: int)
    requires
        0 < v <= d,
        (d - v) % 64 == 0,
        0 <= i1 < rows,
        0 <= j1 < d,
        0 <= i2 < rows,
        0 <= j2 < d,
        local_position(v, rows, i1, j1) == local_position(v, rows, i2, j2),
    ensures
        i1 == i2,
        j1 == j2,
{
    lemma_local_bounds(v, d, rows, i1, j1);
    lemma_local_bounds(v, d, rows, i2, j2);
    if j1 < v && j2 < v {
        assert(i1 == i2 && j1 == j2) by (nonlinear_arith)
            requires
                j1 * rows + i1 == j2 * rows + i2,
                0 <= i1 < rows,
                0 <= i2 < rows,
        ;
    } else if j1 >= v && j2 >= v {
        let b1 = (j1 - v) / 64 * 64;
        let b2 = (j2 - v) / 64 * 64;
        if b1 + 64 <= b2 {
            assert((v + b1 + 64) * rows <= (v + b2) * rows) by (nonlinear_arith)
                requires
                    b1 + 64 <= b2,
                    rows > 0,
            ;
        } else if b2 + 64 <= b1 {
            assert((v + b2 + 64) * rows <= (v + b1) * rows) by (nonlinear_arith)
                requires
                    b2 + 64 <= b1,
                    rows > 0,
            ;
        }
        assert(b1 == b2);
    } else if j1 < v {
        let b2 = (j2 - v) / 64 * 64;
        assert(v * rows <= (v + b2) * rows) by (nonlinear_arith)
            requires
                b2 >= 0,
                rows > 0,
        ;
    } else {
        let b1 = (j1 - v) / 64 * 64;
        assert(v * rows <= (v + b1) * rows) by (nonlinear_arith)
            requires
                b1 >= 0,
                rows > 0,
        ;
    }
}

proof fn lemma_chunk(n: int, cs: int, i: int)
    requires
        0 < cs,
        0 <= i < n,
    ensures
        ({
            let first = i / cs * cs;
            &&& 0 <= first <= i < first + cs
            &&& i - first < chunk_rows(n, cs, first)
            &&& first + chunk_rows(n, cs, first) <= n
        }),
{
    lemma_fundamental_div_mod(i, cs);
    lemma_mod_bound(i, cs);
    assert(i / cs * cs == cs * (i / cs)) by (nonlinear_arith);
    assert(i / cs * cs >= 0) by (nonlinear_arith)
        requires
            i / cs >= 0,
            cs > 0,
    ;
}

/// Positions stay inside the matrix, and no two elements share one.
pub proof fn lemma_position(n: int, d: int, cs: int, i: int, j: int)
    requires
        0 < d <= u64::MAX,
        0 < cs,
        0 <= i < n,
        0 <= j < d,
    ensures
        0 <= position(n, d, cs, i, j) < n * d,
        i / cs * cs * d <= position(n, d, cs, i, j),
        position(n, d, cs, i, j) < (i / cs * cs + chunk_rows(n, cs, i / cs * cs)) * d,
{
    lemma_split(d as nat);
    lemma_chunk(n, cs, i);
    let first = i / cs * cs;
    let rows = chunk_rows(n, cs, first);
    lemma_local_bounds(vertical_part(d as nat), d, rows, i - first, j);
    assert((first + rows) * d == first * d + rows * d) by (nonlinear_arith);
    assert((first + rows) * d <= n * d) by (nonlinear_arith)
        requires
            first + rows <= n,
            d > 0,
    ;
    assert(first * d >= 0) by (nonlinear_arith)
        requires
            first >= 0,
            d > 0,
    ;
}

pub proof fn lemma_position_injective(
    n: int,
    d: int,
    cs: int,
    i1: int,
    j1: int,
    i2: int,
    j2: int,
)
    requires
        0 < d <= u64::MAX,
        0 < cs,
        0 <= i1 < n,
        0 <= j1 < d,
        0 <= i2 < n,
        0 <= j2 < d,
        position(n, d, cs, i1, j1) == position(n, d, cs, i2, j2),
    ensures
        i1 == i2,
        j1 == j2,
{
    lemma_split(d as nat);
    lemma_chunk(n, cs, i1);
    lemma_chunk(n, cs, i2);
    lemma_position(n, d, cs, i1, j1);
    lemma_position(n, d, cs, i2, j2);
    let f1 = i1 / cs * cs;
    let f2 = i2 / cs * cs;
    let r1 = chunk_rows(n, cs, f1);
    let r2 = chunk_rows(n, cs, f2);
    let c1 = i1 / cs;
    let c2 = i2 / cs;
    if c1 < c2 {
        assert(f1 + cs <= f2) by (nonlinear_arith)
            requires
                f1 == c1 * cs,
                f2 == c2 * cs,
                c1 + 1 <= c2,
                cs > 0,
        ;
        assert((f1 + r1) * d <= f2 * d) by (nonlinear_arith)
            requires
                f1 + r1 <= f2,
                d > 0,
        ;
    } else if c2 < c1 {
        assert(f2 + cs <= f1) by (nonlinear_arith)
            requires
                f1 == c1 * cs,
                f2 == c2 * cs,
                c2 + 1 <= c1,
                cs > 0,
        ;
        assert((f2 + r2) * d <= f1 * d) by (nonlinear_arith)
            requires
                f2 + r2 <= f1,
                d > 0,
        ;
    } else {
        lemma_local_injective(
            vertical_part(d as nat),
            d,
            r1,
            i1 - f1,
            j1,
            i2 - f1,
            j2,
        );
    }
}

/// Where an element lies in the blocked layout.
fn element_position(
    n: usize,
    d: usize,
    vertical: usize,
    chunk_size: usize,
    i: usize,
    j: usize,
) -> (p: usize)
    requires
        0 < d,
        0 < chunk_size,
        i < n,
        j < d,
        vertical == vertical_part(d as nat),
        n * d <= usize::MAX,
    ensures
        p == position(n as int, d as int, chunk_size as int, i as int, j as int),
{
    proof {
        lemma_split(d as nat);
        lemma_chunk(n as int, chunk_size as int, i as int);
        lemma_position(n as int, d as int, chunk_size as int, i as int, j as int);
    }
    let first: usize = i / chunk_size * chunk_size;
    let rows: usize = if chunk_size <= n - first {
        chunk_size
    } else {
        n - first
    };
    proof {
        lemma_local_bounds(vertical as int, d as int, rows as int, i - first, j as int);
        assert(first * d >= 0) by (nonlinear_arith);
        assert(first * d <= n * d) by (nonlinear_arith)
            requires
                first <= n,
                d > 0,
        ;
        assert(rows * d <= n * d) by (nonlinear_arith)
            requires
                rows <= n,
                d > 0,
        ;
    }
    if j < vertical {
        proof {
            assert(j * rows >= 0) by (nonlinear_arith);
        }
        first * d + (j * rows + (i - first))
    } else {
        let b: usize = (j - vertical) / H_DIM_SIZE * H_DIM_SIZE;
        proof {
            assert((vertical + b) * rows >= 0) by (nonlinear_arith);
        }
        first * d + ((vertical + b) * rows + (i - first) * H_DIM_SIZE + (j - vertical - b))
    }
}

/// Element `(i, j)` of a row-major matrix lies before its end.
proof fn lemma_row_major(n: int, d: int, i: int, j: int)
    requires
        0 <= i < n,
        0 <= j < d,
    ensures
        0 <= i * d + j < n * d,
{
    assert(0 <= i * d + j < n * d) by (nonlinear_arith)
        requires
            0 <= i,
            i + 1 <= n,
            0 <= j < d,
    ;
}

/// `pdx` is the blocked layout of the row-major matrix `rows`.
pub open spec fn is_blocked<T>(pdx: Seq<T>, rows: Seq<T>, n: int, d: int, cs: int) -> bool {
    forall|i: int, j: int|
        0 <= i < n && 0 <= j < d ==> pdx[#[trigger] position(n, d, cs, i, j)] == rows[i * d + j]
}

/// Lays a row-major matrix out in chunks of 1024 rows.
pub fn pdxify<T: Copy>(in_vectors: &[T], out_pdx: &mut [T], n: usize, d: usize)
    requires
        0 < d,
        in_vectors@.len() == n * d,
        old(out_pdx)@.len() == n * d,
    ensures
        final(out_pdx)@.len() == n * d,
        is_blocked(final(out_pdx)@, in_vectors@, n as int, d as int, 1024),
{
    pdxify_with_chunk(in_vectors, out_pdx, n, d, VECTOR_CHUNK_SIZE);
}

/// Lays a row-major matrix out in chunks of `chunk_size` rows.
pub fn pdxify_with_chunk<T: Copy>(
    in_vectors: &[T],
    out_pdx: &mut [T],
    n: usize,
    d: usize,
    chunk_size: usize,
)
    requires
        0 < d,
        0 < chunk_size,
        in_vectors@.len() == n * d,
        old(out_pdx)@.len() == n * d,
    ensures
        final(out_pdx)@.len() == n * d,
        is_blocked(final(out_pdx)@, in_vectors@, n as int, d as int, chunk_size as int),
{
    let vertical: usize = get_dimension_split(d).vertical_d;
    let ghost cs = chunk_size as int;
    proof {
        assert(in_vectors@.len() == in_vectors.len());
    }
    for i in 0..n
        invariant
            0 < d,
            0 < chunk_size,
            cs == chunk_size,
            vertical == vertical_part(d as nat),
            n * d <= usize::MAX,
            in_vectors@.len() == n * d,
            out_pdx@.len() == n * d,
            forall|a: int, b: int|
                0 <= a < i && 0 <= b < d ==> out_pdx@[#[trigger] position(
                    n as int,
                    d as int,
                    cs,
                    a,
                    b,
                )] == in_vectors@[a * d + b],
    {
        for j in 0..d
            invariant
                i < n,
                0 < d,
                0 < chunk_size,
                cs == chunk_size,
                vertical == vertical_part(d as nat),
                n * d <= usize::MAX,
                in_vectors@.len() == n * d,
                out_pdx@.len() == n * d,
                forall|a: int, b: int|
                    (0 <= a < i && 0 <= b < d) || (a == i && 0 <= b < j)
                        ==> out_pdx@[#[trigger] position(n as int, d as int, cs, a, b)]
                        == in_vectors@[a * d + b],
        {
            let ghost before = out_pdx@;
            proof {
                lemma_position(n as int, d as int, cs, i as int, j as int);
                lemma_row_major(n as int, d as int, i as int, j as int);
                assert(i * d >= 0) by (nonlinear_arith);
            }
            let p: usize = element_position(n, d, vertical, chunk_size, i, j);
            out_pdx[p] = in_vectors[i * d + j];
            proof {
                assert forall|a: int, b: int|
                    (0 <= a < i && 0 <= b < d) || (a == i && 0 <= b < j + 1) implies out_pdx@[
                #[trigger] position(n as int, d as int, cs, a, b)] == in_vectors@[a * d + b] by {
                    if !(a == i && b == j) {
                        lemma_position(n as int, d as int, cs, a, b);
                        if position(n as int, d as int, cs, a, b) == p {
                            lemma_position_injective(
                                n as int,
                                d as int,
                                cs,
                                a,
                                b,
                                i as int,
                                j as int,
                            );
                        }
                        assert(before[position(n as int, d as int, cs, a, b)] == in_vectors@[a * d
                            + b]);
                    }
                }
            }
        }
    }
}

/// Reads the row-major matrix back out of chunks of 1024 rows.
pub fn unpdxify<T: Copy>(pdx: &[T], out: &mut [T], n: usize, d: usize)
    requires
        0 < d,
        pdx@.len() == n * d,
        old(out)@.len() == n * d,
    ensures
        final(out)@.len() == n * d,
        is_blocked(pdx@, final(out)@, n as int, d as int, 1024),
{
    unpdxify_with_chunk(pdx, out, n, d, VECTOR_CHUNK_SIZE);
}

/// Reads the row-major matrix back out of chunks of `chunk_size` rows.
pub fn unpdxify_with_chunk<T: Copy>(
    pdx: &[T],
    out: &mut [T],
    n: usize,
    d: usize,
    chunk_size: usize,
)
    requires
        0 < d,
        0 < chunk_size,
        pdx@.len() == n * d,
        old(out)@.len() == n * d,
    ensures
        final(out)@.len() == n * d,
        is_blocked(pdx@, final(out)@, n as int, d as int, chunk_size as int),
{
    let vertical: usize = get_dimension_split(d).vertical_d;
    let ghost cs = chunk_size as int;
    proof {
        assert(pdx@.len() == pdx.len());
    }
    for i in 0..n
        invariant
            0 < d,
            0 < chunk_size,
            cs == chunk_size,
            vertical == vertical_part(d as nat),
            n * d <= usize::MAX,
            pdx@.len() == n * d,
            out@.len() == n * d,
            forall|a: int, b: int|
                0 <= a < i && 0 <= b < d ==> pdx@[#[trigger] position(
                    n as int,
                    d as int,
                    cs,
                    a,
                    b,
                )] == out@[a * d + b],
    {
        for j in 0..d
            invariant
                i < n,
                0 < d,
                0 < chunk_size,
                cs == chunk_size,
                vertical == vertical_part(d as nat),
                n * d <= usize::MAX,
                pdx@.len() == n * d,
                out@.len() == n * d,
                forall|a: int, b: int|
                    (0 <= a < i && 0 <= b < d) || (a == i && 0 <= b < j)
                        ==> pdx@[#[trigger] position(n as int, d as int, cs, a, b)] == out@[a * d
                        + b],
        {
            let ghost before = out@;
            proof {
                lemma_position(n as int, d as int, cs, i as int, j as int);
                lemma_row_major(n as int, d as int, i as int, j as int);
                assert(i * d >= 0) by (nonlinear_arith);
            }
            let p: usize = element_position(n, d, vertical, chunk_size, i, j);
            out[i * d + j] = pdx[p];
            proof {
                assert forall|a: int, b: int|
                    (0 <= a < i && 0 <= b < d) || (a == i && 0 <= b < j + 1) implies pdx@[
                #[trigger] position(n as int, d as int, cs, a, b)] == out@[a * d + b] by {
                    if !(a == i && b == j) {
                        lemma_row_major(n as int, d as int, a, b);
                        if a < i {
                            assert(a * d + b < i * d) by (nonlinear_arith)
                                requires
                                    a + 1 <= i,
                                    0 <= b < d,
                            ;
                        }
                        assert(pdx@[position(n as int, d as int, cs, a, b)] == before[a * d + b]);
                    }
                }
            }
        }
    }
}

/// Reading a blocked matrix back gives the matrix that was laid out.
pub proof fn law_unblocking_inverts_blocking<T>(
    pdx: Seq<T>,
    rows: Seq<T>,
    back: Seq<T>,
    n: int,
    d: int,
    cs: int,
)
    requires
        0 < d,
        0 <= n,
        rows.len() == n * d,
        back.len() == n * d,
        is_blocked(pdx, rows, n, d, cs),
        is_blocked(pdx, back, n, d, cs),
    ensures
        back == rows,
{
    assert forall|p: int| 0 <= p < n * d implies back[p] == rows[p] by {
        let i = p / d;
        let j = p % d;
        lemma_fundamental_div_mod(p, d);
        lemma_mod_bound(p, d);
        assert(i * d + j == p) by (nonlinear_arith)
            requires
                p == d * i + j,
        ;
        assert(0 <= i < n) by (nonlinear_arith)
            requires
                i * d + j == p,
                0 <= p < n * d,
                0 <= j < d,
                d > 0,
        ;
        assert(pdx[position(n, d, cs, i, j)] == rows[i * d + j]);
        assert(pdx[position(n, d, cs, i, j)] == back[i * d + j]);
    }
    assert(back =~= rows);
}

/// How the blocked layout runs: within a chunk, a vertical dimension of one row
/// is next to that of the row before, and a horizontal one next to the dimension
/// before it in its block of 64; a further row lies a whole block on.
pub proof fn law_layout_runs(n: int, d: int, cs: int, i: int, j: int)
    requires
        0 < d <= u64::MAX,
        0 < cs,
        0 <= i < n,
        0 <= j < d,
    ensures
        ({
            let v = vertical_part(d as nat);
            let first = i / cs * cs;
            let rows = chunk_rows(n, cs, first);
            &&& position(n, d, cs, i, j) == position(n, d, cs, first, j) + (i - first) * (if j < v {
                1int
            } else {
                64
            })
            &&& j < v ==> position(n, d, cs, first, j) == first * d + j * rows
            &&& j >= v ==> position(n, d, cs, first, j) == first * d + (j - (j - v) % 64) * rows + (
            j - v) % 64
        }),
{
    let v = vertical_part(d as nat);
    let first = i / cs * cs;
    lemma_chunk(n, cs, i);
    lemma_chunk(n, cs, first);
    let q = i / cs;
    assert(first / cs == q) by {
        vstd::arithmetic::div_mod::lemma_div_multiples_vanish(q, cs);
        assert(q * cs == cs * q) by (nonlinear_arith);
    }
    assert((i - first) * 1 == i - first);
    assert((i - first) * 64 == 64 * (i - first));
    let b = (j - v) / 64 * 64;
    assert(j >= v ==> b == j - v - (j - v) % 64);
    assert(j >= v ==> v + b == j - (j - v) % 64);
}

/// The horizontal dimensions are whole blocks of 64: none of up to 64 dimensions,
/// and of more the whole blocks nearest to three quarters of them, but never
/// all.
pub proof fn law_horizontal_part_is_near_three_quarters(d: nat)
    requires
        3 * d < DOUBLE_LIMIT,
    ensures
        horizontal_part(d) % 64 == 0,
        d <= 64 ==> horizontal_part(d) == 0,
        d > 64 ==> 64 <= horizontal_part(d) < d,
        d > 64 && horizontal_part(d) > 64 ==> -32 < horizontal_part(d) - 3 * d / 4 <= 32,
{
}

} // verus!
