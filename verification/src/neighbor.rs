//! Neighbor search at the initial snapshot.
//!
//! Two particles are neighbors when the squared Euclidean distance between
//! their initial positions is strictly below a cutoff (10.0 by default,
//! exposed as a parameter). No spatial index: a direct all-pairs scan, the
//! one performance-sensitive path of the system.

use vstd::prelude::*;
use crate::arith::{add_bits, sq_bits, sub_bits, f32b_add, f32b_sq, f32b_sub};
use crate::bits::{NEG_ZERO_BITS, f32_bits_lt, is_finite_bits, lt_bits};
use crate::header::Parameters;
use crate::record::{ParticleRecord, RecordView, views};

verus! {

/// Every component is a finite binary32 pattern.
pub open spec fn all_finite(p: Seq<u32>) -> bool {
    forall|i: int| 0 <= i < p.len() ==> is_finite_bits(#[trigger] p[i])
}

/// Every particle's position is finite.
pub open spec fn snapshot_finite(s: Seq<RecordView>) -> bool {
    forall|i: int| 0 <= i < s.len() ==> all_finite(#[trigger] s[i].position)
}

/// A snapshot of `n` records, each with `dims` position components.
pub open spec fn snapshot_wf(s: Seq<RecordView>, n: int, dims: int) -> bool {
    &&& s.len() == n
    &&& forall|i: int| 0 <= i < s.len() ==> (#[trigger] s[i].position).len() == dims
}

/// Squared Euclidean distance over the first `k` components, in the
/// stream's accumulation order, seeded with negative zero.
pub open spec fn dist2_spec(a: Seq<u32>, b: Seq<u32>, k: nat) -> u32
    decreases k,
{
    if k == 0 {
        NEG_ZERO_BITS
    } else {
        add_bits(dist2_spec(a, b, (k - 1) as nat), sq_bits(sub_bits(a[k - 1], b[k - 1])))
    }
}

/// Squared distance between two particles' positions. When both positions
/// are finite the reading is the same in both directions: each difference
/// negates exactly and squares to the same pattern.
pub fn squared_distance(a: &ParticleRecord, b: &ParticleRecord, dims: usize) -> (r: u32)
    requires
        a@.position.len() == dims,
        b@.position.len() == dims,
    ensures
        r == dist2_spec(a@.position, b@.position, dims as nat),
        all_finite(a@.position) && all_finite(b@.position) ==> r == dist2_spec(
            b@.position,
            a@.position,
            dims as nat,
        ),
{
    let mut sum: u32 = NEG_ZERO_BITS;
    let mut k: usize = 0;
    while k < dims
        invariant
            0 <= k <= dims,
            a@.position.len() == dims,
            b@.position.len() == dims,
            sum == dist2_spec(a@.position, b@.position, k as nat),
            all_finite(a@.position) && all_finite(b@.position) ==> sum == dist2_spec(
                b@.position,
                a@.position,
                k as nat,
            ),
        decreases dims - k,
    {
        let d = f32b_sub(a.position[k], b.position[k]);
        let t = f32b_sq(d);
        sum = f32b_add(sum, t);
        k = k + 1;
    }
    sum
}

/// Is `j` a neighbor of `i`: distinct, and strictly within the cutoff.
pub open spec fn is_neighbor(s: Seq<RecordView>, i: int, j: int, dims: int, cutoff: u32) -> bool {
    &&& j != i
    &&& lt_bits(dist2_spec(s[i].position, s[j].position, dims as nat), cutoff)
}

/// The neighbor list of `i` restricted to candidates below `j`, in scan
/// order: each entry pairs the neighbor index with the initial squared
/// distance.
pub open spec fn neighbors_upto(s: Seq<RecordView>, i: int, dims: int, cutoff: u32, j: nat) -> Seq<
    (usize, u32),
>
    decreases j,
{
    if j == 0 {
        Seq::<(usize, u32)>::empty()
    } else {
        let pre = neighbors_upto(s, i, dims, cutoff, (j - 1) as nat);
        if is_neighbor(s, i, j - 1, dims, cutoff) {
            pre.push(
                (
                    ((j - 1) as usize),
                    dist2_spec(s[i].position, s[j - 1].position, dims as nat),
                ),
            )
        } else {
            pre
        }
    }
}

/// The full neighbor list of `i`.
pub open spec fn neighbors_spec(s: Seq<RecordView>, i: int, dims: int, cutoff: u32) -> Seq<
    (usize, u32),
> {
    neighbors_upto(s, i, dims, cutoff, s.len())
}

/// All-pairs scan for the neighbors of one particle in the initial
/// snapshot, with their initial squared distances. When every position is
/// finite, the squared distances read the same from either end of each
/// pair, which is what the neighbor-symmetry law rests on.
pub fn get_cell_neighbors(
    params: &Parameters,
    initial: &Vec<ParticleRecord>,
    my_cell_index: usize,
    cutoff_sq_bits: u32,
) -> (r: Vec<(usize, u32)>)
    requires
        params.wf(),
        snapshot_wf(views(initial@), params@.particle_count, params@.dimensions),
        my_cell_index < initial@.len(),
    ensures
        r@ == neighbors_spec(
            views(initial@),
            my_cell_index as int,
            params@.dimensions,
            cutoff_sq_bits,
        ),
        forall|t: int| 0 <= t < r@.len() ==> (#[trigger] r@[t]).0 < initial@.len(),
        snapshot_finite(views(initial@)) ==> forall|j: int|
            0 <= j < initial@.len() ==> dist2_spec(
                views(initial@)[my_cell_index as int].position,
                (#[trigger] views(initial@)[j]).position,
                params@.dimensions as nat,
            ) == dist2_spec(
                views(initial@)[j].position,
                views(initial@)[my_cell_index as int].position,
                params@.dimensions as nat,
            ),
{
    let ghost sv = views(initial@);
    let ghost dims_g = params@.dimensions;
    let n = params.particle_count;
    let dims = params.dimensions;
    let mut out: Vec<(usize, u32)> = Vec::new();
    let mut j: usize = 0;
    proof {
        assert(out@ =~= neighbors_upto(sv, my_cell_index as int, dims_g, cutoff_sq_bits, 0));
    }
    while j < n
        invariant
            params.wf(),
            sv == views(initial@),
            dims_g == params@.dimensions,
            n == params@.particle_count,
            dims == params@.dimensions,
            snapshot_wf(sv, n as int, dims as int),
            my_cell_index < initial@.len(),
            0 <= j <= n,
            out@ == neighbors_upto(sv, my_cell_index as int, dims_g, cutoff_sq_bits, j as nat),
            forall|t: int| 0 <= t < out@.len() ==> (#[trigger] out@[t]).0 < initial@.len(),
            snapshot_finite(sv) ==> forall|jj: int|
                0 <= jj < j ==> dist2_spec(
                    sv[my_cell_index as int].position,
                    (#[trigger] sv[jj]).position,
                    dims_g as nat,
                ) == dist2_spec(
                    sv[jj].position,
                    sv[my_cell_index as int].position,
                    dims_g as nat,
                ),
        decreases n - j,
    {
        if j != my_cell_index {
            proof {
                assert(sv[my_cell_index as int] == initial@[my_cell_index as int]@);
                assert(sv[j as int] == initial@[j as int]@);
                assert(sv[my_cell_index as int].position.len() == dims_g);
                assert(sv[j as int].position.len() == dims_g);
            }
            let d2 = squared_distance(&initial[my_cell_index], &initial[j], dims);
            proof {
                if snapshot_finite(sv) {
                    assert(all_finite(sv[my_cell_index as int].position));
                    assert(all_finite(sv[j as int].position));
                }
            }
            if f32_bits_lt(d2, cutoff_sq_bits) {
                out.push((j, d2));
            }
        } else {
            proof {
                assert(!is_neighbor(sv, my_cell_index as int, j as int, dims_g, cutoff_sq_bits));
            }
        }
        j = j + 1;
    }
    out
}

/// Neighbor symmetry: whenever the squared distance between two particles
/// reads the same from either end — which `squared_distance` guarantees
/// for finite positions — particle `j` lists `i` with squared distance
/// `d` exactly when `i` lists `j` with the same `d`.
pub proof fn lemma_neighbors_membership(
    s: Seq<RecordView>,
    i: int,
    dims: int,
    cutoff: u32,
    j: nat,
    idx: usize,
    d: u32,
)
    requires
        j <= s.len(),
        s.len() <= usize::MAX as int,
    ensures
        neighbors_upto(s, i, dims, cutoff, j).contains((idx, d)) <==> (idx < j && is_neighbor(
            s,
            i,
            idx as int,
            dims,
            cutoff,
        ) && d == dist2_spec(s[i].position, s[idx as int].position, dims as nat)),
    decreases j,
{
    if j > 0 {
        lemma_neighbors_membership(s, i, dims, cutoff, (j - 1) as nat, idx, d);
        let pre = neighbors_upto(s, i, dims, cutoff, (j - 1) as nat);
        if is_neighbor(s, i, j - 1, dims, cutoff) {
            let x = (((j - 1) as usize), dist2_spec(s[i].position, s[j - 1].position, dims as nat));
            let cur = pre.push(x);
            assert(cur[pre.len() as int] == x);
            assert(forall|t: int| 0 <= t < pre.len() ==> cur[t] == pre[t]);
            if cur.contains((idx, d)) {
                let w = choose|w: int| 0 <= w < cur.len() && cur[w] == (idx, d);
                assert(w < pre.len() || cur[w] == x);
            }
            if pre.contains((idx, d)) {
                let w = choose|w: int| 0 <= w < pre.len() && pre[w] == (idx, d);
                assert(cur[w] == (idx, d));
            }
            if (idx, d) == x {
                assert(cur.contains(x));
            }
        }
    }
}

/// The neighbor-symmetry law, over the spec-level neighbor lists.
pub proof fn lemma_neighbor_symmetry(
    s: Seq<RecordView>,
    i: usize,
    j: usize,
    dims: int,
    cutoff: u32,
    d: u32,
)
    requires
        i < s.len(),
        j < s.len(),
        s.len() <= usize::MAX as int,
    ensures
        dist2_spec(s[i as int].position, s[j as int].position, dims as nat) == dist2_spec(
            s[j as int].position,
            s[i as int].position,
            dims as nat,
        ) ==> (neighbors_spec(s, i as int, dims, cutoff).contains((j, d)) <==> neighbors_spec(
            s,
            j as int,
            dims,
            cutoff,
        ).contains((i, d))),
{
    lemma_neighbors_membership(s, i as int, dims, cutoff, s.len(), j, d);
    lemma_neighbors_membership(s, j as int, dims, cutoff, s.len(), i, d);
}

} // verus!
