//! The non-affine displacement statistic.
//!
//! For each particle with at least one initial-snapshot neighbor, each
//! neighbor pair contributes `(1 - d0^2/dF^2) / |N(i)|` to the particle's
//! sum; the total over particles is divided once by the number of
//! particles that had neighbors. All accumulation is single precision in
//! the stream's order; a zero final distance propagates an infinity or
//! NaN pattern, unguarded, as the format's semantics demand. When no
//! particle has a neighbor the denominator would be zero, which surfaces
//! as a typed degeneracy error instead.

use vstd::prelude::*;
use crate::arith::{
    add_bits, div_bits, sub_bits, usize_to_f32_bits, f32b_add, f32b_div, f32b_from_usize, f32b_sub,
};
use crate::bits::{NEG_ZERO_BITS, ONE_BITS};
use crate::error::TrajError;
use crate::header::{Parameters, decode_header, header_spec};
use crate::neighbor::{
    dist2_spec, get_cell_neighbors, neighbors_spec, snapshot_wf, squared_distance,
};
use crate::record::{
    ParticleRecord, RecordView, decode_snapshots, expected_snapshot, stream_short_field, views,
};

verus! {

/// Per-particle accumulation over its neighbor list, in scan order: each
/// neighbor contributes `(1 - d0^2/dF^2) / |N(i)|`, with `dF^2` read from
/// the final snapshot.
pub open spec fn pair_sum(
    fin: Seq<RecordView>,
    i: int,
    ns: Seq<(usize, u32)>,
    k: nat,
    dims: int,
) -> u32
    decreases k,
{
    if k == 0 {
        NEG_ZERO_BITS
    } else {
        let pre = pair_sum(fin, i, ns, (k - 1) as nat, dims);
        let j = ns[k - 1].0;
        let d0 = ns[k - 1].1;
        add_bits(
            pre,
            div_bits(
                sub_bits(
                    ONE_BITS,
                    div_bits(d0, dist2_spec(fin[i].position, fin[j as int].position, dims as nat)),
                ),
                usize_to_f32_bits(ns.len() as int),
            ),
        )
    }
}

/// Running total and neighbor-bearing particle count after the first
/// `upto` particles, mirroring the accumulation order of the scan: the
/// count steps before the total, and an empty neighbor list still adds
/// negative zero once any particle has had neighbors.
pub open spec fn delta_state(
    ini: Seq<RecordView>,
    fin: Seq<RecordView>,
    dims: int,
    cutoff: u32,
    upto: nat,
) -> (u32, int)
    decreases upto,
{
    if upto == 0 {
        (NEG_ZERO_BITS, 0)
    } else {
        let (d, c) = delta_state(ini, fin, dims, cutoff, (upto - 1) as nat);
        let ns = neighbors_spec(ini, upto - 1, dims, cutoff);
        if ns.len() == 0 {
            if c != 0 {
                (add_bits(d, NEG_ZERO_BITS), c)
            } else {
                (d, c)
            }
        } else {
            (add_bits(d, pair_sum(fin, upto - 1, ns, ns.len(), dims)), c + 1)
        }
    }
}

/// The delta of a pair of snapshots: the running total divided by the
/// count of neighbor-bearing particles, or the degeneracy error when that
/// count is zero.
pub open spec fn delta_result(
    ini: Seq<RecordView>,
    fin: Seq<RecordView>,
    dims: int,
    cutoff: u32,
) -> Result<u32, TrajError> {
    let dc = delta_state(ini, fin, dims, cutoff, ini.len());
    if dc.1 == 0 {
        Err(TrajError::Degenerate)
    } else {
        Ok(div_bits(dc.0, usize_to_f32_bits(dc.1)))
    }
}

/// Aggregate the non-affine displacement over all particles. The result
/// is a function of the two snapshots, the dimensionality and the cutoff
/// alone, so repeated computation returns the identical bit pattern.
#[verifier::rlimit(50)]
pub fn get_delta(
    params: &Parameters,
    initial: &Vec<ParticleRecord>,
    fin_vec: &Vec<ParticleRecord>,
    cutoff_sq_bits: u32,
) -> (r: Result<u32, TrajError>)
    requires
        params.wf(),
        snapshot_wf(views(initial@), params@.particle_count, params@.dimensions),
        snapshot_wf(views(fin_vec@), params@.particle_count, params@.dimensions),
    ensures
        r == delta_result(
            views(initial@),
            views(fin_vec@),
            params@.dimensions,
            cutoff_sq_bits,
        ),
{
    let ghost iv = views(initial@);
    let ghost fv = views(fin_vec@);
    let ghost dims_g = params@.dimensions;
    let n = params.particle_count;
    let dims = params.dimensions;
    let mut delta: u32 = NEG_ZERO_BITS;
    let mut count: usize = 0;
    let mut i: usize = 0;
    while i < n
        invariant
            params.wf(),
            iv == views(initial@),
            fv == views(fin_vec@),
            dims_g == params@.dimensions,
            n == params@.particle_count,
            dims == params@.dimensions,
            snapshot_wf(iv, n as int, dims as int),
            snapshot_wf(fv, n as int, dims as int),
            0 <= i <= n,
            count <= i,
            (delta, count as int) == delta_state(iv, fv, dims_g, cutoff_sq_bits, i as nat),
        decreases n - i,
    {
        let neighbors = get_cell_neighbors(params, initial, i, cutoff_sq_bits);
        let ghost ns = neighbors_spec(iv, i as int, dims_g, cutoff_sq_bits);
        let mut sum: u32 = NEG_ZERO_BITS;
        if neighbors.len() != 0 {
            count = count + 1;
            let m = neighbors.len();
            let mf = f32b_from_usize(m);
            let mut t: usize = 0;
            while t < m
                invariant
                    params.wf(),
                    iv == views(initial@),
                    fv == views(fin_vec@),
                    dims_g == params@.dimensions,
                    n == params@.particle_count,
                    dims == params@.dimensions,
                    snapshot_wf(fv, n as int, dims as int),
                    i < n,
                    neighbors@ == ns,
                    forall|q: int| 0 <= q < ns.len() ==> (#[trigger] ns[q]).0 < n,
                    m == ns.len(),
                    mf == usize_to_f32_bits(m as int),
                    0 <= t <= m,
                    sum == pair_sum(fv, i as int, ns, t as nat, dims_g),
                decreases m - t,
            {
                let pair = neighbors[t];
                let j = pair.0;
                let d0 = pair.1;
                proof {
                    assert(fv[i as int] == fin_vec@[i as int]@);
                    assert(fv[j as int] == fin_vec@[j as int]@);
                    assert(fv[i as int].position.len() == dims_g);
                    assert(fv[j as int].position.len() == dims_g);
                }
                let df = squared_distance(&fin_vec[i], &fin_vec[j], dims);
                let ratio = f32b_div(d0, df);
                let term = f32b_div(f32b_sub(ONE_BITS, ratio), mf);
                sum = f32b_add(sum, term);
                t = t + 1;
            }
        }
        if count != 0 {
            delta = f32b_add(delta, sum);
        }
        proof {
            assert((delta, count as int) == delta_state(
                iv,
                fv,
                dims_g,
                cutoff_sq_bits,
                (i + 1) as nat,
            ));
        }
        i = i + 1;
    }
    if count == 0 {
        Err(TrajError::Degenerate)
    } else {
        Ok(f32b_div(delta, f32b_from_usize(count)))
    }
}

/// The whole-trajectory delta relation: header decode, the room-to-evolve
/// check (`initial_step` must stay below the total step count, failing
/// before any stream byte is read), stream decode of the two requested
/// snapshots (`final_step = initial_step + interval`), the remaining
/// logic checks, then the delta of the pair. Every error is pinned to
/// the inputs that produce it.
pub open spec fn trajectory_delta_spec(
    s: Seq<u8>,
    initial_step: int,
    interval: int,
    cutoff: u32,
) -> Result<u32, TrajError> {
    match header_spec(s) {
        Err(e) => Err(e),
        Ok(pu) => {
            let p = pu.0;
            let used = pu.1;
            if initial_step >= p.total_steps {
                Err(TrajError::LogicNoRoom)
            } else if initial_step + interval > usize::MAX as int {
                Err(TrajError::LogicStepNotRecorded)
            } else {
                let fs = initial_step + interval;
                let body = s.subrange(used, s.len() as int);
                if body.len() < p.total_bytes() {
                    Err(TrajError::IoShortRead(stream_short_field(p, body.len() as int)))
                } else {
                    let ini = expected_snapshot(p, body, initial_step);
                    let fin = expected_snapshot(p, body, fs);
                    if ini.len() == 0 || fin.len() == 0 {
                        Err(TrajError::LogicStepNotRecorded)
                    } else {
                        delta_result(ini, fin, p.dimensions, cutoff)
                    }
                }
            }
        },
    }
}

/// Decode a whole trajectory held in memory and compute the delta between
/// the snapshot at `initial_step` and the one `interval` steps later.
pub fn compute_trajectory_delta(
    data: &[u8],
    initial_step: usize,
    interval: usize,
    cutoff_sq_bits: u32,
) -> (r: Result<u32, TrajError>)
    ensures
        r == trajectory_delta_spec(data@, initial_step as int, interval as int, cutoff_sq_bits),
{
    let (params, used) = match decode_header(data) {
        Err(e) => { return Err(e); },
        Ok(pu) => pu,
    };
    if initial_step >= params.total_steps {
        return Err(TrajError::LogicNoRoom);
    }
    let final_step = match initial_step.checked_add(interval) {
        None => { return Err(TrajError::LogicStepNotRecorded); },
        Some(v) => v,
    };
    let body = vstd::slice::slice_subrange(data, used, data.len());
    let (ini, fin) = match decode_snapshots(&params, body, initial_step, final_step) {
        Err(e) => { return Err(e); },
        Ok(p) => p,
    };
    if ini.len() == 0 || fin.len() == 0 {
        return Err(TrajError::LogicStepNotRecorded);
    }
    proof {
        let pv = params@;
        let bodyv = data@.subrange(used as int, data@.len() as int);
        assert(views(ini@).len() == ini@.len());
        assert(views(fin@).len() == fin@.len());
        assert(snapshot_wf(views(ini@), pv.particle_count, pv.dimensions));
        assert(snapshot_wf(views(fin@), pv.particle_count, pv.dimensions));
    }
    get_delta(&params, &ini, &fin, cutoff_sq_bits)
}

} // verus!
