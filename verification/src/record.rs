//! The binary snapshot stream.
//!
//! Immediately after the header the file holds `snapshot_count` snapshots,
//! each `particle_count` fixed-size records: `dimensions` little-endian
//! 32-bit floats (position components, carried as bit patterns), two
//! little-endian 16-bit unsigned integers (cell type, neighbor hint), and
//! one little-endian 32-bit float (core size). The format has no seek
//! index and no length prefixes, so every byte of every record is consumed
//! in stream order; only the two requested snapshots are materialized.

use vstd::prelude::*;
use vstd::arithmetic::div_mod::{lemma_fundamental_div_mod, lemma_fundamental_div_mod_converse};
use vstd::arithmetic::mul::lemma_mul_inequality;
use crate::error::{RecordField, TrajError};
use crate::header::{Parameters, ParamsView};

verus! {

/// One particle's state in one snapshot. Position components and the core
/// size are IEEE-754 binary32 bit patterns.
#[derive(Debug)]
pub struct ParticleRecord {
    /// Position components, one per spatial dimension.
    pub position: Vec<u32>,
    /// Cell type tag.
    pub cell_type: u16,
    /// Neighbor hint from the producer; carried, never used.
    pub neighbor_hint: u16,
    /// Core size.
    pub core_size: u32,
}

/// Mathematical image of [`ParticleRecord`].
#[verifier::ext_equal]
pub ghost struct RecordView {
    pub position: Seq<u32>,
    pub cell_type: u16,
    pub neighbor_hint: u16,
    pub core_size: u32,
}

impl View for ParticleRecord {
    type V = RecordView;

    open spec fn view(&self) -> RecordView {
        RecordView {
            position: self.position@,
            cell_type: self.cell_type,
            neighbor_hint: self.neighbor_hint,
            core_size: self.core_size,
        }
    }
}

/// Images of a sequence of records.
pub open spec fn views(s: Seq<ParticleRecord>) -> Seq<RecordView> {
    s.map_values(|r: ParticleRecord| r@)
}

/// Little-endian 16-bit value at `off`.
pub open spec fn le16_at(s: Seq<u8>, off: int) -> u16 {
    (s[off] as int + 256 * (s[off + 1] as int)) as u16
}

/// Little-endian 32-bit value at `off`.
pub open spec fn le32_at(s: Seq<u8>, off: int) -> u32 {
    (s[off] as int + 256 * (s[off + 1] as int) + 65536 * (s[off + 2] as int) + 16777216 * (s[
        off + 3] as int)) as u32
}

/// The record laid out at byte `base`.
pub open spec fn record_view_at(s: Seq<u8>, base: int, dims: int) -> RecordView {
    RecordView {
        position: Seq::new(dims as nat, |k: int| le32_at(s, base + 4 * k)),
        cell_type: le16_at(s, base + 4 * dims),
        neighbor_hint: le16_at(s, base + 4 * dims + 2),
        core_size: le32_at(s, base + 4 * dims + 4),
    }
}

/// The snapshot laid out at byte `base`.
pub open spec fn snapshot_view_at(s: Seq<u8>, base: int, p: ParamsView) -> Seq<RecordView> {
    Seq::new(
        p.particle_count as nat,
        |i: int| record_view_at(s, base + i * p.record_size(), p.dimensions),
    )
}

/// The index of the snapshot recorded at `step`, if that step is on the
/// recording grid and within the recorded range.
pub open spec fn retained_index(p: ParamsView, step: int) -> Option<int> {
    if step % p.snapshot_interval == 0 && step / p.snapshot_interval < p.snapshot_count() {
        Some(step / p.snapshot_interval)
    } else {
        None
    }
}

/// The snapshot recorded at `step`, or empty when no snapshot matches.
pub open spec fn expected_snapshot(p: ParamsView, s: Seq<u8>, step: int) -> Seq<RecordView> {
    match retained_index(p, step) {
        Some(idx) => snapshot_view_at(s, idx * p.snapshot_size(), p),
        None => Seq::<RecordView>::empty(),
    }
}

/// The field a record decode runs out in, given the bytes available from
/// the record's start.
pub open spec fn short_field_at(avail: int, dims: int) -> RecordField {
    if avail < 4 * dims {
        RecordField::PositionComponent
    } else if avail < 4 * dims + 4 {
        RecordField::AuxiliaryField
    } else {
        RecordField::CoreSize
    }
}

/// The field a sequential decode of a `len`-byte stream runs out in.
pub open spec fn stream_short_field(p: ParamsView, len: int) -> RecordField {
    short_field_at(len % p.record_size(), p.dimensions)
}

fn read_u16_le(data: &[u8], off: usize) -> (r: Option<u16>)
    requires
        off <= data@.len(),
    ensures
        off + 2 <= data@.len() ==> r == Some(le16_at(data@, off as int)),
        off + 2 > data@.len() ==> r is None,
        data@.len() <= usize::MAX as int,
{
    if data.len() - off < 2 {
        return None;
    }
    let b0 = data[off];
    let b1 = data[off + 1];
    Some(b0 as u16 + 256 * (b1 as u16))
}

fn read_u32_le(data: &[u8], off: usize) -> (r: Option<u32>)
    requires
        off <= data@.len(),
    ensures
        off + 4 <= data@.len() ==> r == Some(le32_at(data@, off as int)),
        off + 4 > data@.len() ==> r is None,
        data@.len() <= usize::MAX as int,
{
    if data.len() - off < 4 {
        return None;
    }
    let b0 = data[off];
    let b1 = data[off + 1];
    let b2 = data[off + 2];
    let b3 = data[off + 3];
    Some(b0 as u32 + 256 * (b1 as u32) + 65536 * (b2 as u32) + 16777216 * (b3 as u32))
}

/// Which auxiliary field a slot index denotes. The record layout carries
/// exactly two 16-bit auxiliary fields; a third is an unsupported record
/// version.
#[derive(Clone, Copy, Debug, PartialEq, Eq, Structural)]
pub enum AuxSlot {
    /// Slot 0: the cell type.
    CellType,
    /// Slot 1: the neighbor hint.
    NeighborHint,
}

/// Map an auxiliary slot index to its field, rejecting a third slot as an
/// unsupported record version.
pub fn aux_slot(index: usize) -> (r: Result<AuxSlot, TrajError>)
    ensures
        index == 0 ==> r == Ok::<AuxSlot, TrajError>(AuxSlot::CellType),
        index == 1 ==> r == Ok::<AuxSlot, TrajError>(AuxSlot::NeighborHint),
        index >= 2 ==> r == Err::<AuxSlot, TrajError>(TrajError::Protocol),
{
    if index == 0 {
        Ok(AuxSlot::CellType)
    } else if index == 1 {
        Ok(AuxSlot::NeighborHint)
    } else {
        Err(TrajError::Protocol)
    }
}

/// Decode one record at `off`, returning it and the offset just past it;
/// on a short read, the error names the field being read.
pub fn decode_record(data: &[u8], off: usize, dims: usize) -> (r: Result<
    (ParticleRecord, usize),
    TrajError,
>)
    requires
        off <= data@.len(),
    ensures
        (match r {
            Ok(p) => {
                &&& off + 4 * dims + 8 <= data@.len()
                &&& p.1 == off + 4 * dims + 8
                &&& p.0@ == record_view_at(data@, off as int, dims as int)
            },
            Err(e) => {
                &&& off + 4 * dims + 8 > data@.len()
                &&& e == TrajError::IoShortRead(
                    short_field_at(data@.len() - off, dims as int),
                )
            },
        }),
{
    let mut position: Vec<u32> = Vec::new();
    let mut cur: usize = off;
    let mut k: usize = 0;
    while k < dims
        invariant
            0 <= k <= dims,
            cur == off + 4 * k,
            cur <= data@.len(),
            position@ == Seq::new(k as nat, |t: int| le32_at(data@, off + 4 * t)),
        decreases dims - k,
    {
        match read_u32_le(data, cur) {
            None => {
                proof {
                    assert(data@.len() - off < 4 * k + 4 <= 4 * dims);
                }
                return Err(TrajError::IoShortRead(RecordField::PositionComponent));
            },
            Some(v) => {
                let ghost pre = position@;
                position.push(v);
                proof {
                    assert(cur + 4 <= data@.len());
                    assert(pre.push(v) =~= Seq::new(
                        (k + 1) as nat,
                        |t: int| le32_at(data@, off + 4 * t),
                    ));
                }
            },
        }
        cur = cur + 4;
        k = k + 1;
    }
    let mut cell_type: u16 = 0;
    let mut neighbor_hint: u16 = 0;
    let mut slot: usize = 0;
    while slot < 2
        invariant
            0 <= slot <= 2,
            cur == off + 4 * dims + 2 * slot,
            cur <= data@.len(),
            off + 4 * dims <= data@.len(),
            position@ == Seq::new(dims as nat, |t: int| le32_at(data@, off + 4 * t)),
            slot >= 1 ==> cell_type == le16_at(data@, off + 4 * dims),
            slot >= 2 ==> neighbor_hint == le16_at(data@, off + 4 * dims + 2),
        decreases 2 - slot,
    {
        match read_u16_le(data, cur) {
            None => {
                proof {
                    assert(data@.len() - off >= 4 * dims);
                    assert(data@.len() - off < 4 * dims + 2 * slot + 2 <= 4 * dims + 4);
                }
                return Err(TrajError::IoShortRead(RecordField::AuxiliaryField));
            },
            Some(v) => {
                proof {
                    assert(cur + 2 <= data@.len());
                }
                match aux_slot(slot) {
                    Ok(AuxSlot::CellType) => {
                        cell_type = v;
                    },
                    Ok(AuxSlot::NeighborHint) => {
                        neighbor_hint = v;
                    },
                    Err(e) => {
                        return Err(e);
                    },
                }
            },
        }
        cur = cur + 2;
        slot = slot + 1;
    }
    match read_u32_le(data, cur) {
        None => {
            proof {
                assert(data@.len() - off >= 4 * dims + 4);
                assert(data@.len() - off < 4 * dims + 8);
            }
            Err(TrajError::IoShortRead(RecordField::CoreSize))
        },
        Some(core_size) => {
            let rec = ParticleRecord { position, cell_type, neighbor_hint, core_size };
            proof {
                assert(cur + 4 <= data@.len());
                assert(rec@ =~= record_view_at(data@, off as int, dims as int));
            }
            Ok((rec, cur + 4))
        },
    }
}

/// The snapshot recorded at `step`, but only once the sequential decode
/// has passed its block: empty while `bound` snapshots have been decoded
/// and the matching index is not yet among them.
pub open spec fn snapshot_if_before(p: ParamsView, s: Seq<u8>, step: int, bound: int) -> Seq<
    RecordView,
> {
    match retained_index(p, step) {
        Some(idx) => if idx < bound {
            snapshot_view_at(s, idx * p.snapshot_size(), p)
        } else {
            Seq::<RecordView>::empty()
        },
        None => Seq::<RecordView>::empty(),
    }
}

/// Copy a record field by field, preserving its image.
fn duplicate_record(r: &ParticleRecord) -> (o: ParticleRecord)
    ensures
        o@ == r@,
{
    let m = r.position.len();
    let mut position: Vec<u32> = Vec::new();
    let mut k: usize = 0;
    while k < m
        invariant
            0 <= k <= m,
            m == r.position@.len(),
            position@ == r.position@.subrange(0, k as int),
        decreases m - k,
    {
        let ghost pre = position@;
        position.push(r.position[k]);
        proof {
            assert(pre.push(r.position@[k as int]) =~= r.position@.subrange(0, k + 1));
        }
        k = k + 1;
    }
    proof {
        assert(r.position@.subrange(0, m as int) =~= r.position@);
    }
    ParticleRecord {
        position,
        cell_type: r.cell_type,
        neighbor_hint: r.neighbor_hint,
        core_size: r.core_size,
    }
}

/// Decode the binary stream into the two retained snapshots, the one at
/// `initial_step` and the one at `final_step`, consuming every byte of
/// every snapshot in stream order. A step on neither the recording grid
/// nor within range yields the empty snapshot; when the two steps
/// coincide on a recorded snapshot, both positions hold it. Fails fast
/// with no byte read when the initial step leaves no room to evolve
/// (it must stay below the total step count); fails naming the field
/// being read when the stream runs short.
#[verifier::rlimit(50)]
pub fn decode_snapshots(
    params: &Parameters,
    data: &[u8],
    initial_step: usize,
    final_step: usize,
) -> (r: Result<(Vec<ParticleRecord>, Vec<ParticleRecord>), TrajError>)
    requires
        params.wf(),
    ensures
        initial_step >= params.total_steps ==> r == Err::<
            (Vec<ParticleRecord>, Vec<ParticleRecord>),
            TrajError,
        >(TrajError::LogicNoRoom),
        initial_step < params.total_steps ==> (match r {
            Ok(p) => {
                &&& params@.total_bytes() <= data@.len()
                &&& views(p.0@) == expected_snapshot(params@, data@, initial_step as int)
                &&& views(p.1@) == expected_snapshot(params@, data@, final_step as int)
            },
            Err(e) => {
                &&& data@.len() < params@.total_bytes()
                &&& e == TrajError::IoShortRead(stream_short_field(params@, data@.len() as int))
            },
        }),
{
    if initial_step >= params.total_steps {
        return Err(TrajError::LogicNoRoom);
    }
    let snaps = params.exit_steps();
    let n = params.particle_count;
    let dims = params.dimensions;
    let iv = params.snapshot_interval;
    let ghost pv = params@;
    let ghost rec_size = pv.record_size();
    let ghost snap_size = pv.snapshot_size();
    let mut ini: Vec<ParticleRecord> = Vec::new();
    let mut fin: Vec<ParticleRecord> = Vec::new();
    let mut off: usize = 0;
    let mut s: usize = 0;
    proof {
        assert(views(ini@) =~= Seq::<RecordView>::empty());
        assert(views(fin@) =~= Seq::<RecordView>::empty());
    }
    while s < snaps
        invariant
            pv == params@,
            pv.wf(),
            rec_size == pv.record_size(),
            snap_size == pv.snapshot_size(),
            snaps == pv.snapshot_count(),
            n == pv.particle_count,
            dims == pv.dimensions,
            iv == pv.snapshot_interval,
            initial_step < params.total_steps,
            0 <= s <= snaps,
            off == s * snap_size,
            off <= data@.len(),
            views(ini@) == snapshot_if_before(pv, data@, initial_step as int, s as int),
            views(fin@) == snapshot_if_before(pv, data@, final_step as int, s as int),
        decreases snaps - s,
    {
        proof {
            lemma_fundamental_div_mod(pv.total_steps, pv.snapshot_interval);
            lemma_mul_inequality(
                s as int,
                pv.total_steps / pv.snapshot_interval,
                pv.snapshot_interval,
            );
        }
        let step: usize = s * iv;
        let is_initial = step == initial_step;
        let is_final = step == final_step;
        proof {
            vstd::arithmetic::mul::lemma_mul_is_commutative(s as int, iv as int);
            if is_initial {
                lemma_fundamental_div_mod_converse(initial_step as int, iv as int, s as int, 0);
                assert(retained_index(pv, initial_step as int) == Some(s as int));
            } else {
                if retained_index(pv, initial_step as int) == Some(s as int) {
                    lemma_fundamental_div_mod(initial_step as int, iv as int);
                    assert(initial_step as int == (iv as int) * (initial_step as int / (
                    iv as int)));
                    assert(initial_step as int == (iv as int) * (s as int));
                    assert(false);
                }
                assert(retained_index(pv, initial_step as int) != Some(s as int));
            }
            if is_final {
                lemma_fundamental_div_mod_converse(final_step as int, iv as int, s as int, 0);
                assert(retained_index(pv, final_step as int) == Some(s as int));
            } else {
                if retained_index(pv, final_step as int) == Some(s as int) {
                    lemma_fundamental_div_mod(final_step as int, iv as int);
                    assert(final_step as int == (iv as int) * (final_step as int / (iv as int)));
                    assert(final_step as int == (iv as int) * (s as int));
                    assert(false);
                }
                assert(retained_index(pv, final_step as int) != Some(s as int));
            }
        }
        let ghost off0 = off as int;
        let mut p: usize = 0;
        while p < n
            invariant
                pv == params@,
                pv.wf(),
                rec_size == pv.record_size(),
                snap_size == pv.snapshot_size(),
                snaps == pv.snapshot_count(),
                n == pv.particle_count,
                dims == pv.dimensions,
                iv == pv.snapshot_interval,
                initial_step < params.total_steps,
                0 <= s < snaps,
                0 <= p <= n,
                is_initial == (retained_index(pv, initial_step as int) == Some(s as int)),
                is_final == (retained_index(pv, final_step as int) == Some(s as int)),
                off0 == s * snap_size,
                off == off0 + p * rec_size,
                off <= data@.len(),
                is_initial ==> views(ini@) == Seq::new(
                    p as nat,
                    |i: int| record_view_at(data@, off0 + i * rec_size, dims as int),
                ),
                !is_initial ==> views(ini@) == snapshot_if_before(
                    pv,
                    data@,
                    initial_step as int,
                    s as int,
                ),
                is_final ==> views(fin@) == Seq::new(
                    p as nat,
                    |i: int| record_view_at(data@, off0 + i * rec_size, dims as int),
                ),
                !is_final ==> views(fin@) == snapshot_if_before(
                    pv,
                    data@,
                    final_step as int,
                    s as int,
                ),
            decreases n - p,
        {
            match decode_record(data, off, dims) {
                Err(e) => {
                    proof {
                        let total = s * (n as int) + p;
                        assert(off0 + p * rec_size == total * rec_size) by (nonlinear_arith)
                            requires
                                off0 == s * ((n as int) * rec_size),
                                snap_size == (n as int) * rec_size,
                                off0 == s * snap_size,
                                total == s * (n as int) + p,
                        ;
                        lemma_fundamental_div_mod_converse(
                            data@.len() as int,
                            rec_size,
                            total,
                            data@.len() - off,
                        );
                        assert(stream_short_field(pv, data@.len() as int) == short_field_at(
                            data@.len() - off,
                            dims as int,
                        ));
                        assert((total + 1) * rec_size == total * rec_size + rec_size && (total
                            + 1) * rec_size <= pv.snapshot_count() * snap_size)
                            by (nonlinear_arith)
                            requires
                                0 <= rec_size,
                                snap_size == (n as int) * rec_size,
                                total == s * (n as int) + p,
                                0 <= p < (n as int),
                                0 <= s < pv.snapshot_count(),
                        ;
                        assert(data@.len() < (total + 1) * rec_size);
                        assert(data@.len() < pv.total_bytes());
                    }
                    return Err(e);
                },
                Ok(rp) => {
                    let (record, next) = rp;
                    proof {
                        assert(record@ == record_view_at(data@, off0 + p * rec_size, dims as int));
                    }
                    if is_final {
                        let copy = duplicate_record(&record);
                        let ghost pre = fin@;
                        fin.push(copy);
                        proof {
                            assert(views(pre.push(copy)) =~= views(pre).push(copy@));
                            assert(views(fin@) =~= Seq::new(
                                (p + 1) as nat,
                                |i: int| record_view_at(data@, off0 + i * rec_size, dims as int),
                            ));
                        }
                    }
                    if is_initial {
                        let ghost pre = ini@;
                        ini.push(record);
                        proof {
                            assert(views(pre.push(record)) =~= views(pre).push(record@));
                            assert(views(ini@) =~= Seq::new(
                                (p + 1) as nat,
                                |i: int| record_view_at(data@, off0 + i * rec_size, dims as int),
                            ));
                        }
                    }
                    off = next;
                    proof {
                        assert(off == off0 + (p + 1) * rec_size) by (nonlinear_arith)
                            requires
                                off == off0 + p * rec_size + rec_size,
                        ;
                    }
                    p = p + 1;
                },
            }
        }
        proof {
            assert(off == off0 + (n as int) * rec_size);
            assert(off == (s + 1) * snap_size) by (nonlinear_arith)
                requires
                    off == off0 + (n as int) * rec_size,
                    off0 == s * snap_size,
                    snap_size == (n as int) * rec_size,
            ;
            if is_initial {
                assert(views(ini@) =~= snapshot_view_at(data@, s * snap_size, pv));
                assert(views(ini@) == snapshot_if_before(pv, data@, initial_step as int, s + 1));
            } else {
                assert(views(ini@) == snapshot_if_before(pv, data@, initial_step as int, s + 1));
            }
            if is_final {
                assert(views(fin@) =~= snapshot_view_at(data@, s * snap_size, pv));
                assert(views(fin@) == snapshot_if_before(pv, data@, final_step as int, s + 1));
            } else {
                assert(views(fin@) == snapshot_if_before(pv, data@, final_step as int, s + 1));
            }
        }
        s = s + 1;
    }
    proof {
        assert(pv.total_bytes() == snaps * snap_size);
        if retained_index(pv, initial_step as int) is Some {
            let idx = retained_index(pv, initial_step as int)->Some_0;
            assert(idx < snaps);
        }
        assert(views(ini@) == expected_snapshot(pv, data@, initial_step as int));
        if retained_index(pv, final_step as int) is Some {
            let idx = retained_index(pv, final_step as int)->Some_0;
            assert(idx < snaps);
        }
        assert(views(fin@) == expected_snapshot(pv, data@, final_step as int));
    }
    Ok((ini, fin))
}

/// Stream alignment: a sequential decode reads exactly the
/// `snapshot_count * particle_count * record_size` bytes of the binary
/// section, so any two streams that agree on those bytes carry the same
/// contents for every snapshot step — decoding the same file with
/// different step pairs yields identical snapshots for any step requested
/// both times.
pub proof fn lemma_stream_alignment(p: ParamsView, s1: Seq<u8>, s2: Seq<u8>, step: int)
    requires
        p.wf(),
        0 <= step,
        p.total_bytes() <= s1.len(),
        p.total_bytes() <= s2.len(),
        s1.subrange(0, p.total_bytes()) == s2.subrange(0, p.total_bytes()),
    ensures
        expected_snapshot(p, s1, step) == expected_snapshot(p, s2, step),
{
    let total = p.total_bytes();
    assert forall|o: int| 0 <= o < total implies s1[o] == s2[o] by {
        assert(s1.subrange(0, total)[o] == s1[o]);
        assert(s2.subrange(0, total)[o] == s2[o]);
    }
    if retained_index(p, step) is Some {
        let idx = retained_index(p, step)->Some_0;
        let rec_size = p.record_size();
        let snap_size = p.snapshot_size();
        let base = idx * snap_size;
        assert(0 <= idx < p.snapshot_count());
        assert forall|i: int| 0 <= i < p.particle_count implies #[trigger] record_view_at(
            s1,
            base + i * rec_size,
            p.dimensions,
        ) =~= record_view_at(s2, base + i * rec_size, p.dimensions) by {
            let rbase = base + i * rec_size;
            assert(0 <= rbase && rbase + rec_size <= total) by (nonlinear_arith)
                requires
                    base == idx * snap_size,
                    rbase == base + i * rec_size,
                    snap_size == p.particle_count * rec_size,
                    total == p.snapshot_count() * snap_size,
                    0 <= idx < p.snapshot_count(),
                    0 <= i < p.particle_count,
                    rec_size > 0,
            ;
            let d = p.dimensions;
            assert forall|k: int| 0 <= k < d implies #[trigger] le32_at(s1, rbase + 4 * k)
                == le32_at(s2, rbase + 4 * k) by {
                assert(rbase + 4 * k + 4 <= rbase + 4 * d <= rbase + rec_size);
            }
            assert(record_view_at(s1, rbase, d).position =~= record_view_at(
                s2,
                rbase,
                d,
            ).position);
        }
        assert(snapshot_view_at(s1, base, p) =~= snapshot_view_at(s2, base, p));
    }
}

} // verus!
