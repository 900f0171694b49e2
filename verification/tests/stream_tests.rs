use d2min::error::{RecordField, TrajError};
use d2min::header::Parameters;
use d2min::record::{aux_slot, decode_record, decode_snapshots, AuxSlot, ParticleRecord};

fn params_2d() -> Parameters {
    Parameters {
        particle_count: 2,
        total_steps: 10,
        snapshot_interval: 5,
        dimensions: 2,
        timestep_text: b"0.01".to_vec(),
        interaction_range_text: b"1.5".to_vec(),
    }
}

fn push_record(out: &mut Vec<u8>, pos: &[f32], cell_type: u16, hint: u16, core: f32) {
    for &x in pos {
        out.extend_from_slice(&x.to_bits().to_le_bytes());
    }
    out.extend_from_slice(&cell_type.to_le_bytes());
    out.extend_from_slice(&hint.to_le_bytes());
    out.extend_from_slice(&core.to_bits().to_le_bytes());
}

/// Three snapshots of two 2-D particles; snapshot `s` holds particle `i`
/// at `(i + s as f32, 2.0 * i as f32)`.
fn stream_3x2() -> Vec<u8> {
    let mut out = Vec::new();
    for s in 0..3u16 {
        for i in 0..2u16 {
            push_record(
                &mut out,
                &[i as f32 + s as f32, 2.0 * i as f32],
                s * 10 + i,
                7,
                0.5,
            );
        }
    }
    out
}

fn positions(rec: &ParticleRecord) -> Vec<f32> {
    rec.position.iter().map(|&b| f32::from_bits(b)).collect()
}

#[test]
fn decode_retains_requested_snapshots() {
    let p = params_2d();
    let data = stream_3x2();
    assert_eq!(data.len(), 3 * 2 * 16);
    let (ini, fin) = decode_snapshots(&p, &data, 0, 5).unwrap();
    assert_eq!(ini.len(), 2);
    assert_eq!(fin.len(), 2);
    assert_eq!(positions(&ini[0]), vec![0.0, 0.0]);
    assert_eq!(positions(&ini[1]), vec![1.0, 2.0]);
    assert_eq!(positions(&fin[0]), vec![1.0, 0.0]);
    assert_eq!(positions(&fin[1]), vec![2.0, 2.0]);
    assert_eq!(ini[0].cell_type, 0);
    assert_eq!(ini[1].cell_type, 1);
    assert_eq!(fin[0].cell_type, 10);
    assert_eq!(ini[0].neighbor_hint, 7);
    assert_eq!(f32::from_bits(ini[0].core_size), 0.5);
}

#[test]
fn decode_is_aligned_across_requests() {
    // The snapshot at step 5 reads identically whichever pair requests it.
    let p = params_2d();
    let data = stream_3x2();
    let (_, fin_a) = decode_snapshots(&p, &data, 0, 5).unwrap();
    let (ini_b, _) = decode_snapshots(&p, &data, 5, 10).unwrap();
    assert_eq!(fin_a.len(), ini_b.len());
    for (a, b) in fin_a.iter().zip(ini_b.iter()) {
        assert_eq!(a.position, b.position);
        assert_eq!(a.cell_type, b.cell_type);
        assert_eq!(a.neighbor_hint, b.neighbor_hint);
        assert_eq!(a.core_size, b.core_size);
    }
}

#[test]
fn decode_consumes_exactly_the_stream() {
    // Exactly snapshot_count * particle_count * record_size bytes decode;
    // one byte fewer is a short read, trailing bytes are ignored.
    let p = params_2d();
    let data = stream_3x2();
    assert!(decode_snapshots(&p, &data, 0, 5).is_ok());
    let mut longer = data.clone();
    longer.push(0xAB);
    assert!(decode_snapshots(&p, &longer, 0, 5).is_ok());
    let shorter = &data[..data.len() - 1];
    assert_eq!(
        decode_snapshots(&p, shorter, 0, 5).unwrap_err(),
        TrajError::IoShortRead(RecordField::CoreSize)
    );
}

#[test]
fn short_read_names_each_field() {
    let p = params_2d();
    let data = stream_3x2();
    // Record layout: 8 bytes of positions, 4 of auxiliaries, 4 of core.
    let cases = [
        (3, RecordField::PositionComponent),
        (7, RecordField::PositionComponent),
        (9, RecordField::AuxiliaryField),
        (11, RecordField::AuxiliaryField),
        (13, RecordField::CoreSize),
        (16 + 5, RecordField::PositionComponent),
    ];
    for (len, field) in cases {
        assert_eq!(
            decode_snapshots(&p, &data[..len], 0, 5).unwrap_err(),
            TrajError::IoShortRead(field),
            "{len}"
        );
    }
}

#[test]
fn no_room_to_evolve() {
    // The initial step must stay strictly below the total step count;
    // at or beyond it the decoder fails before reading any byte, so a
    // truncated stream still reports the logic error, not a short read.
    let p = params_2d();
    let data = stream_3x2();
    assert_eq!(
        decode_snapshots(&p, &data, 10, 15).unwrap_err(),
        TrajError::LogicNoRoom
    );
    assert_eq!(
        decode_snapshots(&p, &data, 11, 16).unwrap_err(),
        TrajError::LogicNoRoom
    );
    assert_eq!(
        decode_snapshots(&p, &data[..3], 100, 105).unwrap_err(),
        TrajError::LogicNoRoom
    );
}

#[test]
fn unmatched_steps_yield_empty_snapshots() {
    let p = params_2d();
    let data = stream_3x2();
    // Off-grid initial step, in-range final step.
    let (ini, fin) = decode_snapshots(&p, &data, 3, 5).unwrap();
    assert_eq!(ini.len(), 0);
    assert_eq!(fin.len(), 2);
    // Final step beyond the recorded range.
    let (ini, fin) = decode_snapshots(&p, &data, 5, 15).unwrap();
    assert_eq!(ini.len(), 2);
    assert_eq!(fin.len(), 0);
}

#[test]
fn coinciding_steps_fill_both_snapshots() {
    // Interval 0: the snapshot at the shared step is returned in both
    // positions, each of full particle count.
    let p = params_2d();
    let data = stream_3x2();
    let (ini, fin) = decode_snapshots(&p, &data, 5, 5).unwrap();
    assert_eq!(ini.len(), 2);
    assert_eq!(fin.len(), 2);
    for (a, b) in ini.iter().zip(fin.iter()) {
        assert_eq!(a.position, b.position);
        assert_eq!(a.cell_type, b.cell_type);
        assert_eq!(a.neighbor_hint, b.neighbor_hint);
        assert_eq!(a.core_size, b.core_size);
    }
    assert_eq!(positions(&ini[0]), vec![1.0, 0.0]);
}

#[test]
fn third_auxiliary_field_is_unsupported_version() {
    assert_eq!(aux_slot(0), Ok(AuxSlot::CellType));
    assert_eq!(aux_slot(1), Ok(AuxSlot::NeighborHint));
    assert_eq!(aux_slot(2), Err(TrajError::Protocol));
    assert_eq!(TrajError::Protocol.describe(), "unsupported record version");
}

#[test]
fn decode_record_reads_little_endian() {
    let mut data = Vec::new();
    push_record(&mut data, &[1.25, -2.5], 0x0102, 0xA0B0, 3.75);
    let (rec, next) = decode_record(&data, 0, 2).unwrap();
    assert_eq!(next, 16);
    assert_eq!(positions(&rec), vec![1.25, -2.5]);
    assert_eq!(rec.cell_type, 0x0102);
    assert_eq!(rec.neighbor_hint, 0xA0B0);
    assert_eq!(f32::from_bits(rec.core_size), 3.75);
    // The layout is little-endian by construction of the bytes above.
    assert_eq!(&data[0..4], &1.25f32.to_le_bytes());
}
