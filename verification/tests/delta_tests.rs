use d2min::bits::DEFAULT_CUTOFF_SQ_BITS;
use d2min::delta::{compute_trajectory_delta, get_delta};
use d2min::error::TrajError;
use d2min::header::Parameters;
use d2min::neighbor::{get_cell_neighbors, squared_distance};
use d2min::record::ParticleRecord;

fn params(n: usize, dims: usize) -> Parameters {
    Parameters {
        particle_count: n,
        total_steps: 10,
        snapshot_interval: 5,
        dimensions: dims,
        timestep_text: b"0.01".to_vec(),
        interaction_range_text: b"1.5".to_vec(),
    }
}

fn record(pos: &[f32]) -> ParticleRecord {
    ParticleRecord {
        position: pos.iter().map(|x| x.to_bits()).collect(),
        cell_type: 0,
        neighbor_hint: 0,
        core_size: 1.0f32.to_bits(),
    }
}

fn snapshot(points: &[&[f32]]) -> Vec<ParticleRecord> {
    points.iter().map(|p| record(p)).collect()
}

#[test]
fn squared_distance_exact() {
    let a = record(&[0.0, 0.0]);
    let b = record(&[3.0, 4.0]);
    let d2 = squared_distance(&a, &b, 2);
    assert_eq!(f32::from_bits(d2), 25.0);
    assert_eq!(squared_distance(&b, &a, 2), d2);
}

#[test]
fn neighbor_symmetry_concrete() {
    let snap = snapshot(&[&[0.0, 0.0], &[1.0, 0.0], &[0.0, 2.0], &[100.0, 100.0]]);
    let p = params(4, 2);
    let lists: Vec<_> = (0..4)
        .map(|i| get_cell_neighbors(&p, &snap, i, DEFAULT_CUTOFF_SQ_BITS))
        .collect();
    for i in 0..4 {
        for &(j, d) in &lists[i] {
            assert!(
                lists[j].iter().any(|&(k, e)| k == i && e == d),
                "{i} lists {j} but not conversely"
            );
        }
    }
    // The far particle has no neighbors and appears in no list.
    assert!(lists[3].is_empty());
    assert!(lists[..3].iter().all(|l| l.iter().all(|&(j, _)| j != 3)));
    // Expected distances from particle 0: 1.0 to particle 1, 4.0 to 2.
    let l0: Vec<_> = lists[0].iter().map(|&(j, d)| (j, f32::from_bits(d))).collect();
    assert_eq!(l0, vec![(1, 1.0), (2, 4.0)]);
}

#[test]
fn neighbor_cutoff_is_strict() {
    // With cutoff 4.0: squared distance exactly 4.0 is excluded, an
    // infinitesimally smaller one is included.
    let cutoff = 4.0f32.to_bits();
    let p = params(2, 1);
    let at_cutoff = snapshot(&[&[0.0], &[2.0]]);
    assert!(get_cell_neighbors(&p, &at_cutoff, 0, cutoff).is_empty());
    let below = f32::from_bits(2.0f32.to_bits() - 1); // largest f32 below 2.0
    let just_inside = snapshot(&[&[0.0], &[below]]);
    let found = get_cell_neighbors(&p, &just_inside, 0, cutoff);
    assert_eq!(found.len(), 1);
    assert!(f32::from_bits(found[0].1) < 4.0);
}

#[test]
fn delta_two_particles_exact() {
    // d0^2 = 1, dF^2 = 4: each particle contributes (1 - 1/4)/1 = 0.75,
    // and the total divides by the two neighbor-bearing particles.
    let p = params(2, 1);
    let ini = snapshot(&[&[0.0], &[1.0]]);
    let fin = snapshot(&[&[0.0], &[2.0]]);
    let delta = get_delta(&p, &ini, &fin, DEFAULT_CUTOFF_SQ_BITS).unwrap();
    assert_eq!(f32::from_bits(delta), 0.75);
}

#[test]
fn delta_is_deterministic() {
    let p = params(3, 2);
    let ini = snapshot(&[&[0.0, 0.0], &[1.0, 0.25], &[0.5, 1.5]]);
    let fin = snapshot(&[&[0.1, 0.0], &[1.2, 0.5], &[0.25, 1.75]]);
    let a = get_delta(&p, &ini, &fin, DEFAULT_CUTOFF_SQ_BITS).unwrap();
    let b = get_delta(&p, &ini, &fin, DEFAULT_CUTOFF_SQ_BITS).unwrap();
    // Bit-exact reproduction, not merely approximate equality.
    assert_eq!(a, b);
}

#[test]
fn delta_degenerate_when_no_neighbors() {
    let p = params(2, 2);
    let ini = snapshot(&[&[0.0, 0.0], &[100.0, 100.0]]);
    let fin = snapshot(&[&[1.0, 0.0], &[101.0, 100.0]]);
    assert_eq!(
        get_delta(&p, &ini, &fin, DEFAULT_CUTOFF_SQ_BITS).unwrap_err(),
        TrajError::Degenerate
    );
}

#[test]
fn coincident_final_positions_propagate_a_sentinel() {
    // A zero final-snapshot distance is not guarded: the contribution is
    // an infinite or NaN value, a defined sentinel, never a crash.
    let p = params(2, 1);
    let ini = snapshot(&[&[0.0], &[1.0]]);
    let fin = snapshot(&[&[0.5], &[0.5]]);
    let delta = get_delta(&p, &ini, &fin, DEFAULT_CUTOFF_SQ_BITS).unwrap();
    assert!(!f32::from_bits(delta).is_finite());
}

fn push_record(out: &mut Vec<u8>, pos: &[f32]) {
    for &x in pos {
        out.extend_from_slice(&x.to_bits().to_le_bytes());
    }
    out.extend_from_slice(&0u16.to_le_bytes());
    out.extend_from_slice(&0u16.to_le_bytes());
    out.extend_from_slice(&1.0f32.to_le_bytes());
}

/// The concrete scenario file: header `4/20/5/2/0.01/1.5`, then five
/// snapshots of four particles on a unit square, each snapshot's square
/// transformed by the given map.
fn square_trajectory(map: impl Fn(usize, f32, f32) -> (f32, f32)) -> Vec<u8> {
    let mut out = b"4\n20\n5\n2\n0.01\n1.5\n".to_vec();
    let corners = [(0.0f32, 0.0f32), (1.0, 0.0), (0.0, 1.0), (1.0, 1.0)];
    for s in 0..5 {
        for &(x, y) in &corners {
            let (px, py) = map(s, x, y);
            push_record(&mut out, &[px, py]);
        }
    }
    out
}

#[test]
fn scenario_affine_jitter_yields_small_delta() {
    // A uniform scale of 1.001 per snapshot: near-affine, delta near 0.
    let data = square_trajectory(|s, x, y| {
        let scale = 1.0 + 0.001 * s as f32;
        (x * scale, y * scale)
    });
    let delta = compute_trajectory_delta(&data, 0, 5, DEFAULT_CUTOFF_SQ_BITS).unwrap();
    let delta = f32::from_bits(delta);
    assert!(delta.is_finite());
    assert!(delta.abs() < 0.01, "{delta}");
}

#[test]
fn scenario_shear_jitter_yields_visible_delta() {
    let data = square_trajectory(|s, x, y| (x + 0.5 * s as f32 * y, y));
    let delta = compute_trajectory_delta(&data, 0, 5, DEFAULT_CUTOFF_SQ_BITS).unwrap();
    let delta = f32::from_bits(delta);
    assert!(delta.is_finite());
    assert!(delta > 0.01, "{delta}");
}

#[test]
fn trajectory_logic_errors() {
    let data = square_trajectory(|_, x, y| (x, y));
    // An initial step at or beyond the total step count fails before any
    // stream byte is read: no room to evolve.
    assert_eq!(
        compute_trajectory_delta(&data, 20, 5, DEFAULT_CUTOFF_SQ_BITS).unwrap_err(),
        TrajError::LogicNoRoom
    );
    assert_eq!(
        compute_trajectory_delta(&data, 21, 5, DEFAULT_CUTOFF_SQ_BITS).unwrap_err(),
        TrajError::LogicNoRoom
    );
    let header_only = &data[.."4\n20\n5\n2\n0.01\n1.5\n".len()];
    assert_eq!(
        compute_trajectory_delta(header_only, 25, 5, DEFAULT_CUTOFF_SQ_BITS).unwrap_err(),
        TrajError::LogicNoRoom
    );
    // Off-grid initial step: no recorded snapshot.
    assert_eq!(
        compute_trajectory_delta(&data, 3, 2, DEFAULT_CUTOFF_SQ_BITS).unwrap_err(),
        TrajError::LogicStepNotRecorded
    );
    // Final step beyond the recorded range.
    assert_eq!(
        compute_trajectory_delta(&data, 5, 100, DEFAULT_CUTOFF_SQ_BITS).unwrap_err(),
        TrajError::LogicStepNotRecorded
    );
}

#[test]
fn zero_interval_compares_a_snapshot_with_itself() {
    // Interval 0: both requested snapshots are the same recorded one, so
    // every distance ratio is exactly 1 and the delta is exactly 0.
    let data = square_trajectory(|s, x, y| (x + 0.25 * s as f32, y));
    let delta = compute_trajectory_delta(&data, 5, 0, DEFAULT_CUTOFF_SQ_BITS).unwrap();
    assert_eq!(f32::from_bits(delta).abs(), 0.0);
}

#[test]
fn trajectory_identity_is_degenerate_free_zero() {
    // Identical snapshots: every ratio is 1, so the delta is exactly 0.
    let data = square_trajectory(|_, x, y| (x, y));
    let delta = compute_trajectory_delta(&data, 0, 5, DEFAULT_CUTOFF_SQ_BITS).unwrap();
    assert_eq!(f32::from_bits(delta).abs(), 0.0);
}
