use cageq::control::{
    ack, begin_update, build_stamp, bump_heartbeat, end_update, publish, read_between, sample_rate,
    sequence, set_ack, set_build_stamp, set_sample_rate, try_read, write_update, ControlBlock,
    RawCoeffs, ReadOutcome, Snapshot, ACK_APPLIED, ACK_TOO_LOUD, CONTROL_MAGIC, CONTROL_VERSION,
};
use cageq::double::Double;
use cageq::dsp::{Coeffs, MAX_BANDS};

fn d(x: f64) -> Double {
    Double { bits: x.to_bits() }
}

fn raw(b0: f64, b1: f64, b2: f64, a1: f64, a2: f64) -> RawCoeffs {
    RawCoeffs { b0: d(b0), b1: d(b1), b2: d(b2), a1: d(a1), a2: d(a2) }
}

/// A block in the state a freshly created mapping would be: all zeroes.
fn zeroed() -> ControlBlock {
    ControlBlock {
        magic: 0,
        version: 0,
        seq: 0,
        band_count: 0,
        preamp_db: d(0.0),
        crossfade: 0,
        coeffs: [RawCoeffs::default(); MAX_BANDS],
        heartbeat: 0,
        ack: 0,
        sample_rate: 0,
        build_stamp: 0,
    }
}

/// A stable, ordinary filter: a gentle peaking band's coefficients.
fn stable() -> RawCoeffs {
    raw(1.02, -1.9, 0.89, -1.9, 0.91)
}

#[test]
fn the_apo_can_report_a_verdict_the_writer_could_not_predict() {
    let mut b = zeroed();
    assert!(publish(&mut b, d(-6.0), &[stable()], false));
    let seq = sequence(&b);

    // Nothing has looked at it yet: the ack still refers to an older sequence.
    assert_ne!(ack(&b).0, seq, "an unexamined update must not read as acknowledged");

    set_ack(&mut b, seq, ACK_APPLIED);
    assert_eq!(ack(&b), (seq, ACK_APPLIED));

    // A later update declined by the engine.
    assert!(publish(&mut b, d(-6.0), &[stable(), stable()], false));
    let seq2 = sequence(&b);
    set_ack(&mut b, seq2, ACK_TOO_LOUD);
    assert_eq!(ack(&b), (seq2, ACK_TOO_LOUD));
    assert_ne!(seq, seq2, "each publish must be separately acknowledgeable");
}

#[test]
fn publish_then_read_round_trips() {
    let mut b = zeroed();
    assert!(publish(&mut b, d(-6.0), &[stable(), stable()], false));

    let mut snap = Snapshot::default();
    match try_read(&b, &mut snap) {
        ReadOutcome::Updated(_) => {}
        other => panic!("expected Updated, got {other:?}"),
    }
    assert_eq!(snap.band_count, 2);
    assert_eq!(snap.preamp_db, d(-6.0));
    assert_eq!(snap.coeffs[0].b0, d(1.02));
    // Unused slots are identity, so a shrinking set cannot leave a stale filter running.
    assert_eq!(snap.coeffs[2].b0, Coeffs::passthrough().b0);
    assert!(!snap.crossfade, "the default publish must not request a crossfade");
}

#[test]
fn the_crossfade_flag_round_trips_and_is_not_sticky() {
    let mut b = zeroed();
    let mut snap = Snapshot::default();

    assert!(publish(&mut b, d(0.0), &[stable()], true));
    assert!(matches!(try_read(&b, &mut snap), ReadOutcome::Updated(_)));
    assert!(snap.crossfade, "a crossfade publish must read back as one");

    // A later ordinary publish must not leave the previous push's flag set.
    assert!(publish(&mut b, d(0.0), &[stable()], false));
    assert!(matches!(try_read(&b, &mut snap), ReadOutcome::Updated(_)));
    assert!(!snap.crossfade, "crossfade must not stick across an unrelated publish");
}

#[test]
fn an_unwritten_block_is_unrecognised() {
    let b = zeroed();
    let mut snap = Snapshot::default();
    assert_eq!(try_read(&b, &mut snap), ReadOutcome::Unrecognised);
}

#[test]
fn foreign_or_future_layouts_are_refused() {
    let mut b = zeroed();
    publish(&mut b, d(0.0), &[stable()], false);

    b.magic = 0xDEAD_BEEF;
    let mut snap = Snapshot::default();
    assert_eq!(try_read(&b, &mut snap), ReadOutcome::Unrecognised);

    b.magic = CONTROL_MAGIC;
    b.version = CONTROL_VERSION + 1;
    assert_eq!(try_read(&b, &mut snap), ReadOutcome::Unrecognised);
}

#[test]
fn torn_reads_are_detected_not_half_applied() {
    let mut b = zeroed();
    publish(&mut b, d(-3.0), &[stable()], false);
    let mut snap = Snapshot::default();

    // Writer mid-update: seq is odd.
    b.seq = 7;
    assert_eq!(try_read(&b, &mut snap), ReadOutcome::Torn);

    // and an even counter reads cleanly again once the writer has finished.
    b.seq = 8;
    assert!(matches!(try_read(&b, &mut snap), ReadOutcome::Updated(8)));
}

/// Every way a read can fall around the steps of a publish: what comes out is one publish or the
/// other, never a blend of the two.
#[test]
fn a_read_around_the_steps_of_a_publish_is_never_mixed() {
    let a = raw(0.5, 0.0, 0.0, 0.0, 0.5);
    let z = raw(0.9, 0.0, 0.0, 0.0, 0.9);
    let mut b = zeroed();
    publish(&mut b, d(-3.0), &[a, a, a], false);

    let mut moments: Vec<(u32, Vec<RawCoeffs>, u32, Double)> = Vec::new();
    let snap_of = |b: &ControlBlock| (b.seq, b.coeffs.to_vec(), b.band_count, b.preamp_db);
    moments.push(snap_of(&b));
    begin_update(&mut b);
    moments.push(snap_of(&b));
    write_update(&mut b, d(-9.0), &[z], false);
    moments.push(snap_of(&b));
    end_update(&mut b);
    moments.push(snap_of(&b));

    let mut updated = 0;
    for before in 0..moments.len() {
        for at in before..moments.len() {
            for after in at..moments.len() {
                let mut block = zeroed();
                block.magic = CONTROL_MAGIC;
                block.version = CONTROL_VERSION;
                block.seq = moments[at].0;
                block.coeffs.copy_from_slice(&moments[at].1);
                block.band_count = moments[at].2;
                block.preamp_db = moments[at].3;
                let mut snap = Snapshot::default();
                let r = read_between(moments[before].0, &block, moments[after].0, &mut snap);
                if let ReadOutcome::Updated(_) = r {
                    updated += 1;
                    let consistent = (snap.preamp_db == d(-3.0)
                        && snap.band_count == 3
                        && snap.coeffs[0].b0 == a.b0)
                        || (snap.preamp_db == d(-9.0)
                            && snap.band_count == 1
                            && snap.coeffs[0].b0 == z.b0);
                    assert!(consistent, "torn snapshot escaped validation: {snap:?}");
                }
            }
        }
    }
    assert_eq!(updated, 2, "only the reads that fall wholly before or after");
}

#[test]
fn unstable_filters_are_refused() {
    let unstable = [
        raw(1.0, 0.0, 0.0, 0.0, 1.5),  // |a2| >= 1
        raw(1.0, 0.0, 0.0, 0.0, -1.0), // |a2| == 1, marginal
        raw(1.0, 0.0, 0.0, 2.0, 0.5),  // |a1| >= 1 + a2
        raw(1.0, 0.0, 0.0, -1.6, 0.5), // and the mirror
    ];
    for u in unstable {
        assert!(!u.is_safe(), "accepted an unstable filter: {u:?}");
        let mut b = zeroed();
        assert!(!publish(&mut b, d(0.0), &[u], false), "published an unstable filter: {u:?}");
    }
    // A real filter sits comfortably inside the triangle.
    assert!(stable().is_safe());
}

#[test]
fn non_finite_values_are_refused() {
    for bad in [f64::NAN, f64::INFINITY, f64::NEG_INFINITY] {
        let mut c = stable();
        c.b0 = d(bad);
        assert!(!c.is_safe(), "accepted b0 = {bad}");
        let mut c = stable();
        c.a1 = d(bad);
        assert!(!c.is_safe(), "accepted a1 = {bad}");

        let mut b = zeroed();
        assert!(!publish(&mut b, d(bad), &[stable()], false), "published preamp = {bad}");
    }
}

#[test]
fn the_reader_does_not_trust_the_writer() {
    let mut b = zeroed();
    publish(&mut b, d(0.0), &[stable()], false);
    let mut snap = Snapshot::default();

    // A count past the end of the array.
    b.band_count = (MAX_BANDS + 1) as u32;
    assert_eq!(try_read(&b, &mut snap), ReadOutcome::Rejected);
    b.band_count = u32::MAX;
    assert_eq!(try_read(&b, &mut snap), ReadOutcome::Rejected);

    // Dangerous gain written straight into the block, bypassing `publish`.
    b.band_count = 1;
    b.preamp_db = d(60.0);
    assert_eq!(try_read(&b, &mut snap), ReadOutcome::Rejected);

    // An unstable filter written directly.
    b.preamp_db = d(0.0);
    b.coeffs[0] = raw(1.0, 0.0, 0.0, 0.0, 2.0);
    assert_eq!(try_read(&b, &mut snap), ReadOutcome::Rejected);
}

#[test]
fn a_failed_read_does_not_disturb_the_previous_snapshot() {
    let mut b = zeroed();
    publish(&mut b, d(-6.0), &[stable()], false);
    let mut snap = Snapshot::default();
    assert!(matches!(try_read(&b, &mut snap), ReadOutcome::Updated(_)));
    let good = snap;

    b.coeffs[0].a2 = d(5.0); // now unstable
    assert_eq!(try_read(&b, &mut snap), ReadOutcome::Rejected);
    assert_eq!(snap.preamp_db, good.preamp_db);
    assert_eq!(snap.band_count, good.band_count);
    assert_eq!(snap.coeffs[0].b0, good.coeffs[0].b0);
}

#[test]
fn the_sequence_number_identifies_an_update() {
    let mut b = zeroed();
    let mut snap = Snapshot::default();

    publish(&mut b, d(-1.0), &[stable()], false);
    let ReadOutcome::Updated(first) = try_read(&b, &mut snap) else { panic!("expected Updated") };
    let ReadOutcome::Updated(again) = try_read(&b, &mut snap) else { panic!("expected Updated") };
    assert_eq!(first, again, "an unchanged block must report the same sequence");

    publish(&mut b, d(-2.0), &[stable()], false);
    let ReadOutcome::Updated(second) = try_read(&b, &mut snap) else { panic!("expected Updated") };
    assert_ne!(first, second, "a new publish must be distinguishable");
}

#[test]
fn shrinking_the_set_clears_the_tail() {
    let mut b = zeroed();
    publish(&mut b, d(0.0), &[stable(), stable(), stable()], false);
    publish(&mut b, d(0.0), &[stable()], false);

    let mut snap = Snapshot::default();
    assert!(matches!(try_read(&b, &mut snap), ReadOutcome::Updated(_)));
    assert_eq!(snap.band_count, 1);
    assert_eq!(snap.coeffs[1].b0, Coeffs::passthrough().b0);
    assert_eq!(b.coeffs[1], RawCoeffs::default(), "stale coefficients left in the block");
}

#[test]
fn the_preamp_bounds_are_inclusive() {
    let mut b = zeroed();
    assert!(publish(&mut b, d(-120.0), &[], false));
    assert!(publish(&mut b, d(12.0), &[], false));
    assert!(!publish(&mut b, d(12.000001), &[], false));
    assert!(!publish(&mut b, d(-120.000001), &[], false));
    let many = vec![stable(); MAX_BANDS + 1];
    assert!(!publish(&mut b, d(0.0), &many, false));
    assert!(publish(&mut b, d(0.0), &many[..MAX_BANDS], false));
}

#[test]
fn the_outbound_fields_say_what_was_set() {
    let mut b = zeroed();
    assert_eq!(sample_rate(&b), None);
    set_sample_rate(&mut b, 48_000);
    assert_eq!(sample_rate(&b), Some(48_000));
    assert_eq!(build_stamp(&b), None);
    set_build_stamp(&mut b, "1700000000");
    assert_eq!(build_stamp(&b), Some(1_700_000_000));
    set_build_stamp(&mut b, "not a number");
    assert_eq!(build_stamp(&b), None);
    b.heartbeat = u64::MAX;
    bump_heartbeat(&mut b);
    assert_eq!(b.heartbeat, 0);
}

/// The stability test, against the same test in machine arithmetic, over a sweep of the triangle's
/// edges.
#[test]
fn stability_agrees_with_machine_arithmetic() {
    let mut seed: u64 = 0x1234_5678_9abc_def1;
    let mut inside = 0;
    for i in 0..20_000 {
        seed = seed.wrapping_mul(6364136223846793005).wrapping_add(1442695040888963407);
        let a2 = ((seed >> 11) as f64 / (1u64 << 53) as f64) * 2.2 - 1.1;
        let a2 = if i % 7 == 0 { a2 * 1e-17 } else { a2 };
        // On, just inside and just outside the edge.
        let edge = 1.0 + a2;
        for a1 in [
            edge,
            -edge,
            f64::from_bits(edge.abs().to_bits().wrapping_sub(1)),
            f64::from_bits(edge.abs().to_bits() + 1),
            edge * 0.5,
        ] {
            let want = a2.abs() < 1.0 && a1.abs() < 1.0 + a2;
            assert_eq!(raw(1.0, 0.0, 0.0, a1, a2).is_safe(), want, "a1 {a1:e} a2 {a2:e}");
            inside += want as u32;
        }
    }
    assert!(inside > 1000);
}
