use cageq::double::Double;
use cageq::dsp::{Band, FilterKind};
use cageq::slots::{
    band_key, is_isolate_audition, isolate_boundary_crossed, slot_reusable, SlotAssignment,
};

fn d(x: f64) -> Double {
    Double { bits: x.to_bits() }
}

fn f(x: Double) -> f64 {
    f64::from_bits(x.bits)
}

fn of(kind: FilterKind, freq_hz: f64, gain_db: f64, q: f64) -> Band {
    Band { kind, freq_hz: d(freq_hz), gain_db: d(gain_db), q: d(q) }
}

fn band(freq_hz: f64, gain_db: f64, q: f64) -> Band {
    of(FilterKind::Peaking, freq_hz, gain_db, q)
}

fn freq(b: &Option<Band>) -> f64 {
    f(b.unwrap().freq_hz)
}

#[test]
fn only_a_single_bare_bandpass_counts_as_the_isolate_audition() {
    let bandpass = of(FilterKind::Bandpass, 100.0, 0.0, 8.0);
    assert!(is_isolate_audition(std::slice::from_ref(&bandpass)));

    assert!(!is_isolate_audition(&[]), "no bands at all is not isolate");
    assert!(
        !is_isolate_audition(std::slice::from_ref(&band(1000.0, 3.0, 1.0))),
        "an ordinary single band is not isolate"
    );
    assert!(
        !is_isolate_audition(&[bandpass, band(1000.0, 3.0, 1.0)]),
        "a bandpass alongside other bands is not isolate"
    );
    assert!(!is_isolate_audition(&[bandpass, bandpass]), "two bandpasses is not isolate either");
}

#[test]
fn isolate_boundary_crossed_covers_entering_leaving_and_a_far_drag_jump() {
    // Entering: correction -> isolate.
    assert!(isolate_boundary_crossed(false, true, true), "entering isolate must crossfade");
    // Leaving: isolate -> correction.
    assert!(isolate_boundary_crossed(true, false, false), "leaving isolate must crossfade");
    // A drag continuing, but jumping far enough to open a fresh slot.
    assert!(
        isolate_boundary_crossed(true, true, true),
        "a far-enough drag jump mid-isolate must also crossfade, not just entering/leaving"
    );

    // A drag continuing with its own slot reused.
    assert!(
        !isolate_boundary_crossed(true, true, false),
        "an ordinary in-place drag retune must not crossfade"
    );
    // Never isolate on either side.
    assert!(!isolate_boundary_crossed(false, false, true), "a non-isolate edit must never crossfade");
    assert!(!isolate_boundary_crossed(false, false, false), "a non-isolate edit must never crossfade");
}

#[test]
fn a_far_drag_jump_through_real_slot_assignment_is_recognised_as_a_boundary() {
    let mut sa = SlotAssignment::default();
    let entry_bandpass = of(FilterKind::Bandpass, 9000.0, 0.0, 8.0);
    let was_isolate = false;
    let is_isolate = is_isolate_audition(std::slice::from_ref(&entry_bandpass));
    let prev_isolate_slot = sa.isolate_slot;
    sa.assign(std::slice::from_ref(&entry_bandpass));
    sa.was_isolate = is_isolate;
    assert!(
        isolate_boundary_crossed(was_isolate, is_isolate, sa.isolate_slot != prev_isolate_slot),
        "entering must crossfade"
    );

    // The drag continues, jumping straight down to 31 Hz.
    let drag_bandpass = of(FilterKind::Bandpass, 31.0, 0.0, 8.0);
    let was_isolate = sa.was_isolate;
    let is_isolate = is_isolate_audition(std::slice::from_ref(&drag_bandpass));
    let prev_isolate_slot = sa.isolate_slot;
    sa.assign(std::slice::from_ref(&drag_bandpass));
    let isolate_slot_changed = sa.isolate_slot != prev_isolate_slot;
    assert!(isolate_slot_changed, "9000 Hz -> 31 Hz must not reuse the same slot");
    assert!(
        isolate_boundary_crossed(was_isolate, is_isolate, isolate_slot_changed),
        "a far jump mid-drag must still be recognised as a boundary crossing"
    );
}

#[test]
fn a_drag_that_swings_back_near_an_abandoned_slot_still_tracks_the_current_one() {
    let mut sa = SlotAssignment::default();
    let far = of(FilterKind::Bandpass, 9000.0, 0.0, 8.0);
    let low = of(FilterKind::Bandpass, 31.0, 0.0, 8.0);
    // Close to `far`'s old position (well within an octave), far from `low`'s.
    let back = of(FilterKind::Bandpass, 8000.0, 0.0, 8.0);

    let first = sa.assign(std::slice::from_ref(&far));
    assert_eq!(first.len(), 1);
    let far_slot = sa.isolate_slot;

    let second = sa.assign(std::slice::from_ref(&low));
    assert_eq!(second.len(), 2, "far apart, must open a new slot rather than reuse `far`'s");
    assert!(second[far_slot.unwrap()].is_none(), "the old (far) slot must be an explicit gap now");
    let low_slot = sa.isolate_slot;
    assert_ne!(low_slot, far_slot, "the band's current slot must be the new one, not the old one");

    let third = sa.assign(std::slice::from_ref(&back));
    assert!(
        third[far_slot.unwrap()].is_none(),
        "the old (far) slot must stay untouched, not get reclaimed"
    );
    assert!(third[low_slot.unwrap()].is_none(), "the old (low) slot must also stay an explicit gap");
    let back_slot = sa.isolate_slot.expect("back must have landed somewhere");
    assert_ne!(back_slot, far_slot.unwrap(), "must NOT resurrect the abandoned far slot");
    assert_ne!(back_slot, low_slot.unwrap(), "back is not close to low either — must be a fresh slot");
    assert_eq!(
        third[back_slot].map(|b| f(b.freq_hz)),
        Some(8000.0),
        "back must land in its own, genuinely new slot"
    );

    assert!(
        isolate_boundary_crossed(true, true, back_slot != low_slot.unwrap()),
        "landing on a different slot than last time must still trigger the crossfade"
    );
}

#[test]
fn removing_a_middle_band_does_not_reindex_the_one_after_it() {
    let mut sa = SlotAssignment::default();
    let low = band(100.0, 3.0, 0.7);
    let mid = band(1000.0, -2.0, 1.0);
    let high = band(8000.0, 4.0, 0.7);

    let all_three = [low, mid, high];
    let first = sa.assign(&all_three);
    assert_eq!(first.len(), 3);
    assert_eq!(freq(&first[2]), 8000.0, "high starts in slot 2");

    // Drop mid. Only low and high remain, in that order.
    let low_high = [low, high];
    let second = sa.assign(&low_high);
    assert_eq!(second.len(), 3, "high's slot must stay put, not collapse the array");
    assert_eq!(freq(&second[0]), 100.0, "low keeps its slot");
    assert!(second[1].is_none(), "mid's old slot fades in place instead of being reused yet");
    assert_eq!(freq(&second[2]), 8000.0, "high must still be in slot 2, not slot 1");
}

#[test]
fn editing_a_bands_gain_keeps_its_own_slot() {
    let mut sa = SlotAssignment::default();
    let a = band(1000.0, 2.0, 1.0);
    let b = band(5000.0, -3.0, 0.7);
    sa.assign(&[a, b]);

    let a_louder = band(1000.0, 6.0, 1.0);
    let louder_pair = [a_louder, b];
    let second = sa.assign(&louder_pair);
    assert_eq!(f(second[0].unwrap().gain_db), 6.0, "the edited band stays in slot 0");
    assert_eq!(freq(&second[1]), 5000.0, "the untouched band stays in slot 1");
}

#[test]
fn a_new_band_reuses_a_freed_slot_before_growing() {
    let mut sa = SlotAssignment::default();
    let low = band(100.0, 3.0, 0.7);
    let mid = band(1000.0, -2.0, 1.0);
    sa.assign(&[low, mid]);
    sa.assign(&[low]); // drop mid, freeing slot 1

    let near_mid = band(1400.0, 1.0, 1.0);
    let low_near = [low, near_mid];
    let third = sa.assign(&low_near);
    assert_eq!(third.len(), 2, "the new band reused the freed slot instead of appending");
    assert_eq!(freq(&third[1]), 1400.0);
}

#[test]
fn a_distant_band_does_not_reuse_a_freed_slot() {
    let mut sa = SlotAssignment::default();
    let low = band(100.0, 3.0, 0.7);
    let mid = band(1000.0, -2.0, 1.0);
    let high = band(8000.0, 4.0, 0.7);
    sa.assign(&[low, mid, high]);

    let low_high = [low, high];
    sa.assign(&low_high); // drop mid: slot 1 fades in place, high stays in slot 2

    let distant = band(15000.0, 1.0, 1.0);
    let low_high_distant = [low, high, distant];
    let third = sa.assign(&low_high_distant);
    assert_eq!(third.len(), 4, "the distant band must not reuse mid's slot — it needs its own");
    assert_eq!(freq(&third[0]), 100.0, "low keeps its slot");
    assert!(third[1].is_none(), "mid's old slot keeps fading, untouched by the unrelated band");
    assert_eq!(freq(&third[2]), 8000.0, "high keeps its slot");
    assert_eq!(freq(&third[3]), 15000.0, "the distant band gets a fresh slot instead");

    // A later band that is close to what slot 1 used to hold can still reclaim it.
    let reclaim = band(900.0, 1.0, 1.0);
    let low_reclaim_high_distant = [low, reclaim, high, distant];
    let fourth = sa.assign(&low_reclaim_high_distant);
    assert_eq!(fourth.len(), 4, "no new slot needed — the close band reclaimed the old one");
    assert_eq!(freq(&fourth[1]), 900.0, "close enough to mid's old 1 kHz to reuse slot 1");
}

#[test]
fn a_different_filter_kind_does_not_reuse_a_freed_slot_even_at_the_same_fc() {
    let mut sa = SlotAssignment::default();
    let low = band(100.0, 3.0, 0.7);
    let shelf = of(FilterKind::LowShelf, 120.0, 4.0, 0.7);
    let high = band(8000.0, 4.0, 0.7);
    sa.assign(&[low, shelf, high]);
    let low_high = [low, high];
    sa.assign(&low_high); // drop the shelf: its slot fades in place, high stays put

    let bandpass = of(FilterKind::Bandpass, 120.0, 0.0, 8.0);
    let low_bandpass_high = [low, bandpass, high];
    let third = sa.assign(&low_bandpass_high);
    assert_eq!(third.len(), 4, "the bandpass must get its own slot, not the shelf's freed one");
    assert!(third[1].is_none(), "the shelf's old slot keeps fading, untouched by a different kind");
    assert_eq!(third[3].unwrap().kind, FilterKind::Bandpass, "the bandpass lands in a fresh slot");
}

#[test]
fn a_wildly_different_q_does_not_reuse_a_freed_slot_even_at_the_same_fc() {
    let mut sa = SlotAssignment::default();
    let low = band(100.0, 3.0, 0.7);
    let broad = band(1000.0, -2.0, 0.5);
    let high = band(8000.0, 4.0, 0.7);
    sa.assign(&[low, broad, high]);
    let low_high = [low, high];
    sa.assign(&low_high); // drop the broad band: its slot fades, high stays put

    let narrow = band(1000.0, 1.0, 6.0); // ratio 12
    let low_narrow_high = [low, narrow, high];
    let third = sa.assign(&low_narrow_high);
    assert_eq!(third.len(), 4, "the narrow band must get its own slot, not the broad one's");
    assert!(third[1].is_none(), "the broad band's old slot keeps fading, untouched");
    assert_eq!(f(third[3].unwrap().q), 6.0, "the narrow band lands in a fresh slot");
}

#[test]
fn a_full_correction_yields_entirely_to_an_isolate_bandpass() {
    let mut sa = SlotAssignment::default();
    let shelf = of(FilterKind::LowShelf, 100.0, 5.0, 0.7);
    let mid = band(1000.0, -2.0, 1.0);
    let high = band(8000.0, 3.0, 0.7);
    let shelf_mid_high = [shelf, mid, high];
    sa.assign(&shelf_mid_high);

    let bandpass = of(FilterKind::Bandpass, 150.0, 0.0, 8.0);
    let just_bandpass = [bandpass];
    let second = sa.assign(&just_bandpass);
    assert_eq!(second.len(), 4, "three old bands fade in place, the bandpass gets a 4th slot");
    for (i, b) in second[..3].iter().enumerate() {
        assert!(b.is_none(), "slot {i} must be an explicit gap, not reused by the bandpass");
    }
    assert_eq!(second[3].unwrap().kind, FilterKind::Bandpass, "the bandpass lands in a fresh slot");
}

#[test]
fn a_trailing_drop_still_shrinks_the_array() {
    let mut sa = SlotAssignment::default();
    let low = band(100.0, 3.0, 0.7);
    let high = band(8000.0, 1.0, 1.0);
    sa.assign(&[low, high]);

    let low_only = [low];
    let second = sa.assign(&low_only);
    assert_eq!(second.len(), 1, "dropping the last band must shrink, not leave a trailing gap");
}

#[test]
fn the_first_assignment_preserves_the_given_order() {
    let mut sa = SlotAssignment::default();
    let bands = [band(100.0, 3.0, 0.7), band(1000.0, -2.0, 1.0), band(8000.0, 1.0, 1.0)];
    let out = sa.assign(&bands);
    let freqs: Vec<f64> = out.iter().map(freq).collect();
    assert_eq!(freqs, vec![100.0, 1000.0, 8000.0]);
}

#[test]
fn a_bands_identity_is_its_kind_centre_and_q_in_thousandths() {
    assert_eq!(band_key(&band(105.0, 6.0, 0.7)), (2, 105_000, 700));
    assert_eq!(band_key(&of(FilterKind::LowShelf, 0.0005, 1.0, 1.9994999)), (0, 1, 1999));
    assert_eq!(band_key(&of(FilterKind::HighShelf, -2.5, 1.0, f64::NAN)), (1, -2500, 0));
    assert_eq!(
        band_key(&of(FilterKind::Bandpass, f64::INFINITY, 1.0, -1e300)),
        (3, i64::MAX, i64::MIN)
    );
}

/// The same rule in machine arithmetic.
fn reusable_in_floats(old: &Option<(u8, i64, i64)>, b: &Band) -> bool {
    let Some((kind, freq, q)) = old else { return true };
    if *kind != band_key(b).0 {
        return false;
    }
    let (hz, qq) = (*freq as f64 / 1000.0, *q as f64 / 1000.0);
    if !(hz > 0.0 && f(b.freq_hz) > 0.0) {
        return false;
    }
    if (f(b.freq_hz) / hz).max(hz / f(b.freq_hz)) > 2.0 {
        return false;
    }
    if !(qq > 0.0 && f(b.q) > 0.0) {
        return false;
    }
    (f(b.q) / qq).max(qq / f(b.q)) <= 4.0
}

#[test]
fn reuse_agrees_with_machine_arithmetic() {
    let freqs = [0.0, 50.0, 99.999, 100.0, 200.0, 200.001, -1.0, f64::NAN, f64::INFINITY, 1e-320];
    let qs = [0.0, 0.175, 0.7, 2.8, 2.8000001, f64::NAN, f64::INFINITY, -0.7];
    let agree = |old_f: f64, old_q: f64, new_f: f64, new_q: f64| {
        let key = Some(band_key(&band(old_f, 0.0, old_q)));
        let b = band(new_f, 0.0, new_q);
        let want = reusable_in_floats(&key, &b);
        assert_eq!(slot_reusable(&key, &b), want, "{key:?} {new_f} {new_q}");
        want as u32
    };
    let mut yes = 0;
    for old_f in freqs {
        for new_f in freqs {
            yes += agree(old_f, 1.0, new_f, 1.0);
        }
    }
    for old_q in qs {
        for new_q in qs {
            yes += agree(100.0, old_q, 150.0, new_q);
        }
    }
    assert!(yes > 20);
    assert!(slot_reusable(&None, &band(1.0, 0.0, 1.0)));
}
