//! What holds of the engine over many frames.
use crate::cascade;
use crate::cascade::{BiquadState, Engine, Heard, MotionView, DRY_FADE_SECONDS, NYQUIST_PART};
use crate::control;
use crate::double;
use crate::double::{Double, ONE};
use crate::dsp::{Band, Coeffs, MAX_BANDS};
use vstd::prelude::*;

verus! {

/// One frame: where the motions have got to, and whether the input is silent.
pub struct Frame {
    pub motion: MotionView,
    pub silent: bool,
}

/// The engine after some frames, no request coming in between.
pub open spec fn run(e: Engine, fs: Seq<Frame>) -> Engine
    decreases fs.len(),
{
    if fs.len() == 0 {
        e
    } else {
        let last = fs.last();
        cascade::stepped(run(e, fs.drop_last()), last.motion, last.silent)
    }
}

/// A frame keeps the engine sound.
pub proof fn law_every_frame_is_sound(e: Engine, m: MotionView, silent: bool)
    requires
        cascade::sound(e),
    ensures
        cascade::sound(cascade::stepped(e, m, silent)),
{
    let a = cascade::ramp_stepped(e, m);
    assert(cascade::sound(a));
    let b = cascade::cooled(a);
    assert(cascade::sound(b));
    let c = if silent {
        b
    } else {
        cascade::dry_stepped(b, m)
    };
    assert(cascade::sound(c));
    let d = cascade::cross_stepped(c, m);
    assert(cascade::sound(d));
}

/// The engine stays sound over any number of frames.
pub proof fn law_running_is_sound(e: Engine, fs: Seq<Frame>)
    requires
        cascade::sound(e),
    ensures
        cascade::sound(run(e, fs)),
    decreases fs.len(),
{
    if fs.len() > 0 {
        law_running_is_sound(e, fs.drop_last());
        law_every_frame_is_sound(run(e, fs.drop_last()), fs.last().motion, fs.last().silent);
    }
}

/// How the stream is cut into buffers changes nothing: running some frames and then others is running
/// them all.
pub proof fn law_chunking_changes_nothing(e: Engine, a: Seq<Frame>, b: Seq<Frame>)
    ensures
        run(e, a + b) == run(run(e, a), b),
    decreases b.len(),
{
    if b.len() == 0 {
        assert(a + b =~= a);
    } else {
        assert((a + b).drop_last() =~= a + b.drop_last());
        law_chunking_changes_nothing(e, a, b.drop_last());
    }
}

/// How far a ramp has got, while no crossfade interferes.
proof fn lemma_ramp_runs(e: Engine, fs: Seq<Frame>)
    requires
        cascade::sound(e),
        !cascade::crossing(e),
    ensures
        ({
            let r = run(e, fs);
            &&& !cascade::crossing(r)
            &&& r.target == e.target
            &&& r.band_count == e.band_count
            &&& r.preamp_to == e.preamp_to
            &&& r.ramp_frames == e.ramp_frames
            &&& r.floor_frames == e.floor_frames
            &&& r.ceiling_frames == e.ceiling_frames
            &&& r.ramp_left == (if fs.len() >= e.ramp_left {
                0
            } else {
                e.ramp_left - fs.len()
            })
            &&& r.cooldown_left == (if fs.len() >= e.cooldown_left {
                0
            } else {
                e.cooldown_left - fs.len()
            })
            &&& fs.len() >= e.ramp_left ==> r.coeffs == e.target && r.process_count == e.band_count
                && r.preamp == (if e.ramp_left > 0 {
                e.preamp_to
            } else {
                e.preamp
            })
        }),
    decreases fs.len(),
{
    if fs.len() > 0 {
        lemma_ramp_runs(e, fs.drop_last());
    }
}

/// A ramp lands exactly on its target, when its frames are over and for as long as nothing else is
/// asked for: the coefficients are the target's, the preamp is the one asked for, and no band is
/// walked that the target does not use. A crossfade may not be under way, since it replaces the
/// target when it lands.
pub proof fn law_ramp_lands_exactly(e: Engine, fs: Seq<Frame>)
    requires
        cascade::sound(e),
        !cascade::crossing(e),
        fs.len() >= e.ramp_left > 0,
    ensures
        run(e, fs).ramp_left == 0,
        run(e, fs).coeffs == e.target,
        run(e, fs).process_count == e.band_count,
        run(e, fs).preamp == e.preamp_to,
{
    lemma_ramp_runs(e, fs);
}

/// A request lands at once, wherever the last one has got to: the ramp starts from the coefficients
/// and the preamp that are running, which do not move, and heads for the newest target alone.
pub proof fn law_retarget_does_not_jump(
    e: Engine,
    target: Seq<Coeffs>,
    to_db: Double,
    to_gain: Double,
    heard: Heard,
)
    requires
        cascade::sound(e),
        target.len() <= MAX_BANDS,
    ensures
        ({
            let r = cascade::ramped(e, target, to_db, to_gain, heard);
            &&& cascade::sound(r)
            &&& r.coeffs == e.coeffs
            &&& r.start == e.coeffs
            &&& r.preamp == e.preamp
            &&& r.state == e.state
            &&& r.target == cascade::filled(target)
            &&& r.ramp_left == r.ramp_frames > 0
            &&& e.floor_frames <= r.ramp_frames <= e.ceiling_frames
        }),
{
}

/// Is a centre frequency in bounds at a rate: positive, and below 0.45 of it?
pub open spec fn in_bounds(freq_hz: Double, rate: Double) -> bool {
    double::less(double::zero(), freq_hz) && double::less(
        freq_hz,
        double::times(rate, NYQUIST_PART),
    )
}

/// A filter set is refused exactly where it has more bands than the engine holds, a centre frequency
/// out of bounds at the engine's rate, or too much gain. A refused one changes nothing: the filters
/// and the preamp asked for are the same, and so is every frame after.
pub proof fn law_refused_bands_change_nothing(
    e: Engine,
    bands: Seq<Band>,
    candidate: Seq<Coeffs>,
    heard: Heard,
    fs: Seq<Frame>,
)
    requires
        cascade::sound(e),
    ensures
        !cascade::takes_bands(e, bands, heard) <==> {
            ||| bands.len() > MAX_BANDS
            ||| exists|i: int|
                0 <= i < bands.len() && !in_bounds((#[trigger] bands[i]).freq_hz, e.sample_rate)
            ||| heard.too_loud
        },
        !cascade::takes_bands(e, bands, heard) ==> {
            let r = cascade::banded(e, bands, candidate, heard);
            &&& r == e
            &&& r.band_count == e.band_count
            &&& r.target == e.target
            &&& r.preamp_to_db == e.preamp_to_db
            &&& run(r, fs) == run(e, fs)
        },
{
    if bands.len() <= MAX_BANDS && !heard.too_loud {
        if !cascade::takes_bands(e, bands, heard) {
            let i = choose|i: int|
                0 <= i < bands.len() && !(double::less(
                    double::zero(),
                    (#[trigger] bands[i]).freq_hz,
                ) && double::less(bands[i].freq_hz, e.nyquist_limit));
            assert(!in_bounds(bands[i].freq_hz, e.sample_rate));
        }
    }
}

/// Is everything the same but what a ramp moves: the filters asked for, the preamp asked for, and the
/// ramp's own course? The running filters and preamp, the registers, the fade to dry and a crossfade
/// under way are untouched.
pub open spec fn only_retargeted(r: Engine, e: Engine) -> bool {
    &&& r.channels == e.channels && r.sample_rate == e.sample_rate
    &&& r.coeffs == e.coeffs && r.preamp == e.preamp && r.state == e.state
    &&& r.dry_mix == e.dry_mix && r.dry_from == e.dry_from && r.dry_to == e.dry_to
    &&& r.dry_preamp == e.dry_preamp && r.dry_fade_left == e.dry_fade_left
    &&& r.coeffs2 == e.coeffs2 && r.state2 == e.state2 && r.process_count2 == e.process_count2
    &&& r.preamp2 == e.preamp2 && r.preamp2_db == e.preamp2_db && r.preamp2_to == e.preamp2_to
    &&& r.cross_mix == e.cross_mix && r.cross_from == e.cross_from && r.cross_to == e.cross_to
    &&& r.cross_fade_left == e.cross_fade_left
    &&& r.cross_preroll_left == e.cross_preroll_left
}

/// Are these the filters that an engine heads for, one for one, and nothing beyond them?
pub open spec fn heads_for(e: Engine, coeffs: Seq<Coeffs>) -> bool {
    &&& e.band_count == coeffs.len()
    &&& e.target.len() == MAX_BANDS
    &&& forall|i: int| 0 <= i < coeffs.len() ==> #[trigger] e.target[i] == coeffs[i]
    &&& forall|i: int|
        coeffs.len() <= i < MAX_BANDS ==> #[trigger] e.target[i] == control::passthrough()
}

/// Are these the filters that an engine runs, one for one, and no band beyond them?
pub open spec fn runs(e: Engine, coeffs: Seq<Coeffs>) -> bool {
    &&& e.process_count == coeffs.len()
    &&& forall|i: int| 0 <= i < coeffs.len() ==> #[trigger] e.coeffs[i] == coeffs[i]
    &&& forall|i: int|
        coeffs.len() <= i < MAX_BANDS ==> #[trigger] e.coeffs[i] == control::passthrough()
}

/// A filter set that is taken changes the filters alone. The engine heads for exactly those filters,
/// the preamp keeps the target that it had, in dB and as a gain, and nothing moves yet. Once the ramp
/// is over, with no crossfade under way, those filters run and the preamp is where it was heading.
pub proof fn law_taken_bands_change_the_filters_alone(
    e: Engine,
    bands: Seq<Band>,
    candidate: Seq<Coeffs>,
    heard: Heard,
    fs: Seq<Frame>,
)
    requires
        cascade::sound(e),
        cascade::takes_bands(e, bands, heard),
        candidate.len() == bands.len(),
    ensures
        ({
            let r = cascade::banded(e, bands, candidate, heard);
            &&& only_retargeted(r, e)
            &&& heads_for(r, candidate)
            &&& r.preamp_to == e.preamp_to
            &&& r.preamp_to_db == e.preamp_to_db
            &&& r.ramp_left > 0 && r.start == e.coeffs
            &&& !cascade::crossing(e) && fs.len() >= r.ramp_left ==> {
                let end = run(r, fs);
                &&& end.ramp_left == 0
                &&& runs(end, candidate)
                &&& end.preamp == e.preamp_to
                &&& end.preamp_to_db == e.preamp_to_db
            }
        }),
{
    let r = cascade::banded(e, bands, candidate, heard);
    law_retarget_does_not_jump(e, candidate, e.preamp_to_db, e.preamp_to, heard);
    if !cascade::crossing(e) {
        lemma_ramp_runs(r, fs);
        lemma_preamp_target_stays(r, fs);
    }
}

proof fn lemma_preamp_target_stays(e: Engine, fs: Seq<Frame>)
    requires
        cascade::sound(e),
        !cascade::crossing(e),
    ensures
        run(e, fs).preamp_to_db == e.preamp_to_db,
        run(e, fs).preamp_to == e.preamp_to,
    decreases fs.len(),
{
    if fs.len() > 0 {
        lemma_preamp_target_stays(e, fs.drop_last());
        lemma_ramp_runs(e, fs.drop_last());
    }
}

/// A correction with filters that is taken is what the engine heads for, filters and preamp alike, and
/// is what it runs once the ramp is over.
pub proof fn law_applied_correction_lands(
    e: Engine,
    coeffs: Seq<Coeffs>,
    preamp_db: Double,
    heard: Heard,
    fs: Seq<Frame>,
)
    requires
        cascade::sound(e),
        0 < coeffs.len() <= MAX_BANDS,
    ensures
        ({
            let r = cascade::applied(e, coeffs, preamp_db, heard);
            &&& heads_for(r, coeffs)
            &&& r.preamp_to == heard.gain
            &&& r.preamp_to_db == preamp_db
            &&& r.coeffs == e.coeffs && r.preamp == e.preamp && r.state == e.state
            &&& r.dry_mix == e.dry_mix
            &&& r.dry_to == double::zero()
            &&& r.coeffs2 == e.coeffs2 && r.state2 == e.state2
            &&& r.process_count2 == e.process_count2
            &&& !cascade::crossing(e) && fs.len() >= r.ramp_left ==> {
                let end = run(r, fs);
                &&& end.ramp_left == 0
                &&& runs(end, coeffs)
                &&& end.preamp == heard.gain
            }
        }),
{
    let d = cascade::dried(e, false, double::zero());
    assert(cascade::sound(d));
    let r = cascade::applied(e, coeffs, preamp_db, heard);
    law_retarget_does_not_jump(d, coeffs, preamp_db, heard.gain, heard);
    if !cascade::crossing(e) {
        lemma_ramp_runs(r, fs);
    }
}

/// A preamp that is set changes the preamp alone: the filters asked for are the same, and the new
/// preamp is where it lands.
pub proof fn law_set_preamp_keeps_the_filters(
    e: Engine,
    db: Double,
    heard: Heard,
    fs: Seq<Frame>,
)
    requires
        cascade::sound(e),
    ensures
        ({
            let r = cascade::preamped(e, db, heard);
            &&& only_retargeted(r, e)
            &&& r.target == e.target
            &&& r.band_count == e.band_count
            &&& r.preamp_to == heard.gain
            &&& r.preamp_to_db == db
            &&& !cascade::crossing(e) && fs.len() >= r.ramp_left ==> {
                let end = run(r, fs);
                &&& end.coeffs == e.target
                &&& end.preamp == heard.gain
            }
        }),
{
    let asked = e.target.take(e.band_count as int);
    let r = cascade::preamped(e, db, heard);
    law_retarget_does_not_jump(e, asked, db, heard.gain, heard);
    assert(cascade::filled(asked) =~= e.target);
    if !cascade::crossing(e) {
        lemma_ramp_runs(r, fs);
    }
}

/// How long a ramp takes grows with the change. Outside a gesture a larger change never ramps for less
/// time, one below the floor takes the floor, one above the ceiling takes exactly the ceiling, and one
/// between them takes its own pace. Within a gesture every ramp takes the floor.
pub proof fn law_larger_changes_ramp_no_faster(e: Engine, p: u32, q: u32)
    requires
        cascade::sound(e),
        p <= q,
    ensures
        cascade::ramp_length(e, p) <= cascade::ramp_length(e, q),
        e.floor_frames <= cascade::ramp_length(e, p) <= e.ceiling_frames,
        e.ramp_left == 0 && e.cooldown_left == 0 ==> {
            &&& p >= e.ceiling_frames ==> cascade::ramp_length(e, p) == e.ceiling_frames
            &&& p <= e.floor_frames ==> cascade::ramp_length(e, p) == e.floor_frames
            &&& e.floor_frames <= p <= e.ceiling_frames ==> cascade::ramp_length(e, p) == p
        },
        e.ramp_left > 0 || e.cooldown_left > 0 ==> cascade::ramp_length(e, p) == e.floor_frames,
{
}

/// The length of a ramp is that of its change: what a request starts takes as many frames as its pace
/// is given, and is counted down from there.
pub proof fn law_ramp_takes_its_length(
    e: Engine,
    target: Seq<Coeffs>,
    to_db: Double,
    to_gain: Double,
    heard: Heard,
)
    ensures
        ({
            let r = cascade::ramped(e, target, to_db, to_gain, heard);
            &&& r.ramp_frames == cascade::ramp_length(e, heard.paced_frames)
            &&& r.ramp_left == r.ramp_frames
            &&& r.cooldown_left == e.gesture_gap_frames
            &&& r.preamp_from_db == heard.from_db
        }),
{
}

/// Settling lands everything at once where it was heading: the filters and the preamp asked for, the
/// dry path at its end, no motion left. A crossfade's bank takes over whole, registers and all.
pub proof fn law_settling_lands_where_it_was_heading(e: Engine)
    requires
        cascade::sound(e),
    ensures
        ({
            let r = cascade::settled(e);
            &&& r.ramp_left == 0 && r.cooldown_left == 0 && r.dry_fade_left == 0
            &&& !cascade::crossing(r)
            &&& r.dry_mix == e.dry_to
            &&& r.coeffs == r.target && r.process_count == r.band_count
            &&& e.process_count2 == 0 ==> {
                &&& r.coeffs == e.target
                &&& r.band_count == e.band_count
                &&& r.preamp == e.preamp_to
                &&& r.state == e.state
            }
            &&& e.process_count2 > 0 ==> {
                &&& r.coeffs == e.coeffs2
                &&& r.band_count == e.process_count2
                &&& r.preamp == e.preamp2
                &&& r.state == e.state2
            }
        }),
{
}

/// Going dry ends with the untouched input alone, at the gain asked for, and coming back ends with the
/// correction alone.
pub proof fn law_dry_fade_lands(e: Engine, dry: bool, gain: Double, fs: Seq<Frame>)
    requires
        cascade::sound(e),
        fs.len() >= e.dry_fade_frames,
        forall|i: int| 0 <= i < fs.len() ==> !(#[trigger] fs[i]).silent,
    ensures
        ({
            let r = cascade::dried(e, dry, gain);
            let end = run(r, fs);
            &&& r.dry_mix == e.dry_mix
            &&& r.coeffs == e.coeffs && r.target == e.target && r.state == e.state
            &&& r.preamp == e.preamp && r.preamp_to == e.preamp_to
            &&& dry ==> end.dry_mix == (Double { bits: ONE }) && r.dry_preamp == gain
            &&& !dry ==> end.dry_mix == double::zero() && r.dry_preamp == e.dry_preamp
            &&& end.dry_fade_left == 0
        }),
{
    lemma_dry_runs(cascade::dried(e, dry, gain), fs);
}

/// A landed crossfade carries its registers over: what the second bank had heard, the first one has
/// heard.
pub proof fn law_landing_keeps_the_registers(e: Engine, m: MotionView, silent: bool)
    requires
        cascade::sound(e),
        e.cross_preroll_left == 0,
        e.cross_fade_left == 1,
    ensures
        ({
            let r = cascade::stepped(e, m, silent);
            &&& r.state == e.state2
            &&& r.coeffs == e.coeffs2
            &&& r.preamp == e.preamp2
            &&& r.preamp_to_db == e.preamp2_db
        }),
{
}

/// The registers are carried over every request and every frame: nothing but a landing crossfade
/// touches those of the running filters.
pub proof fn law_registers_are_carried_over(e: Engine, fs: Seq<Frame>)
    requires
        cascade::sound(e),
        !cascade::crossing(e),
    ensures
        run(e, fs).state == e.state,
        run(e, fs).channels == e.channels,
    decreases fs.len(),
{
    if fs.len() > 0 {
        law_registers_are_carried_over(e, fs.drop_last());
        lemma_ramp_runs(e, fs.drop_last());
    }
}

/// While a ramp runs, the filters that are walked are where the motion says, the others are untouched,
/// and the ramp is one frame nearer its end.
pub proof fn law_frame_moves_the_ramp(e: Engine, m: MotionView, silent: bool)
    requires
        cascade::sound(e),
        !cascade::crossing(e),
        e.ramp_left > 1,
    ensures
        ({
            let r = cascade::stepped(e, m, silent);
            &&& r.ramp_left == e.ramp_left - 1
            &&& r.preamp == m.preamp
            &&& forall|i: int| 0 <= i < e.process_count ==> #[trigger] r.coeffs[i] == m.coeffs[i]
            &&& forall|i: int|
                e.process_count <= i < MAX_BANDS ==> #[trigger] r.coeffs[i] == e.coeffs[i]
            &&& r.target == e.target && r.start == e.start && r.preamp_to == e.preamp_to
        }),
{
}

/// The engine's rate, and with it every limit, is the same over any number of frames.
pub proof fn law_rate_never_changes(e: Engine, fs: Seq<Frame>)
    ensures
        run(e, fs).sample_rate == e.sample_rate,
        run(e, fs).nyquist_limit == e.nyquist_limit,
        run(e, fs).floor_frames == e.floor_frames,
        run(e, fs).ceiling_frames == e.ceiling_frames,
        run(e, fs).gesture_gap_frames == e.gesture_gap_frames,
        run(e, fs).dry_fade_frames == e.dry_fade_frames,
        run(e, fs).cross_fade_frames == e.cross_fade_frames,
    decreases fs.len(),
{
    if fs.len() > 0 {
        law_rate_never_changes(e, fs.drop_last());
    }
}

/// Within a gesture every ramp is as short as can be: a request that comes before the pause is over
/// gets the floor, however far apart the two corrections are.
pub proof fn law_gesture_stays_short(
    e: Engine,
    target: Seq<Coeffs>,
    to_db: Double,
    to_gain: Double,
    heard: Heard,
    fs: Seq<Frame>,
    paced: u32,
)
    requires
        cascade::sound(e),
        !cascade::crossing(e),
        target.len() <= MAX_BANDS,
        fs.len() < e.gesture_gap_frames,
    ensures
        cascade::ramp_length(
            run(cascade::ramped(e, target, to_db, to_gain, heard), fs),
            paced,
        ) == e.floor_frames,
{
    let f = cascade::ramped(e, target, to_db, to_gain, heard);
    law_retarget_does_not_jump(e, target, to_db, to_gain, heard);
    lemma_ramp_runs(f, fs);
}

/// Once the pause is over and the ramp has landed, a request is a fresh one again, and its ramp is
/// paced to the size of the change.
pub proof fn law_pause_ends_the_gesture(
    e: Engine,
    target: Seq<Coeffs>,
    to_db: Double,
    to_gain: Double,
    heard: Heard,
    fs: Seq<Frame>,
    paced: u32,
)
    requires
        cascade::sound(e),
        !cascade::crossing(e),
        target.len() <= MAX_BANDS,
        fs.len() >= e.gesture_gap_frames,
        fs.len() >= e.ceiling_frames,
        e.floor_frames <= paced <= e.ceiling_frames,
    ensures
        cascade::ramp_length(
            run(cascade::ramped(e, target, to_db, to_gain, heard), fs),
            paced,
        ) == paced,
{
    let f = cascade::ramped(e, target, to_db, to_gain, heard);
    law_retarget_does_not_jump(e, target, to_db, to_gain, heard);
    lemma_ramp_runs(f, fs);
}

/// Going dry dismantles nothing: the filters, their registers and any ramp under way are untouched,
/// and only the weight of the dry path begins to move.
pub proof fn law_going_dry_keeps_the_chain(e: Engine, preamp_db: Double, heard: Heard)
    ensures
        ({
            let r = cascade::applied(e, Seq::empty(), preamp_db, heard);
            &&& r == (Engine {
                dry_preamp: heard.gain,
                dry_from: r.dry_from,
                dry_to: r.dry_to,
                dry_fade_left: r.dry_fade_left,
                ..e
            })
            &&& r.dry_to == (Double { bits: ONE })
            &&& r.dry_mix == e.dry_mix
        }),
{
}

/// A correction with filters always ends with the dry path silent, once its fade is over.
pub proof fn law_leaving_dry(
    e: Engine,
    coeffs: Seq<Coeffs>,
    preamp_db: Double,
    heard: Heard,
    fs: Seq<Frame>,
)
    requires
        cascade::sound(e),
        0 < coeffs.len() <= MAX_BANDS,
        fs.len() >= e.dry_fade_frames,
        forall|i: int| 0 <= i < fs.len() ==> !(#[trigger] fs[i]).silent,
    ensures
        run(cascade::applied(e, coeffs, preamp_db, heard), fs).dry_mix == double::zero(),
        run(cascade::applied(e, coeffs, preamp_db, heard), fs).dry_fade_left == 0,
{
    let r = cascade::applied(e, coeffs, preamp_db, heard);
    lemma_dry_runs(r, fs);
}

proof fn lemma_dry_runs(e: Engine, fs: Seq<Frame>)
    requires
        forall|i: int| 0 <= i < fs.len() ==> !(#[trigger] fs[i]).silent,
    ensures
        run(e, fs).dry_to == e.dry_to,
        run(e, fs).dry_fade_left == (if fs.len() >= e.dry_fade_left {
            0
        } else {
            e.dry_fade_left - fs.len()
        }),
        fs.len() >= e.dry_fade_left ==> run(e, fs).dry_mix == (if e.dry_fade_left > 0 {
            e.dry_to
        } else {
            e.dry_mix
        }),
    decreases fs.len(),
{
    if fs.len() > 0 {
        let before = fs.drop_last();
        assert forall|i: int| 0 <= i < before.len() implies !(#[trigger] before[i]).silent by {
            assert(!fs[i].silent);
        }
        assert(!fs[fs.len() - 1].silent);
        lemma_dry_runs(e, before);
    }
}

/// How many frames a crossfade still takes.
pub open spec fn crossfade_left(e: Engine) -> int {
    if e.cross_preroll_left > 0 {
        e.cross_preroll_left + e.cross_fade_frames
    } else {
        e.cross_fade_left as int
    }
}

/// How far a crossfade has got before it lands.
proof fn lemma_crossfade_runs(e: Engine, fs: Seq<Frame>)
    requires
        cascade::sound(e),
        fs.len() < crossfade_left(e),
    ensures
        ({
            let r = run(e, fs);
            &&& cascade::sound(r)
            &&& crossfade_left(r) == crossfade_left(e) - fs.len()
            &&& r.coeffs2 == e.coeffs2
            &&& r.process_count2 == e.process_count2
            &&& r.preamp2 == e.preamp2
            &&& r.preamp2_to == e.preamp2_to
            &&& r.cross_fade_frames == e.cross_fade_frames
            &&& fs.len() < e.cross_preroll_left ==> r.cross_mix == e.cross_mix
                && r.cross_preroll_left == e.cross_preroll_left - fs.len()
        }),
    decreases fs.len(),
{
    if fs.len() > 0 {
        lemma_crossfade_runs(e, fs.drop_last());
        law_every_frame_is_sound(run(e, fs.drop_last()), fs.last().motion, fs.last().silent);
    }
}

/// A crossfade lands after exactly its unheard part and its fade: the second bank is the engine then,
/// settled, and the crossfade is over.
pub proof fn law_crossfade_lands(e: Engine, fs: Seq<Frame>)
    requires
        cascade::sound(e),
        cascade::crossing(e),
        fs.len() == crossfade_left(e),
    ensures
        ({
            let r = run(e, fs);
            &&& cascade::sound(r)
            &&& cascade::crossfade_over(r)
            &&& r.coeffs == e.coeffs2
            &&& r.target == e.coeffs2
            &&& r.band_count == e.process_count2
            &&& r.process_count == e.process_count2
            &&& r.preamp == e.preamp2
            &&& r.ramp_left == 0
            &&& r.process_count2 == 0
        }),
{
    let before = fs.drop_last();
    lemma_crossfade_runs(e, before);
    law_every_frame_is_sound(run(e, before), fs.last().motion, fs.last().silent);
    assert(double::unsigned(double::zero()) == 0);
}

/// A crossfade is unheard while its bank settles: until then the weight of the second bank stays
/// where it was.
pub proof fn law_crossfade_is_unheard_at_first(e: Engine, fs: Seq<Frame>)
    requires
        cascade::sound(e),
        fs.len() < e.cross_preroll_left,
    ensures
        run(e, fs).cross_mix == e.cross_mix,
{
    lemma_crossfade_runs(e, fs);
}

/// A crossfade that begins starts cold, unheard and from nothing.
pub proof fn law_crossfade_begins_cold(e: Engine, target: Seq<Coeffs>, heard: Heard)
    requires
        cascade::sound(e),
        cascade::crossfade_over(e),
        target.len() <= MAX_BANDS,
    ensures
        ({
            let r = cascade::crossfaded(e, target, heard);
            &&& cascade::sound(r)
            &&& r.state2 == cascade::cold_rows(e.channels)
            &&& crossfade_left(r) == 2 * e.cross_fade_frames
            &&& r.cross_mix == e.cross_mix
            &&& r.coeffs == e.coeffs
            &&& r.state == e.state
        }),
{
}

/// No frame begins a ramp.
proof fn lemma_no_ramp_begins(e: Engine, fs: Seq<Frame>)
    requires
        e.ramp_left == 0,
    ensures
        run(e, fs).ramp_left == 0,
    decreases fs.len(),
{
    if fs.len() > 0 {
        lemma_no_ramp_begins(e, fs.drop_last());
    }
}

/// A crossfade never ramps: begun on an engine that is not ramping, it leaves it so on every frame.
/// Once its unheard part and its fade are over it has landed, on the filters and the gain that were
/// asked for, and it stays there.
pub proof fn law_crossfade_never_ramps(
    e: Engine,
    target: Seq<Coeffs>,
    heard: Heard,
    fs: Seq<Frame>,
)
    requires
        cascade::sound(e),
        cascade::crossfade_over(e),
        e.ramp_left == 0,
        target.len() <= MAX_BANDS,
    ensures
        ({
            let r = run(cascade::crossfaded(e, target, heard), fs);
            &&& r.ramp_left == 0
            &&& fs.len() >= 2 * cascade::frames(e.sample_rate, DRY_FADE_SECONDS) ==> {
                &&& !cascade::crossing(r)
                &&& r.coeffs == cascade::filled(target)
                &&& r.process_count == target.len()
                &&& r.band_count == target.len()
                &&& r.preamp == heard.gain
            }
        }),
{
    let f = cascade::crossfaded(e, target, heard);
    lemma_no_ramp_begins(f, fs);
    law_crossfade_begins_cold(e, target, heard);
    let n = 2 * e.cross_fade_frames;
    if fs.len() >= n {
        let head = fs.take(n);
        let rest = fs.skip(n);
        assert(head + rest =~= fs);
        law_crossfade_lands(f, head);
        law_chunking_changes_nothing(f, head, rest);
        lemma_ramp_runs(run(f, head), rest);
    }
}

/// A crossfade under way is redirected at once and keeps its schedule: nothing restarts and nothing
/// queues.
pub proof fn law_retargeted_crossfade_keeps_its_schedule(
    e: Engine,
    target: Seq<Coeffs>,
    heard: Heard,
)
    requires
        cascade::sound(e),
        cascade::crossing(e),
        target.len() <= MAX_BANDS,
    ensures
        ({
            let r = cascade::crossfaded(e, target, heard);
            &&& cascade::sound(r)
            &&& crossfade_left(r) == crossfade_left(e)
            &&& r.cross_mix == e.cross_mix
            &&& r.state2 == e.state2
            &&& r.coeffs2 == cascade::filled(target)
            &&& r.process_count2 == target.len()
        }),
{
}

/// Settling leaves nothing in motion, and no frame moves anything afterwards.
pub proof fn law_settled_is_still(e: Engine, m: MotionView, silent: bool)
    requires
        cascade::sound(e),
    ensures
        cascade::sound(cascade::settled(e)),
        cascade::stepped(cascade::settled(e), m, silent) == cascade::settled(e),
{
}

/// A new engine lets everything through as it came: no filter but the identity, no gain, the dry path
/// silent, nothing heard yet and nothing in motion.
pub proof fn law_new_engine_changes_nothing(channels: usize, sample_rate: Double, i: int)
    ensures
        ({
            let e = cascade::fresh(channels, sample_rate);
            let one = Double { bits: 0x3ff0_0000_0000_0000 };
            &&& e.channels == channels && e.sample_rate == sample_rate
            &&& 0 <= i < 64 ==> e.coeffs[i].b0 == one && e.coeffs[i].b1 == double::zero()
                && e.coeffs[i].b2 == double::zero() && e.coeffs[i].a1 == double::zero()
                && e.coeffs[i].a2 == double::zero()
            &&& e.target == e.coeffs && e.start == e.coeffs && e.coeffs2 == e.coeffs
            &&& e.coeffs.len() == 64 && e.state.len() == channels * 64 && e.state2 == e.state
            &&& 0 <= i < channels * 64 ==> e.state[i].x1 == double::zero() && e.state[i].x2
                == double::zero() && e.state[i].y1 == double::zero() && e.state[i].y2
                == double::zero()
            &&& e.band_count == 0 && e.process_count == 0 && e.process_count2 == 0
            &&& e.preamp == one && e.preamp_to == one && e.dry_preamp == one && e.preamp2 == one
            &&& e.preamp_from_db == double::zero() && e.preamp_to_db == double::zero()
            &&& e.dry_mix == double::zero() && e.dry_to == double::zero() && e.cross_mix
                == double::zero()
            &&& e.ramp_left == 0 && e.cooldown_left == 0 && e.dry_fade_left == 0
                && e.cross_fade_left == 0 && e.cross_preroll_left == 0
        }),
{
    let e = cascade::fresh(channels, sample_rate);
    assert(cascade::cold_rows(channels).len() == channels * 64);
}

/// A correction is taken exactly where it has no more bands than the engine holds, is a number in dB
/// and as a gain, and is not too loud.
pub proof fn law_what_makes_a_correction_acceptable(n: nat, preamp_db: Double, heard: Heard)
    ensures
        n > 64 ==> !cascade::acceptable(n, preamp_db, heard),
        heard.too_loud ==> !cascade::acceptable(n, preamp_db, heard),
        !double::is_finite(preamp_db) ==> !cascade::acceptable(n, preamp_db, heard),
        !double::is_finite(heard.gain) ==> !cascade::acceptable(n, preamp_db, heard),
        n <= 64 && !heard.too_loud && double::is_finite(preamp_db) && double::is_finite(heard.gain)
            ==> cascade::acceptable(n, preamp_db, heard),
{
}

/// A filter remembers the last two samples that it heard and the last two that it gave, the newest in
/// front.
pub proof fn law_registers_hold_the_last_two(
    s: BiquadState,
    x: Double,
    y: Double,
    u: Double,
    v: Double,
)
    ensures
        ({
            let r = cascade::shifted(cascade::shifted(s, x, y), u, v);
            r.x1 == u && r.x2 == x && r.y1 == v && r.y2 == y
        }),
        cascade::shifted(s, x, y).x2 == s.x1,
        cascade::shifted(s, x, y).y2 == s.y1,
{
}

/// A correction's own filters come first and in order, and every slot behind them lets its input
/// through.
pub proof fn law_unused_slots_let_through(target: Seq<Coeffs>, i: int)
    requires
        0 <= i < 64,
    ensures
        cascade::filled(target).len() == 64,
        i < target.len() ==> cascade::filled(target)[i] == target[i],
        i >= target.len() ==> cascade::filled(target)[i].b0 == (Double {
            bits: 0x3ff0_0000_0000_0000,
        }) && cascade::filled(target)[i].b1 == double::zero() && cascade::filled(target)[i].b2
            == double::zero() && cascade::filled(target)[i].a1 == double::zero()
            && cascade::filled(target)[i].a2 == double::zero(),
{
}

/// The engine's limits are times at its rate: 8 ms for the shortest ramp, 300 ms for the longest, 150
/// ms for the pause that ends a gesture, 10 ms for a fade; and 0.45 of its rate for a centre frequency.
/// A new engine has them, and one that runs keeps them.
pub proof fn law_limits_are_those_of_the_rate(
    channels: usize,
    rate: Double,
    e: Engine,
    fs: Seq<Frame>,
)
    requires
        cascade::sound(e),
        e.sample_rate == rate,
    ensures
        ({
            let f = run(e, fs);
            &&& f.floor_frames == double::count(double::times(rate, 0x3f80_624d_d2f1_a9fc))
            &&& f.ceiling_frames == double::count(double::times(rate, 0x3fd3_3333_3333_3333))
            &&& f.gesture_gap_frames == double::count(double::times(rate, 0x3fc3_3333_3333_3333))
            &&& f.dry_fade_frames == double::count(double::times(rate, 0x3f84_7ae1_47ae_147b))
            &&& f.cross_fade_frames == f.dry_fade_frames
            &&& f.nyquist_limit == double::times(rate, 0x3fdc_cccc_cccc_cccd)
        }),
        ({
            let n = cascade::fresh(channels, rate);
            &&& n.floor_frames == e.floor_frames
            &&& n.ceiling_frames == e.ceiling_frames
            &&& n.gesture_gap_frames == e.gesture_gap_frames
            &&& n.dry_fade_frames == e.dry_fade_frames
            &&& n.cross_fade_frames == e.cross_fade_frames
            &&& n.nyquist_limit == e.nyquist_limit
        }),
{
    law_running_is_sound(e, fs);
    law_rate_never_changes(e, fs);
}

/// A dry fade starts from the weight that the dry path has at that moment, so that nothing jumps, and
/// takes its whole time to the end asked for; one that is there already does not move.
pub proof fn law_dry_fade_starts_where_it_is(e: Engine, dry: bool, gain: Double)
    ensures
        ({
            let f = cascade::dried(e, dry, gain);
            let end = if dry {
                Double { bits: 0x3ff0_0000_0000_0000 }
            } else {
                double::zero()
            };
            let there = e.dry_to == end && e.dry_fade_left == 0;
            &&& f.dry_mix == e.dry_mix
            &&& f.dry_to == end
            &&& !there ==> f.dry_from == e.dry_mix && f.dry_fade_left == e.dry_fade_frames
            &&& there ==> f.dry_from == e.dry_from && f.dry_fade_left == 0
            &&& dry ==> f.dry_preamp == gain
            &&& !dry ==> f.dry_preamp == e.dry_preamp
        }),
{
}

/// What a crossfade is given is what its bank runs: the filters, how many, and the gain, as it starts
/// and as it will have settled. The running filters, their registers and their gain are untouched. One
/// that begins heads from nothing to the whole.
pub proof fn law_crossfade_runs_what_it_is_given(e: Engine, target: Seq<Coeffs>, heard: Heard, i: int)
    requires
        target.len() <= 64,
        0 <= i < 64,
    ensures
        ({
            let f = cascade::crossfaded(e, target, heard);
            let over = double::unsigned(e.cross_mix) == 0 && e.cross_preroll_left == 0
                && e.cross_fade_left == 0;
            &&& i < target.len() ==> f.coeffs2[i] == target[i]
            &&& i >= target.len() ==> f.coeffs2[i] == control::passthrough()
            &&& f.process_count2 == target.len()
            &&& f.preamp2 == heard.gain
            &&& f.preamp2_db == heard.gain_db
            &&& f.preamp2_to == heard.settled_gain
            &&& f.coeffs == e.coeffs && f.target == e.target && f.start == e.start
            &&& f.state == e.state && f.preamp == e.preamp && f.preamp_to == e.preamp_to
            &&& f.ramp_left == e.ramp_left && f.dry_mix == e.dry_mix && f.dry_to == e.dry_to
            &&& f.cross_mix == e.cross_mix
            &&& over ==> f.cross_from == e.cross_mix && f.cross_to == (Double {
                bits: 0x3ff0_0000_0000_0000,
            })
            &&& !over ==> f.cross_from == e.cross_from && f.cross_to == e.cross_to && f.state2
                == e.state2
        }),
{
}

/// A crossfade that lands hands everything over: the filters run, are the target and are where a next
/// ramp starts; the gain is the bank's and heads where the bank's headed; and the second bank is idle
/// and has heard nothing.
pub proof fn law_landing_hands_everything_over(e: Engine, m: MotionView, silent: bool, i: int)
    requires
        e.cross_preroll_left == 0,
        e.cross_fade_left == 1,
        0 <= i < e.channels * 64,
    ensures
        ({
            let f = cascade::stepped(e, m, silent);
            &&& f.coeffs == e.coeffs2 && f.target == e.coeffs2 && f.start == e.coeffs2
            &&& f.band_count == e.process_count2 && f.process_count == e.process_count2
            &&& f.preamp == e.preamp2 && f.preamp_to == e.preamp2_to
            &&& f.preamp_from_db == e.preamp2_db && f.preamp_to_db == e.preamp2_db
            &&& f.ramp_left == 0 && f.cross_fade_left == 0 && f.process_count2 == 0
            &&& f.cross_mix == double::zero() && f.cross_from == double::zero() && f.cross_to
                == double::zero()
            &&& f.preamp2 == (Double { bits: 0x3ff0_0000_0000_0000 })
            &&& f.state2[i].x1 == double::zero() && f.state2[i].x2 == double::zero()
                && f.state2[i].y1 == double::zero() && f.state2[i].y2 == double::zero()
        }),
{
}

/// The dry fade waits through silence; otherwise each frame puts it where the motion says, one frame
/// nearer its end, and the last one exactly at its end.
pub proof fn law_frame_moves_the_dry_fade(e: Engine, m: MotionView)
    requires
        e.cross_preroll_left == 0,
        e.cross_fade_left == 0,
    ensures
        cascade::stepped(e, m, true).dry_mix == e.dry_mix,
        cascade::stepped(e, m, true).dry_fade_left == e.dry_fade_left,
        ({
            let f = cascade::stepped(e, m, false);
            &&& e.dry_fade_left > 1 ==> f.dry_mix == m.dry_mix && f.dry_fade_left == e.dry_fade_left
                - 1
            &&& e.dry_fade_left == 1 ==> f.dry_mix == e.dry_to && f.dry_fade_left == 0
            &&& e.dry_fade_left == 0 ==> f.dry_mix == e.dry_mix && f.dry_fade_left == 0
        }),
{
}

/// Each frame of a crossfade, through silence too, is one frame nearer its end: unheard at first, with
/// its weight unmoved, and then where the motion says.
pub proof fn law_frame_moves_the_crossfade(e: Engine, m: MotionView, silent: bool)
    ensures
        ({
            let f = cascade::stepped(e, m, silent);
            &&& e.cross_preroll_left > 0 ==> f.cross_mix == e.cross_mix && f.cross_preroll_left
                == e.cross_preroll_left - 1
            &&& e.cross_preroll_left == 1 ==> f.cross_fade_left == e.cross_fade_frames
            &&& e.cross_preroll_left == 0 && e.cross_fade_left > 1 ==> f.cross_mix == m.cross_mix
                && f.cross_fade_left == e.cross_fade_left - 1
            &&& e.cross_preroll_left == 0 && e.cross_fade_left == 0 ==> f.cross_mix == e.cross_mix
        }),
{
}

/// Each frame is one nearer the end of the pause that ends a gesture.
pub proof fn law_frame_shortens_the_pause(e: Engine, m: MotionView, silent: bool)
    ensures
        e.cooldown_left > 0 ==> cascade::stepped(e, m, silent).cooldown_left == e.cooldown_left - 1,
        e.cooldown_left == 0 ==> cascade::stepped(e, m, silent).cooldown_left == 0,
{
}

} // verus!
