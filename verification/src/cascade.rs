//! The filter engine: which coefficients run at each frame, and how one correction becomes another.
//!
//! Three motions can be under way at once. A *ramp* moves the coefficients and the preamp from where
//! they are to a target. The *dry fade* moves between the filtered signal and the untouched input.
//! The *crossfade* moves from this bank of filters to a second one, for a correction that has nothing
//! to do with the one it replaces; the second bank runs unheard for a while first, so that its
//! registers settle.
//!
//! What is decided is decided here, on integers and bit patterns. The arithmetic of the samples, of
//! interpolation and of loudness is floating point and stays with the caller, who hands in its
//! results: what a correction sounds like comes in as `Heard`, and where the motions have got to as
//! `Motion`.
use crate::control;
use crate::double;
use crate::double::{Double, ONE};
use crate::dsp::{Band, Coeffs, MAX_BANDS};
use vstd::prelude::*;

verus! {

/// The pattern of 0.008: the shortest ramp, in seconds.
pub const RAMP_SECONDS: u64 = 0x3f80_624d_d2f1_a9fc;

/// The pattern of 0.3: the longest ramp, in seconds.
pub const RAMP_MAX_SECONDS: u64 = 0x3fd3_3333_3333_3333;

/// The pattern of 0.15: how long after a request the next one still continues the same gesture, in
/// seconds.
pub const GESTURE_GAP_SECONDS: u64 = 0x3fc3_3333_3333_3333;

/// The pattern of 0.01: how long a fade to or from dry takes, and a crossfade, in seconds.
pub const DRY_FADE_SECONDS: u64 = 0x3f84_7ae1_47ae_147b;

/// The pattern of 0.45: the highest centre frequency, as a part of the sample rate.
pub const NYQUIST_PART: u64 = 0x3fdc_cccc_cccc_cccd;

/// One biquad's delay registers, for one channel. They persist across coefficient changes.
#[derive(Clone, Copy, PartialEq, Eq, Structural, Debug)]
pub struct BiquadState {
    pub x1: Double,
    pub x2: Double,
    pub y1: Double,
    pub y2: Double,
}

/// Registers of a filter that has heard nothing.
pub open spec fn cold() -> BiquadState {
    BiquadState { x1: double::zero(), x2: double::zero(), y1: double::zero(), y2: double::zero() }
}

impl Default for BiquadState {
    fn default() -> (r: BiquadState)
        ensures
            r == cold(),
    {
        let zero: Double = Double { bits: 0 };
        BiquadState { x1: zero, x2: zero, y1: zero, y2: zero }
    }
}

/// What a correction comes to in sound, before it is taken: computed by the caller.
#[derive(Clone, Copy, PartialEq, Eq, Structural, Debug)]
pub struct Heard {
    /// The requested preamp as a linear gain.
    pub gain: Double,
    /// Would the whole chain exceed the loudness ceiling anywhere, the requested filters with the
    /// requested preamp? Where only one of them changes, the other is what was last asked for, not
    /// what a ramp has reached: the filters of `Cascade::requested`, or the far end of
    /// `Cascade::preamp_ends_db`.
    pub too_loud: bool,
    /// The running preamp, in dB.
    pub from_db: Double,
    /// How many frames a ramp would take at the pace of the change, before it is held to its limits.
    pub paced_frames: u32,
    /// The requested preamp, turned into a gain and back into dB.
    pub gain_db: Double,
    /// That, turned into a gain once more.
    pub settled_gain: Double,
}

/// Where the motions have got to at a frame: computed by the caller.
#[derive(Clone, Copy, Debug)]
pub struct Motion {
    /// Each coefficient set, part of the way from start to target.
    pub coeffs: [Coeffs; MAX_BANDS],
    /// The preamp, as far along.
    pub preamp: Double,
    pub dry_mix: Double,
    pub cross_mix: Double,
}

/// The engine.
pub struct Cascade {
    channels: usize,
    sample_rate: Double,
    nyquist_limit: Double,
    coeffs: [Coeffs; MAX_BANDS],
    target: [Coeffs; MAX_BANDS],
    start: [Coeffs; MAX_BANDS],
    ramp_left: u32,
    ramp_frames: u32,
    floor_frames: u32,
    ceiling_frames: u32,
    cooldown_left: u32,
    gesture_gap_frames: u32,
    band_count: usize,
    process_count: usize,
    state: Vec<BiquadState>,
    preamp: Double,
    preamp_from_db: Double,
    preamp_to_db: Double,
    preamp_to: Double,
    dry_mix: Double,
    dry_from: Double,
    dry_to: Double,
    dry_preamp: Double,
    dry_fade_left: u32,
    dry_fade_frames: u32,
    coeffs2: [Coeffs; MAX_BANDS],
    state2: Vec<BiquadState>,
    process_count2: usize,
    preamp2: Double,
    preamp2_db: Double,
    preamp2_to: Double,
    cross_mix: Double,
    cross_from: Double,
    cross_to: Double,
    cross_fade_left: u32,
    cross_fade_frames: u32,
    cross_preroll_left: u32,
}

/// The engine, as a value.
#[verifier::ext_equal]
pub struct Engine {
    pub channels: usize,
    pub sample_rate: Double,
    /// No centre frequency at or above this is taken.
    pub nyquist_limit: Double,
    /// The coefficients in use this frame.
    pub coeffs: Seq<Coeffs>,
    /// Where they are heading.
    pub target: Seq<Coeffs>,
    /// Where the ramp started.
    pub start: Seq<Coeffs>,
    /// Frames left in the ramp; none when the coefficients are settled.
    pub ramp_left: u32,
    /// The length of the ramp.
    pub ramp_frames: u32,
    /// The shortest and the longest a ramp can be.
    pub floor_frames: u32,
    pub ceiling_frames: u32,
    /// Frames left before the next request is a fresh one rather than part of a gesture.
    pub cooldown_left: u32,
    pub gesture_gap_frames: u32,
    /// Bands the target uses.
    pub band_count: usize,
    /// Bands the sample loop walks: during a ramp the larger of the old and the new count, so that a
    /// band that goes can fade to identity.
    pub process_count: usize,
    /// Delay registers, a row of them for each channel.
    pub state: Seq<BiquadState>,
    /// Linear preamp gain.
    pub preamp: Double,
    /// The ends of the preamp's ramp, in dB, and the far one as a gain.
    pub preamp_from_db: Double,
    pub preamp_to_db: Double,
    pub preamp_to: Double,
    /// The weight of the untouched input.
    pub dry_mix: Double,
    pub dry_from: Double,
    pub dry_to: Double,
    /// Linear gain on the dry path.
    pub dry_preamp: Double,
    pub dry_fade_left: u32,
    pub dry_fade_frames: u32,
    /// The second bank.
    pub coeffs2: Seq<Coeffs>,
    pub state2: Seq<BiquadState>,
    /// Bands of the second bank; none while it is idle.
    pub process_count2: usize,
    pub preamp2: Double,
    pub preamp2_db: Double,
    pub preamp2_to: Double,
    /// The weight of the second bank.
    pub cross_mix: Double,
    pub cross_from: Double,
    pub cross_to: Double,
    /// Frames left in the audible crossfade, and before it may begin.
    pub cross_fade_left: u32,
    pub cross_fade_frames: u32,
    pub cross_preroll_left: u32,
}

/// Where the motions have got to, as a value.
pub struct MotionView {
    pub coeffs: Seq<Coeffs>,
    pub preamp: Double,
    pub dry_mix: Double,
    pub cross_mix: Double,
}

impl View for Motion {
    type V = MotionView;

    open spec fn view(&self) -> MotionView {
        MotionView {
            coeffs: self.coeffs@,
            preamp: self.preamp,
            dry_mix: self.dry_mix,
            cross_mix: self.cross_mix,
        }
    }
}

/// Is every slot from `n` on the identity filter?
pub open spec fn identity_from(s: Seq<Coeffs>, n: int) -> bool {
    forall|i: int| n <= i < MAX_BANDS ==> #[trigger] s[i] == control::passthrough()
}

/// A correction's coefficients, with the identity filter in the slots it does not use.
pub open spec fn filled(target: Seq<Coeffs>) -> Seq<Coeffs> {
    Seq::new(
        MAX_BANDS as nat,
        |i: int|
            if i < target.len() {
                target[i]
            } else {
                control::passthrough()
            },
    )
}

/// Is a crossfade under way, heard or not yet?
pub open spec fn crossing(e: Engine) -> bool {
    e.cross_preroll_left > 0 || e.cross_fade_left > 0
}

/// What holds of the engine at all times.
///
/// Its limits are those of its rate: where a centre frequency is too near half of it, and how many
/// frames each motion takes.
///
/// Once no ramp runs, the coefficients are exactly the target and no band is walked that the target
/// does not use. A slot past the bands that are walked holds the identity filter.
pub open spec fn sound(e: Engine) -> bool {
    &&& e.coeffs.len() == MAX_BANDS
    &&& e.target.len() == MAX_BANDS
    &&& e.start.len() == MAX_BANDS
    &&& e.coeffs2.len() == MAX_BANDS
    &&& e.state.len() == e.channels * MAX_BANDS
    &&& e.state2.len() == e.channels * MAX_BANDS
    &&& e.nyquist_limit == double::times(e.sample_rate, NYQUIST_PART)
    &&& e.floor_frames == frames(e.sample_rate, RAMP_SECONDS)
    &&& e.ceiling_frames == frames(e.sample_rate, RAMP_MAX_SECONDS)
    &&& e.gesture_gap_frames == frames(e.sample_rate, GESTURE_GAP_SECONDS)
    &&& e.dry_fade_frames == frames(e.sample_rate, DRY_FADE_SECONDS)
    &&& e.cross_fade_frames == frames(e.sample_rate, DRY_FADE_SECONDS)
    &&& e.band_count <= e.process_count <= MAX_BANDS
    &&& e.process_count2 <= MAX_BANDS
    &&& e.ramp_left <= e.ramp_frames
    &&& 0 < e.floor_frames <= e.ceiling_frames
    &&& 0 < e.gesture_gap_frames
    &&& 0 < e.dry_fade_frames
    &&& e.dry_fade_left <= e.dry_fade_frames
    &&& 0 < e.cross_fade_frames
    &&& e.cross_fade_left <= e.cross_fade_frames
    &&& e.cross_preroll_left <= e.cross_fade_frames
    &&& e.cross_preroll_left == 0 || e.cross_fade_left == 0
    &&& e.dry_to == double::zero() || e.dry_to == (Double { bits: ONE })
    &&& e.dry_fade_left == 0 ==> e.dry_mix == e.dry_to
    &&& e.ramp_left == 0 ==> e.coeffs == e.target && e.process_count == e.band_count
    &&& identity_from(e.target, e.band_count as int)
    &&& identity_from(e.coeffs, e.process_count as int)
    &&& e.ramp_left > 0 ==> identity_from(e.start, e.process_count as int)
    &&& crossing(e) || e.process_count2 > 0 ==> identity_from(e.coeffs2, e.process_count2 as int)
}

/// A whole bank of the identity filter.
pub open spec fn identity() -> Seq<Coeffs> {
    Seq::new(MAX_BANDS as nat, |i: int| control::passthrough())
}

/// Registers that have heard nothing, for every band of every channel.
pub open spec fn cold_rows(channels: usize) -> Seq<BiquadState> {
    Seq::new((channels * MAX_BANDS) as nat, |i: int| cold())
}

/// How many frames a time takes at a rate.
pub open spec fn frames(rate: Double, seconds: u64) -> int {
    double::count(double::times(rate, seconds))
}

/// A new engine: no filters, no motion.
pub open spec fn fresh(channels: usize, sample_rate: Double) -> Engine {
    Engine {
        channels,
        sample_rate,
        nyquist_limit: double::times(sample_rate, NYQUIST_PART),
        coeffs: identity(),
        target: identity(),
        start: identity(),
        ramp_left: 0,
        ramp_frames: frames(sample_rate, RAMP_SECONDS) as u32,
        floor_frames: frames(sample_rate, RAMP_SECONDS) as u32,
        ceiling_frames: frames(sample_rate, RAMP_MAX_SECONDS) as u32,
        cooldown_left: 0,
        gesture_gap_frames: frames(sample_rate, GESTURE_GAP_SECONDS) as u32,
        band_count: 0,
        process_count: 0,
        state: cold_rows(channels),
        preamp: Double { bits: ONE },
        preamp_from_db: double::zero(),
        preamp_to_db: double::zero(),
        preamp_to: Double { bits: ONE },
        dry_mix: double::zero(),
        dry_from: double::zero(),
        dry_to: double::zero(),
        dry_preamp: Double { bits: ONE },
        dry_fade_left: 0,
        dry_fade_frames: frames(sample_rate, DRY_FADE_SECONDS) as u32,
        coeffs2: identity(),
        state2: cold_rows(channels),
        process_count2: 0,
        preamp2: Double { bits: ONE },
        preamp2_db: double::zero(),
        preamp2_to: Double { bits: ONE },
        cross_mix: double::zero(),
        cross_from: double::zero(),
        cross_to: double::zero(),
        cross_fade_left: 0,
        cross_fade_frames: frames(sample_rate, DRY_FADE_SECONDS) as u32,
        cross_preroll_left: 0,
    }
}

/// The length of a ramp: the floor where it continues a gesture, and otherwise the pace of the change
/// held to its limits.
pub open spec fn ramp_length(e: Engine, paced: u32) -> u32 {
    if e.ramp_left > 0 || e.cooldown_left > 0 || paced < e.floor_frames {
        e.floor_frames
    } else if paced > e.ceiling_frames {
        e.ceiling_frames
    } else {
        paced
    }
}

/// A ramp begun towards a correction, from wherever the coefficients have got to.
pub open spec fn ramped(
    e: Engine,
    target: Seq<Coeffs>,
    to_db: Double,
    to_gain: Double,
    heard: Heard,
) -> Engine {
    let n = ramp_length(e, heard.paced_frames);
    Engine {
        target: filled(target),
        start: e.coeffs,
        preamp_from_db: heard.from_db,
        preamp_to_db: to_db,
        preamp_to: to_gain,
        process_count: if target.len() > e.process_count {
            target.len() as usize
        } else {
            e.process_count
        },
        band_count: target.len() as usize,
        ramp_frames: n,
        ramp_left: n,
        cooldown_left: e.gesture_gap_frames,
        ..e
    }
}

/// The dry fade turned towards the untouched input or back. Nothing moves where it is there already.
pub open spec fn dried(e: Engine, dry: bool, gain: Double) -> Engine {
    let want = if dry {
        Double { bits: ONE }
    } else {
        double::zero()
    };
    let f = if dry {
        Engine { dry_preamp: gain, ..e }
    } else {
        e
    };
    if f.dry_to == want && f.dry_fade_left == 0 {
        f
    } else {
        Engine { dry_from: f.dry_mix, dry_to: want, dry_fade_left: f.dry_fade_frames, ..f }
    }
}

/// Can a correction be taken at all?
pub open spec fn acceptable(n: nat, preamp_db: Double, heard: Heard) -> bool {
    n <= MAX_BANDS && double::is_finite(preamp_db) && double::is_finite(heard.gain)
        && !heard.too_loud
}

/// A correction taken. One without filters is exactly what dry is: the chain keeps running, and only
/// its weight moves.
pub open spec fn applied(e: Engine, coeffs: Seq<Coeffs>, preamp_db: Double, heard: Heard) -> Engine {
    if coeffs.len() == 0 {
        dried(e, true, heard.gain)
    } else {
        ramped(dried(e, false, double::zero()), coeffs, preamp_db, heard.gain, heard)
    }
}

/// Is no part of a crossfade left?
pub open spec fn crossfade_over(e: Engine) -> bool {
    double::unsigned(e.cross_mix) == 0 && !crossing(e)
}

/// A correction given to the second bank. Where a crossfade is under way already it is retargeted at
/// once and keeps its schedule; otherwise one begins, with cold registers.
pub open spec fn crossfaded(e: Engine, target: Seq<Coeffs>, heard: Heard) -> Engine {
    let f = Engine {
        coeffs2: filled(target),
        process_count2: target.len() as usize,
        preamp2: heard.gain,
        preamp2_db: heard.gain_db,
        preamp2_to: heard.settled_gain,
        ..e
    };
    if crossfade_over(e) {
        Engine {
            state2: cold_rows(e.channels),
            cross_from: e.cross_mix,
            cross_to: Double { bits: ONE },
            cross_fade_left: 0,
            cross_preroll_left: e.cross_fade_frames,
            ..f
        }
    } else {
        f
    }
}

/// The second bank become the first, registers and all, and idle again.
pub open spec fn promoted(e: Engine) -> Engine {
    Engine {
        coeffs: e.coeffs2,
        target: e.coeffs2,
        start: e.coeffs2,
        state: e.state2,
        process_count: e.process_count2,
        band_count: e.process_count2,
        preamp: e.preamp2,
        preamp_from_db: e.preamp2_db,
        preamp_to_db: e.preamp2_db,
        preamp_to: e.preamp2_to,
        ramp_left: 0,
        process_count2: 0,
        preamp2: Double { bits: ONE },
        cross_mix: double::zero(),
        cross_from: double::zero(),
        cross_to: double::zero(),
        state2: cold_rows(e.channels),
        ..e
    }
}

/// The ramp, one frame on. It lands exactly on the target rather than on an interpolation of it.
pub open spec fn ramp_stepped(e: Engine, m: MotionView) -> Engine {
    if e.ramp_left == 0 {
        e
    } else if e.ramp_left == 1 {
        Engine {
            ramp_left: 0,
            coeffs: e.target,
            preamp: e.preamp_to,
            process_count: e.band_count,
            ..e
        }
    } else {
        Engine {
            ramp_left: (e.ramp_left - 1) as u32,
            preamp: m.preamp,
            coeffs: Seq::new(
                MAX_BANDS as nat,
                |i: int|
                    if i < e.process_count {
                        m.coeffs[i]
                    } else {
                        e.coeffs[i]
                    },
            ),
            ..e
        }
    }
}

/// The gesture's pause, one frame on.
pub open spec fn cooled(e: Engine) -> Engine {
    if e.cooldown_left == 0 {
        e
    } else {
        Engine { cooldown_left: (e.cooldown_left - 1) as u32, ..e }
    }
}

/// The dry fade, one frame on.
pub open spec fn dry_stepped(e: Engine, m: MotionView) -> Engine {
    if e.dry_fade_left == 0 {
        e
    } else if e.dry_fade_left == 1 {
        Engine { dry_fade_left: 0, dry_mix: e.dry_to, ..e }
    } else {
        Engine { dry_fade_left: (e.dry_fade_left - 1) as u32, dry_mix: m.dry_mix, ..e }
    }
}

/// The crossfade, one frame on: first the unheard part, then the fade, and at its end the second bank
/// takes over.
pub open spec fn cross_stepped(e: Engine, m: MotionView) -> Engine {
    if e.cross_preroll_left > 1 {
        Engine { cross_preroll_left: (e.cross_preroll_left - 1) as u32, ..e }
    } else if e.cross_preroll_left == 1 {
        Engine { cross_preroll_left: 0, cross_fade_left: e.cross_fade_frames, ..e }
    } else if e.cross_fade_left == 0 {
        e
    } else if e.cross_fade_left == 1 {
        promoted(Engine { cross_fade_left: 0, ..e })
    } else {
        Engine { cross_fade_left: (e.cross_fade_left - 1) as u32, cross_mix: m.cross_mix, ..e }
    }
}

/// The engine, one frame on. Through silence everything moves but the dry fade.
pub open spec fn stepped(e: Engine, m: MotionView, silent: bool) -> Engine {
    let a = cooled(ramp_stepped(e, m));
    let b = if silent {
        a
    } else {
        dry_stepped(a, m)
    };
    cross_stepped(b, m)
}

/// Everything landed at once. A crossfade under way is the more recent instruction, so its bank takes
/// over.
pub open spec fn settled(e: Engine) -> Engine {
    let a = Engine {
        coeffs: e.target,
        preamp: e.preamp_to,
        dry_mix: e.dry_to,
        dry_fade_left: 0,
        process_count: e.band_count,
        ramp_left: 0,
        cooldown_left: 0,
        ..e
    };
    let b = if a.process_count2 > 0 {
        promoted(a)
    } else {
        a
    };
    Engine { cross_fade_left: 0, cross_preroll_left: 0, ..b }
}

/// May these bands run at this engine's rate: is each centre frequency positive and below the limit?
pub open spec fn tunable(e: Engine, bands: Seq<Band>) -> bool {
    forall|i: int|
        0 <= i < bands.len() ==> double::less(double::zero(), (#[trigger] bands[i]).freq_hz)
            && double::less(bands[i].freq_hz, e.nyquist_limit)
}

/// Is a filter set taken? Not where there are too many bands, where a centre frequency is out of
/// bounds, or where the whole would be too loud.
pub open spec fn takes_bands(e: Engine, bands: Seq<Band>, heard: Heard) -> bool {
    bands.len() <= MAX_BANDS && tunable(e, bands) && !heard.too_loud
}

/// A filter set asked for, the preamp keeping the target it had. One that is refused changes nothing.
pub open spec fn banded(e: Engine, bands: Seq<Band>, candidate: Seq<Coeffs>, heard: Heard) -> Engine {
    if takes_bands(e, bands, heard) {
        ramped(e, candidate, e.preamp_to_db, e.preamp_to, heard)
    } else {
        e
    }
}

/// A preamp asked for, the filters keeping the target they had.
pub open spec fn preamped(e: Engine, db: Double, heard: Heard) -> Engine {
    ramped(e, e.target.take(e.band_count as int), db, heard.gain, heard)
}

fn fill(bank: &mut [Coeffs; MAX_BANDS], target: &[Coeffs])
    requires
        target@.len() <= MAX_BANDS,
    ensures
        final(bank)@ == filled(target@),
{
    let idle: Coeffs = Coeffs::passthrough();
    let mut i: usize = 0;
    while i < MAX_BANDS
        invariant
            i <= MAX_BANDS,
            target@.len() <= MAX_BANDS,
            bank@.len() == MAX_BANDS,
            idle == control::passthrough(),
            forall|j: int| 0 <= j < i ==> #[trigger] bank@[j] == filled(target@)[j],
        decreases MAX_BANDS - i,
    {
        bank[i] = if i < target.len() {
            target[i]
        } else {
            idle
        };
        i = i + 1;
    }
    assert(bank@ =~= filled(target@));
}

fn cold_registers(channels: usize) -> (r: Vec<BiquadState>)
    requires
        channels * MAX_BANDS <= usize::MAX,
    ensures
        r@ == cold_rows(channels),
{
    let n: usize = channels * MAX_BANDS;
    let mut v: Vec<BiquadState> = Vec::with_capacity(n);
    let mut i: usize = 0;
    while i < n
        invariant
            i <= n,
            n == channels * MAX_BANDS,
            v@ =~= cold_rows(channels).take(i as int),
        decreases n - i,
    {
        v.push(BiquadState::default());
        i = i + 1;
    }
    assert(v@ =~= cold_rows(channels));
    v
}

fn clear(registers: &mut Vec<BiquadState>)
    ensures
        final(registers)@ == Seq::new(old(registers)@.len(), |i: int| cold()),
{
    let n: usize = registers.len();
    let mut i: usize = 0;
    while i < n
        invariant
            i <= n,
            registers@.len() == n,
            forall|j: int| 0 <= j < i ==> #[trigger] registers@[j] == cold(),
        decreases n - i,
    {
        registers.set(i, BiquadState::default());
        i = i + 1;
    }
    assert(registers@ =~= Seq::new(n as nat, |i: int| cold()));
}

impl View for Cascade {
    type V = Engine;

    closed spec fn view(&self) -> Engine {
        Engine {
            channels: self.channels,
            sample_rate: self.sample_rate,
            nyquist_limit: self.nyquist_limit,
            coeffs: self.coeffs@,
            target: self.target@,
            start: self.start@,
            ramp_left: self.ramp_left,
            ramp_frames: self.ramp_frames,
            floor_frames: self.floor_frames,
            ceiling_frames: self.ceiling_frames,
            cooldown_left: self.cooldown_left,
            gesture_gap_frames: self.gesture_gap_frames,
            band_count: self.band_count,
            process_count: self.process_count,
            state: self.state@,
            preamp: self.preamp,
            preamp_from_db: self.preamp_from_db,
            preamp_to_db: self.preamp_to_db,
            preamp_to: self.preamp_to,
            dry_mix: self.dry_mix,
            dry_from: self.dry_from,
            dry_to: self.dry_to,
            dry_preamp: self.dry_preamp,
            dry_fade_left: self.dry_fade_left,
            dry_fade_frames: self.dry_fade_frames,
            coeffs2: self.coeffs2@,
            state2: self.state2@,
            process_count2: self.process_count2,
            preamp2: self.preamp2,
            preamp2_db: self.preamp2_db,
            preamp2_to: self.preamp2_to,
            cross_mix: self.cross_mix,
            cross_from: self.cross_from,
            cross_to: self.cross_to,
            cross_fade_left: self.cross_fade_left,
            cross_fade_frames: self.cross_fade_frames,
            cross_preroll_left: self.cross_preroll_left,
        }
    }
}

impl Cascade {
    /// A new engine for a stream of that many channels at that rate. All storage is allocated here.
    pub fn new(channels: usize, sample_rate: Double) -> (r: Cascade)
        requires
            channels * MAX_BANDS <= usize::MAX,
        ensures
            r@ == fresh(channels, sample_rate),
            sound(r@),
    {
        let floor: u32 = sample_rate.times(RAMP_SECONDS).count();
        let ceiling: u32 = sample_rate.times(RAMP_MAX_SECONDS).count();
        let gap: u32 = sample_rate.times(GESTURE_GAP_SECONDS).count();
        let fade: u32 = sample_rate.times(DRY_FADE_SECONDS).count();
        proof {
            double::lemma_count_monotone(sample_rate, RAMP_SECONDS, RAMP_MAX_SECONDS);
        }
        let zero: Double = Double { bits: 0 };
        let one: Double = Double { bits: ONE };
        let r: Cascade = Cascade {
            channels,
            sample_rate,
            nyquist_limit: sample_rate.times(NYQUIST_PART),
            coeffs: control::identity_bank(),
            target: control::identity_bank(),
            start: control::identity_bank(),
            ramp_left: 0,
            ramp_frames: floor,
            floor_frames: floor,
            ceiling_frames: ceiling,
            cooldown_left: 0,
            gesture_gap_frames: gap,
            band_count: 0,
            process_count: 0,
            state: cold_registers(channels),
            preamp: one,
            preamp_from_db: zero,
            preamp_to_db: zero,
            preamp_to: one,
            dry_mix: zero,
            dry_from: zero,
            dry_to: zero,
            dry_preamp: one,
            dry_fade_left: 0,
            dry_fade_frames: fade,
            coeffs2: control::identity_bank(),
            state2: cold_registers(channels),
            process_count2: 0,
            preamp2: one,
            preamp2_db: zero,
            preamp2_to: one,
            cross_mix: zero,
            cross_from: zero,
            cross_to: zero,
            cross_fade_left: 0,
            cross_fade_frames: fade,
            cross_preroll_left: 0,
        };
        assert(r@ =~= fresh(channels, sample_rate));
        r
    }

    /// Begin moving the coefficients towards `target`. Every call lands at once: nothing defers or
    /// queues.
    fn start_ramp(&mut self, target: &[Coeffs], to_db: Double, to_gain: Double, heard: &Heard)
        requires
            sound(old(self)@),
            target@.len() <= MAX_BANDS,
        ensures
            final(self)@ == ramped(old(self)@, target@, to_db, to_gain, *heard),
            sound(final(self)@),
    {
        let interrupting: bool = self.ramp_left > 0 || self.cooldown_left > 0;
        self.preamp_from_db = heard.from_db;
        self.preamp_to_db = to_db;
        self.preamp_to = to_gain;
        self.start = self.coeffs;
        fill(&mut self.target, target);
        if target.len() > self.process_count {
            self.process_count = target.len();
        }
        self.band_count = target.len();
        self.ramp_frames = if interrupting || heard.paced_frames < self.floor_frames {
            self.floor_frames
        } else if heard.paced_frames > self.ceiling_frames {
            self.ceiling_frames
        } else {
            heard.paced_frames
        };
        self.ramp_left = self.ramp_frames;
        self.cooldown_left = self.gesture_gap_frames;
        assert(self@ =~= ramped(old(self)@, target@, to_db, to_gain, *heard));
    }

    /// Fade to the untouched input, or back to the correction. Retargeting continues from where the
    /// mix has actually got to. `gain` is the gain of the dry path, used where `dry` is set.
    pub fn set_dry(&mut self, dry: bool, gain: Double)
        requires
            sound(old(self)@),
        ensures
            final(self)@ == dried(old(self)@, dry, gain),
            sound(final(self)@),
    {
        let want: Double = Double { bits: if dry { ONE } else { 0 } };
        if dry {
            self.dry_preamp = gain;
        }
        if self.dry_to.bits == want.bits && self.dry_fade_left == 0 {
            return;
        }
        self.dry_from = self.dry_mix;
        self.dry_to = want;
        self.dry_fade_left = self.dry_fade_frames;
    }

    /// Is the dry signal selected, or being faded to?
    pub fn is_dry(&self) -> (r: bool)
        requires
            sound(self@),
        ensures
            r == (self@.dry_to == (Double { bits: ONE })),
    {
        self.dry_to.bits == ONE
    }

    /// Fade the entire signal path over to `target`, for a correction that has nothing to do with the
    /// running one. Refused, changing nothing, where it has too many bands or would be too loud.
    pub fn start_crossfade(&mut self, target: &[Coeffs], preamp_db: Double, heard: &Heard) -> (r:
        bool)
        requires
            sound(old(self)@),
        ensures
            r == acceptable(target@.len(), preamp_db, *heard),
            r ==> final(self)@ == crossfaded(old(self)@, target@, *heard),
            !r ==> final(self)@ == old(self)@,
            sound(final(self)@),
    {
        if target.len() > MAX_BANDS || !preamp_db.is_finite() || !heard.gain.is_finite()
            || heard.too_loud {
            return false;
        }
        let over: bool = self.cross_mix.bits % double::SIGN == 0 && self.cross_preroll_left == 0
            && self.cross_fade_left == 0;
        fill(&mut self.coeffs2, target);
        self.process_count2 = target.len();
        self.preamp2 = heard.gain;
        self.preamp2_db = heard.gain_db;
        self.preamp2_to = heard.settled_gain;
        if over {
            clear(&mut self.state2);
            self.cross_from = self.cross_mix;
            self.cross_to = Double { bits: ONE };
            self.cross_fade_left = 0;
            self.cross_preroll_left = self.cross_fade_frames;
            assert(self@.state2 =~= cold_rows(self@.channels));
        }
        assert(self@ =~= crossfaded(old(self)@, target@, *heard));
        true
    }

    /// The second bank becomes the first and goes idle.
    fn promote_secondary(&mut self)
        requires
            old(self)@.state.len() == old(self)@.channels * MAX_BANDS,
            old(self)@.state2.len() == old(self)@.channels * MAX_BANDS,
        ensures
            final(self)@ == promoted(old(self)@),
    {
        self.coeffs = self.coeffs2;
        self.target = self.coeffs2;
        self.start = self.coeffs2;
        let n: usize = self.state.len();
        let mut i: usize = 0;
        while i < n
            invariant
                i <= n,
                self.state@.len() == n,
                self.state2@.len() == n,
                forall|j: int| 0 <= j < i ==> #[trigger] self.state@[j] == self.state2@[j],
                self.state2@ == old(self).state2@,
                self@ == (Engine {
                    coeffs: old(self)@.coeffs2,
                    target: old(self)@.coeffs2,
                    start: old(self)@.coeffs2,
                    state: self.state@,
                    ..old(self)@
                }),
            decreases n - i,
        {
            let s: BiquadState = self.state2[i];
            self.state.set(i, s);
            i = i + 1;
        }
        assert(self.state@ =~= self.state2@);
        self.process_count = self.process_count2;
        self.band_count = self.process_count2;
        self.preamp = self.preamp2;
        self.preamp_from_db = self.preamp2_db;
        self.preamp_to_db = self.preamp2_db;
        self.preamp_to = self.preamp2_to;
        self.ramp_left = 0;
        self.process_count2 = 0;
        self.preamp2 = Double { bits: ONE };
        self.cross_mix = Double { bits: 0 };
        self.cross_from = Double { bits: 0 };
        self.cross_to = Double { bits: 0 };
        clear(&mut self.state2);
        assert(self@.state2 =~= cold_rows(self@.channels));
        assert(self@ =~= promoted(old(self)@));
    }

    /// Jump straight to the target, abandoning any motion. For what is applied before a single frame
    /// has been processed.
    pub fn settle(&mut self)
        requires
            sound(old(self)@),
        ensures
            final(self)@ == settled(old(self)@),
            sound(final(self)@),
    {
        self.coeffs = self.target;
        self.preamp = self.preamp_to;
        self.dry_mix = self.dry_to;
        self.dry_fade_left = 0;
        self.process_count = self.band_count;
        self.ramp_left = 0;
        self.cooldown_left = 0;
        if self.process_count2 > 0 {
            self.promote_secondary();
        }
        self.cross_fade_left = 0;
        self.cross_preroll_left = 0;
        assert(self@ =~= settled(old(self)@));
    }

    /// Is a coefficient ramp running?
    pub fn is_ramping(&self) -> (r: bool)
        ensures
            r == (self@.ramp_left > 0),
    {
        self.ramp_left > 0
    }

    fn advance_ramp(&mut self, m: &Motion)
        requires
            sound(old(self)@),
        ensures
            final(self)@ == ramp_stepped(old(self)@, m@),
            sound(final(self)@),
    {
        if self.ramp_left == 0 {
            return;
        }
        self.ramp_left = self.ramp_left - 1;
        if self.ramp_left == 0 {
            self.coeffs = self.target;
            self.preamp = self.preamp_to;
            self.process_count = self.band_count;
            assert(self@ =~= ramp_stepped(old(self)@, m@));
            return;
        }
        self.preamp = m.preamp;
        let n: usize = self.process_count;
        let ghost before = self.coeffs@;
        let mut i: usize = 0;
        while i < n
            invariant
                i <= n <= MAX_BANDS,
                before.len() == MAX_BANDS,
                self.coeffs@.len() == MAX_BANDS,
                forall|j: int|
                    0 <= j < MAX_BANDS ==> #[trigger] self.coeffs@[j] == (if j < i {
                        m.coeffs@[j]
                    } else {
                        before[j]
                    }),
                self@ == (Engine {
                    ramp_left: (old(self)@.ramp_left - 1) as u32,
                    preamp: m.preamp,
                    coeffs: self.coeffs@,
                    ..old(self)@
                }),
            decreases n - i,
        {
            self.coeffs[i] = m.coeffs[i];
            i = i + 1;
        }
        assert(self@.coeffs =~= ramp_stepped(old(self)@, m@).coeffs);
        assert(self@ =~= ramp_stepped(old(self)@, m@));
    }

    fn advance_dry(&mut self, mix: Double)
        requires
            sound(old(self)@),
        ensures
            forall|m: MotionView|
                m.dry_mix == mix ==> final(self)@ == #[trigger] dry_stepped(old(self)@, m),
            sound(final(self)@),
    {
        if self.dry_fade_left == 0 {
            return;
        }
        self.dry_fade_left = self.dry_fade_left - 1;
        self.dry_mix = if self.dry_fade_left == 0 {
            self.dry_to
        } else {
            mix
        };
    }

    fn advance_cross(&mut self, mix: Double)
        requires
            sound(old(self)@),
        ensures
            forall|m: MotionView|
                m.cross_mix == mix ==> final(self)@ == #[trigger] cross_stepped(old(self)@, m),
            sound(final(self)@),
    {
        if self.cross_preroll_left > 0 {
            self.cross_preroll_left = self.cross_preroll_left - 1;
            if self.cross_preroll_left == 0 {
                self.cross_fade_left = self.cross_fade_frames;
            }
            return;
        }
        if self.cross_fade_left == 0 {
            return;
        }
        self.cross_fade_left = self.cross_fade_left - 1;
        if self.cross_fade_left == 0 {
            self.promote_secondary();
            return;
        }
        self.cross_mix = mix;
    }

    /// Advance one frame, before its channels are processed: they share one set of coefficients.
    pub fn advance(&mut self, m: &Motion, silent: bool)
        requires
            sound(old(self)@),
        ensures
            final(self)@ == stepped(old(self)@, m@, silent),
            sound(final(self)@),
    {
        self.advance_ramp(m);
        if self.cooldown_left > 0 {
            self.cooldown_left = self.cooldown_left - 1;
        }
        let ghost a = self@;
        assert(a == cooled(ramp_stepped(old(self)@, m@)));
        if !silent {
            self.advance_dry(m.dry_mix);
            assert(self@ == dry_stepped(a, m@));
        }
        let ghost b = self@;
        self.advance_cross(m.cross_mix);
        assert(self@ == cross_stepped(b, m@));
    }

    /// Replace the filter set, the preamp keeping the target it had. `candidate` holds the
    /// coefficients computed for `bands`. Refused, changing nothing, where there are too many bands,
    /// where a centre frequency is not positive or too near half the rate, or where the whole would be
    /// too loud.
    pub fn set_bands(&mut self, bands: &[Band], candidate: &[Coeffs], heard: &Heard) -> (r: bool)
        requires
            sound(old(self)@),
            candidate@.len() == bands@.len(),
        ensures
            r == takes_bands(old(self)@, bands@, *heard),
            final(self)@ == banded(old(self)@, bands@, candidate@, *heard),
            sound(final(self)@),
    {
        if bands.len() > MAX_BANDS {
            return false;
        }
        let zero: Double = Double { bits: 0 };
        let mut i: usize = 0;
        while i < bands.len()
            invariant
                i <= bands.len(),
                *self == *old(self),
                sound(self@),
                bands@.len() <= MAX_BANDS,
                zero == double::zero(),
                forall|j: int|
                    0 <= j < i ==> double::less(double::zero(), (#[trigger] bands@[j]).freq_hz)
                        && double::less(bands@[j].freq_hz, self@.nyquist_limit),
            decreases bands.len() - i,
        {
            let f: Double = bands[i].freq_hz;
            if !(zero.lt(f) && f.lt(self.nyquist_limit)) {
                assert(!tunable(self@, bands@)) by {
                    assert(bands@[i as int].freq_hz == f);
                }
                return false;
            }
            i = i + 1;
        }
        if heard.too_loud {
            return false;
        }
        self.start_ramp(candidate, self.preamp_to_db, self.preamp_to, heard);
        true
    }

    /// Apply a validated snapshot: coefficients straight through. Refused, changing nothing, where the
    /// combination would be too loud.
    pub fn apply_coeffs(&mut self, coeffs: &[Coeffs], preamp_db: Double, heard: &Heard) -> (r: bool)
        requires
            sound(old(self)@),
        ensures
            r == acceptable(coeffs@.len(), preamp_db, *heard),
            r ==> final(self)@ == applied(old(self)@, coeffs@, preamp_db, *heard),
            !r ==> final(self)@ == old(self)@,
            sound(final(self)@),
    {
        if coeffs.len() > MAX_BANDS || !preamp_db.is_finite() || !heard.gain.is_finite()
            || heard.too_loud {
            return false;
        }
        if coeffs.len() == 0 {
            self.set_dry(true, heard.gain);
            return true;
        }
        self.set_dry(false, Double { bits: 0 });
        self.start_ramp(coeffs, preamp_db, heard.gain, heard);
        true
    }

    /// Set the preamp, in dB, ramped rather than stepped. Refused, changing nothing, where the result
    /// would be too loud with the filters asked for, which are those of `requested`.
    pub fn set_preamp_db(&mut self, db: Double, heard: &Heard) -> (r: bool)
        requires
            sound(old(self)@),
        ensures
            r == acceptable(0, db, *heard),
            r ==> final(self)@ == ramped(
                old(self)@,
                old(self)@.target.take(old(self)@.band_count as int),
                db,
                heard.gain,
                *heard,
            ),
            r ==> final(self)@ == preamped(old(self)@, db, *heard),
            !r ==> final(self)@ == old(self)@,
            sound(final(self)@),
    {
        if !db.is_finite() || !heard.gain.is_finite() || heard.too_loud {
            return false;
        }
        let target: [Coeffs; MAX_BANDS] = self.target;
        let n: usize = self.band_count;
        let running: &[Coeffs] = vstd::slice::slice_subrange(target.as_slice(), 0, n);
        assert(running@ =~= old(self)@.target.take(old(self)@.band_count as int));
        self.start_ramp(running, db, heard.gain, heard);
        true
    }

    /// Clear every delay register: a genuine cold start.
    pub fn reset_state(&mut self)
        requires
            sound(old(self)@),
        ensures
            final(self)@ == (Engine {
                state: cold_rows(old(self)@.channels),
                state2: cold_rows(old(self)@.channels),
                ..old(self)@
            }),
            sound(final(self)@),
    {
        clear(&mut self.state);
        clear(&mut self.state2);
        assert(self@.state =~= cold_rows(old(self)@.channels));
        assert(self@.state2 =~= cold_rows(old(self)@.channels));
    }

    /// After a stretch of silence: does the output still carry a tail? Once it has rung out, the
    /// registers are cleared.
    pub fn finish_silence(&mut self, rung_out: bool) -> (r: bool)
        requires
            sound(old(self)@),
        ensures
            r == !rung_out,
            rung_out ==> final(self)@ == (Engine {
                state: cold_rows(old(self)@.channels),
                state2: cold_rows(old(self)@.channels),
                ..old(self)@
            }),
            !rung_out ==> final(self)@ == old(self)@,
            sound(final(self)@),
    {
        if rung_out {
            self.reset_state();
        }
        !rung_out
    }

    pub fn sample_rate(&self) -> (r: Double)
        ensures
            r == self@.sample_rate,
    {
        self.sample_rate
    }

    pub fn band_count(&self) -> (r: usize)
        ensures
            r == self@.band_count,
    {
        self.band_count
    }

    pub fn channels(&self) -> (r: usize)
        ensures
            r == self@.channels,
    {
        self.channels
    }

    /// The coefficients in use this frame.
    pub fn coeffs(&self) -> (r: &[Coeffs; MAX_BANDS])
        ensures
            r@ == self@.coeffs,
    {
        &self.coeffs
    }

    /// Where the coefficients are heading.
    pub fn target(&self) -> (r: &[Coeffs; MAX_BANDS])
        ensures
            r@ == self@.target,
    {
        &self.target
    }

    /// The filters that were last asked for, whatever a ramp has reached. These are what a new preamp
    /// is judged with: where it lands, it meets them.
    pub fn requested(&self) -> (r: &[Coeffs])
        requires
            sound(self@),
        ensures
            r@ == self@.target.take(self@.band_count as int),
    {
        let r: &[Coeffs] = vstd::slice::slice_subrange(self.target.as_slice(), 0, self.band_count);
        assert(r@ =~= self@.target.take(self@.band_count as int));
        r
    }

    /// Where the ramp started.
    pub fn start(&self) -> (r: &[Coeffs; MAX_BANDS])
        ensures
            r@ == self@.start,
    {
        &self.start
    }

    /// The coefficients of the second bank.
    pub fn coeffs2(&self) -> (r: &[Coeffs; MAX_BANDS])
        ensures
            r@ == self@.coeffs2,
    {
        &self.coeffs2
    }

    /// How many bands the sample loop walks, in the first bank and in the second.
    pub fn process_counts(&self) -> (r: (usize, usize))
        ensures
            r == (self@.process_count, self@.process_count2),
    {
        (self.process_count, self.process_count2)
    }

    /// The linear gains of the first bank, the second bank and the dry path.
    pub fn gains(&self) -> (r: (Double, Double, Double))
        ensures
            r == (self@.preamp, self@.preamp2, self@.dry_preamp),
    {
        (self.preamp, self.preamp2, self.dry_preamp)
    }

    /// The weights of the dry path and of the second bank.
    pub fn mixes(&self) -> (r: (Double, Double))
        ensures
            r == (self@.dry_mix, self@.cross_mix),
    {
        (self.dry_mix, self.cross_mix)
    }

    /// The ends of the preamp's ramp, in dB.
    pub fn preamp_ends_db(&self) -> (r: (Double, Double))
        ensures
            r == (self@.preamp_from_db, self@.preamp_to_db),
    {
        (self.preamp_from_db, self.preamp_to_db)
    }

    /// The ends of the dry fade.
    pub fn dry_ends(&self) -> (r: (Double, Double))
        ensures
            r == (self@.dry_from, self@.dry_to),
    {
        (self.dry_from, self.dry_to)
    }

    /// The ends of the crossfade.
    pub fn cross_ends(&self) -> (r: (Double, Double))
        ensures
            r == (self@.cross_from, self@.cross_to),
    {
        (self.cross_from, self.cross_to)
    }

    /// How many frames are left of the ramp, the dry fade and the audible crossfade.
    pub fn frames_left(&self) -> (r: (u32, u32, u32))
        ensures
            r == (self@.ramp_left, self@.dry_fade_left, self@.cross_fade_left),
    {
        (self.ramp_left, self.dry_fade_left, self.cross_fade_left)
    }

    /// How many frames are left before a crossfade becomes audible.
    pub fn preroll_left(&self) -> (r: u32)
        ensures
            r == self@.cross_preroll_left,
    {
        self.cross_preroll_left
    }

    /// How many frames the ramp, the dry fade and the crossfade have in all.
    pub fn frames_total(&self) -> (r: (u32, u32, u32))
        ensures
            r == (self@.ramp_frames, self@.dry_fade_frames, self@.cross_fade_frames),
    {
        (self.ramp_frames, self.dry_fade_frames, self.cross_fade_frames)
    }

    /// The registers of one filter of one channel, in the second bank where `second` is set.
    pub fn registers(&self, second: bool, channel: usize, band: usize) -> (r: BiquadState)
        requires
            sound(self@),
            channel < self@.channels,
            band < MAX_BANDS,
        ensures
            r == (if second {
                self@.state2
            } else {
                self@.state
            })[channel * MAX_BANDS + band],
    {
        proof {
            lemma_row(channel, band, self.channels);
            assert(self.state.len() == self.channels * MAX_BANDS);
        }
        let at: usize = channel * MAX_BANDS + band;
        if second {
            self.state2[at]
        } else {
            self.state[at]
        }
    }

    /// Note what one filter of one channel took in and gave out.
    pub fn record(&mut self, second: bool, channel: usize, band: usize, x: Double, y: Double)
        requires
            sound(old(self)@),
            channel < old(self)@.channels,
            band < MAX_BANDS,
        ensures
            ({
                let e = old(self)@;
                let at = channel * MAX_BANDS + band;
                final(self)@ == (if second {
                    Engine { state2: e.state2.update(at, shifted(e.state2[at], x, y)), ..e }
                } else {
                    Engine { state: e.state.update(at, shifted(e.state[at], x, y)), ..e }
                })
            }),
            sound(final(self)@),
    {
        proof {
            lemma_row(channel, band, self.channels);
            assert(self.state.len() == self.channels * MAX_BANDS);
        }
        let at: usize = channel * MAX_BANDS + band;
        if second {
            let s: BiquadState = self.state2[at];
            self.state2.set(at, BiquadState { x1: x, x2: s.x1, y1: y, y2: s.y1 });
        } else {
            let s: BiquadState = self.state[at];
            self.state.set(at, BiquadState { x1: x, x2: s.x1, y1: y, y2: s.y1 });
        }
    }
}

/// Registers with one more sample in, and the ones before moved back.
pub open spec fn shifted(s: BiquadState, x: Double, y: Double) -> BiquadState {
    BiquadState { x1: x, x2: s.x1, y1: y, y2: s.y1 }
}

/// Each filter of each channel has registers of its own.
proof fn lemma_row(channel: usize, band: usize, channels: usize)
    requires
        channel < channels,
        band < MAX_BANDS,
    ensures
        channel * MAX_BANDS + band < channels * MAX_BANDS,
{
    assert((channel + 1) * 64 <= channels * 64) by (nonlinear_arith)
        requires
            channel + 1 <= channels,
    ;
}

} // verus!
