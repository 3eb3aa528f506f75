//! The live control channel's protocol: a fixed-layout shared block, a seqlock, and the validation
//! that stands between an unelevated writer and the real-time thread.
//!
//! The writer sends finished biquad coefficients, so the real-time thread does no trigonometry and
//! stability is directly checkable: a biquad is stable exactly when `|a2| < 1` and `|a1| < 1 + a2`.
//!
//! The writer bumps `seq` to odd, writes, and bumps it to even; the reader looks at `seq` before
//! and after and discards what it took if it moved or was odd. A discarded update means the
//! previous coefficients stay in force for another buffer.
use crate::decimal;
use crate::double;
use crate::double::{Double, ONE, SIGN};
use crate::dsp::{Coeffs, MAX_BANDS};
use crate::text;
use vstd::arithmetic::power2::*;
use vstd::prelude::*;

verus! {

/// `"CAGQ"`: guards against mapping something that is not this block at all.
pub const CONTROL_MAGIC: u32 = 0x4341_4751;

/// Layout version. A mismatch is refused rather than interpreted.
pub const CONTROL_VERSION: u32 = 7;

/// The pattern of -120: the lowest preamp, in dB.
pub const MIN_PREAMP_DB: u64 = 0xc05e_0000_0000_0000;

/// The pattern of 12: the highest preamp, in dB.
pub const MAX_PREAMP_DB: u64 = 0x4028_0000_0000_0000;

/// Verdicts the engine reports back.
pub const ACK_APPLIED: u32 = 0;

/// Structurally valid, but the combined chain would exceed the engine's loudness ceiling. The
/// correction was not applied; whatever was running still is.
pub const ACK_TOO_LOUD: u32 = 1;

/// One biquad's coefficients as they cross the boundary.
#[derive(Clone, Copy, PartialEq, Eq, Structural, Debug)]
pub struct RawCoeffs {
    pub b0: Double,
    pub b1: Double,
    pub b2: Double,
    pub a1: Double,
    pub a2: Double,
}

/// No coefficients at all: every one zero.
pub open spec fn blank() -> RawCoeffs {
    RawCoeffs {
        b0: double::zero(),
        b1: double::zero(),
        b2: double::zero(),
        a1: double::zero(),
        a2: double::zero(),
    }
}

impl Default for RawCoeffs {
    fn default() -> (r: RawCoeffs)
        ensures
            r == blank(),
    {
        let zero: Double = Double { bits: 0 };
        RawCoeffs { b0: zero, b1: zero, b2: zero, a1: zero, a2: zero }
    }
}

/// A filter that is safe to run: finite, and inside the stability triangle as double arithmetic
/// sees it.
pub open spec fn is_safe(c: RawCoeffs) -> bool {
    &&& double::is_finite(c.b0)
    &&& double::is_finite(c.b1)
    &&& double::is_finite(c.b2)
    &&& double::is_finite(c.a1)
    &&& double::is_finite(c.a2)
    &&& double::magnitude(double::unsigned(c.a2)) < pow2(1074)
    &&& double::magnitude(double::unsigned(c.a1)) < double::magnitude(double::one_plus(c.a2))
}

/// A preamp within the range that is accepted.
pub open spec fn preamp_ok(db: Double) -> bool {
    &&& double::is_finite(db)
    &&& double::at_most(Double { bits: MIN_PREAMP_DB }, db)
    &&& double::at_most(db, Double { bits: MAX_PREAMP_DB })
}

fn preamp_accepted(db: Double) -> (r: bool)
    ensures
        r == preamp_ok(db),
{
    db.is_finite() && Double { bits: MIN_PREAMP_DB }.le(db) && db.le(Double { bits: MAX_PREAMP_DB })
}

/// The coefficients of a filter, as the engine holds them.
pub open spec fn to_coeffs(c: RawCoeffs) -> Coeffs {
    Coeffs { b0: c.b0, b1: c.b1, b2: c.b2, a1: c.a1, a2: c.a2 }
}

/// The identity filter: passes its input through untouched.
pub open spec fn passthrough() -> Coeffs {
    Coeffs {
        b0: Double { bits: ONE },
        b1: double::zero(),
        b2: double::zero(),
        a1: double::zero(),
        a2: double::zero(),
    }
}

impl RawCoeffs {
    /// Is this a filter that is safe to run?
    ///
    /// The numerator is only checked for finiteness: any finite `b` is a bounded gain, and bounding
    /// how much gain is the preamp's job.
    pub fn is_safe(&self) -> (r: bool)
        ensures
            r == is_safe(*self),
    {
        if !(self.b0.is_finite() && self.b1.is_finite() && self.b2.is_finite()
            && self.a1.is_finite() && self.a2.is_finite()) {
            return false;
        }
        let m: u64 = self.a2.bits % SIGN;
        proof {
            double::lemma_one();
            if m < ONE {
                double::lemma_ordered(m, ONE);
            } else if m > ONE {
                double::lemma_ordered(ONE, m);
            }
        }
        if m >= ONE {
            return false;
        }
        let negative: bool = self.a2.bits >= SIGN;
        assert(double::signed(negative, m) == self.a2);
        double::below_one_plus(self.a1.bits % SIGN, negative, m)
    }
}

impl Coeffs {
    /// The identity filter.
    pub fn passthrough() -> (r: Coeffs)
        ensures
            r == passthrough(),
    {
        let zero: Double = Double { bits: 0 };
        Coeffs { b0: Double { bits: ONE }, b1: zero, b2: zero, a1: zero, a2: zero }
    }
}

/// The shared block.
pub struct ControlBlock {
    pub magic: u32,
    pub version: u32,
    /// Seqlock counter. Odd while a write is in progress.
    pub seq: u32,
    /// Bands actually in use. Validated on every read.
    pub band_count: u32,
    pub preamp_db: Double,
    /// Incremented by the engine so the app can see it is alive. Purely outbound.
    pub heartbeat: u64,
    /// What the engine did with the most recent update it looked at: `seq << 32 | code`.
    pub ack: u64,
    /// The rate this instance locked to, in Hz. Outbound.
    pub sample_rate: u32,
    /// Unix time the loaded library was compiled. Outbound.
    pub build_stamp: u64,
    /// Nonzero: apply this update as a crossfade rather than a plain coefficient ramp.
    pub crossfade: u32,
    /// Last, so that its size never disturbs any other field's offset.
    pub coeffs: [RawCoeffs; MAX_BANDS],
}

/// A validated snapshot, ready to hand to the cascade.
#[derive(Clone, Copy, Debug)]
pub struct Snapshot {
    pub preamp_db: Double,
    pub band_count: usize,
    pub crossfade: bool,
    pub coeffs: [Coeffs; MAX_BANDS],
}

/// Every slot holding the identity filter.
pub fn identity_bank() -> (r: [Coeffs; MAX_BANDS])
    ensures
        r@ == Seq::new(MAX_BANDS as nat, |i: int| passthrough()),
{
    let c: Coeffs = Coeffs::passthrough();
    let mut r: [Coeffs; MAX_BANDS] = [c; MAX_BANDS];
    let mut i: usize = 0;
    while i < MAX_BANDS
        invariant
            i <= MAX_BANDS,
            c == passthrough(),
            r@.len() == MAX_BANDS,
            forall|j: int| 0 <= j < i ==> #[trigger] r@[j] == c,
        decreases MAX_BANDS - i,
    {
        r[i] = c;
        i = i + 1;
    }
    assert(r@ =~= Seq::new(MAX_BANDS as nat, |i: int| passthrough()));
    r
}

impl Default for Snapshot {
    fn default() -> (r: Snapshot)
        ensures
            r.preamp_db == double::zero(),
            r.band_count == 0,
            !r.crossfade,
            r.coeffs@ == Seq::new(MAX_BANDS as nat, |i: int| passthrough()),
    {
        let coeffs: [Coeffs; MAX_BANDS] = identity_bank();
        Snapshot { preamp_db: Double { bits: 0 }, band_count: 0, crossfade: false, coeffs }
    }
}

/// What a read came to. Everything but `Updated` means: keep using what you already have.
#[derive(Clone, Copy, PartialEq, Eq, Structural, Debug)]
pub enum ReadOutcome {
    /// A consistent, valid snapshot, with its sequence number.
    Updated(u32),
    /// The writer was mid-update, or finished one during the read.
    Torn,
    /// Not this block, or a layout of another version.
    Unrecognised,
    /// Structurally intact but describing something unsafe to run.
    Rejected,
}

/// Are the first `n` filters of the block safe?
pub open spec fn filters_safe(b: &ControlBlock, n: int) -> bool {
    forall|i: int| 0 <= i < n ==> is_safe(#[trigger] b.coeffs@[i])
}

/// What a read comes to that saw the sequence number `before`, then the block, then the sequence
/// number `after`.
pub open spec fn outcome(before: u32, b: &ControlBlock, after: u32) -> ReadOutcome {
    if before % 2 != 0 {
        ReadOutcome::Torn
    } else if b.magic != CONTROL_MAGIC || b.version != CONTROL_VERSION {
        ReadOutcome::Unrecognised
    } else if b.band_count > MAX_BANDS || !filters_safe(b, b.band_count as int) {
        ReadOutcome::Rejected
    } else if after != before {
        ReadOutcome::Torn
    } else if !preamp_ok(b.preamp_db) {
        ReadOutcome::Rejected
    } else {
        ReadOutcome::Updated(before)
    }
}

/// Is `s` what the block describes, with the unused slots holding the identity filter?
pub open spec fn is_taken_from(s: &Snapshot, b: &ControlBlock) -> bool {
    &&& s.preamp_db == b.preamp_db
    &&& s.band_count == b.band_count
    &&& s.crossfade == (b.crossfade != 0)
    &&& s.coeffs@ == Seq::new(
        MAX_BANDS as nat,
        |i: int|
            if i < b.band_count {
                to_coeffs(b.coeffs@[i])
            } else {
                passthrough()
            },
    )
}

/// Take a snapshot from a copy of the block that was made between two looks at the sequence
/// number. Bounded work, no allocation; on anything but `Updated` the previous snapshot stays.
pub fn read_between(before: u32, block: &ControlBlock, after: u32, out: &mut Snapshot) -> (r:
    ReadOutcome)
    ensures
        r == outcome(before, block, after),
        r is Updated ==> is_taken_from(final(out), block),
        !(r is Updated) ==> *final(out) == *old(out),
{
    if before % 2 != 0 {
        return ReadOutcome::Torn;
    }
    if block.magic != CONTROL_MAGIC || block.version != CONTROL_VERSION {
        return ReadOutcome::Unrecognised;
    }
    if block.band_count as u64 > MAX_BANDS as u64 {
        return ReadOutcome::Rejected;
    }
    let count: usize = block.band_count as usize;
    let mut staged: [Coeffs; MAX_BANDS] = identity_bank();
    let mut i: usize = 0;
    while i < count
        invariant
            i <= count <= MAX_BANDS,
            count == block.band_count,
            before % 2 == 0,
            block.magic == CONTROL_MAGIC && block.version == CONTROL_VERSION,
            filters_safe(block, i as int),
            staged@.len() == MAX_BANDS,
            forall|j: int| 0 <= j < i ==> staged@[j] == to_coeffs(#[trigger] block.coeffs@[j]),
            forall|j: int| i <= j < MAX_BANDS ==> #[trigger] staged@[j] == passthrough(),
        decreases count - i,
    {
        let raw: RawCoeffs = block.coeffs[i];
        if !raw.is_safe() {
            assert(!filters_safe(block, count as int)) by {
                assert(!is_safe(block.coeffs@[i as int]));
            }
            return ReadOutcome::Rejected;
        }
        staged[i] = Coeffs { b0: raw.b0, b1: raw.b1, b2: raw.b2, a1: raw.a1, a2: raw.a2 };
        i = i + 1;
    }
    if after != before {
        return ReadOutcome::Torn;
    }
    if !preamp_accepted(block.preamp_db) {
        return ReadOutcome::Rejected;
    }
    out.preamp_db = block.preamp_db;
    out.band_count = count;
    out.crossfade = block.crossfade != 0;
    out.coeffs = staged;
    assert(out.coeffs@ =~= Seq::new(
        MAX_BANDS as nat,
        |i: int|
            if i < block.band_count {
                to_coeffs(block.coeffs@[i])
            } else {
                passthrough()
            },
    ));
    ReadOutcome::Updated(before)
}

/// Take a consistent snapshot, if there is one.
pub fn try_read(block: &ControlBlock, out: &mut Snapshot) -> (r: ReadOutcome)
    ensures
        r == outcome(block.seq, block, block.seq),
        r is Updated ==> is_taken_from(final(out), block),
        !(r is Updated) ==> *final(out) == *old(out),
{
    read_between(block.seq, block, block.seq, out)
}

/// The block's current sequence number.
pub fn sequence(block: &ControlBlock) -> (r: u32)
    ensures
        r == block.seq,
{
    block.seq
}

/// Record that the engine is alive and processing.
pub fn bump_heartbeat(block: &mut ControlBlock)
    ensures
        final(block).heartbeat == (old(block).heartbeat + 1) % 0x1_0000_0000_0000_0000,
        *final(block) == (ControlBlock { heartbeat: final(block).heartbeat, ..*old(block) }),
{
    block.heartbeat = block.heartbeat.wrapping_add(1);
}

/// Publish when the running engine was built. `stamp` is what the build recorded, as text; anything
/// that is not a 64-bit number publishes none.
pub fn set_build_stamp(block: &mut ControlBlock, stamp: &str)
    ensures
        final(block).build_stamp == stamp_of(stamp@),
        *final(block) == (ControlBlock { build_stamp: final(block).build_stamp, ..*old(block) }),
{
    let cs: Vec<char> = text::chars_of(stamp);
    block.build_stamp = match decimal::parse_u64(cs.as_slice()) {
        Some(v) => v,
        None => 0,
    };
}

/// The build time that a recorded stamp stands for.
pub open spec fn stamp_of(s: Seq<char>) -> u64 {
    match decimal::unsigned_value(s) {
        Some(v) => v as u64,
        None => 0,
    }
}

/// The loaded engine's build time, or `None` if it published none.
pub fn build_stamp(block: &ControlBlock) -> (r: Option<u64>)
    ensures
        r == (if block.build_stamp == 0 {
            None::<u64>
        } else {
            Some(block.build_stamp)
        }),
{
    if block.build_stamp == 0 {
        None
    } else {
        Some(block.build_stamp)
    }
}

/// Publish the rate this instance locked to.
pub fn set_sample_rate(block: &mut ControlBlock, hz: u32)
    ensures
        *final(block) == (ControlBlock { sample_rate: hz, ..*old(block) }),
{
    block.sample_rate = hz;
}

/// The endpoint's sample rate, or `None` if no instance has published one yet.
pub fn sample_rate(block: &ControlBlock) -> (r: Option<u32>)
    ensures
        r == (if block.sample_rate == 0 {
            None::<u32>
        } else {
            Some(block.sample_rate)
        }),
{
    if block.sample_rate == 0 {
        None
    } else {
        Some(block.sample_rate)
    }
}

/// A verdict and the update it is about, packed so that the two can never be read out of step.
pub open spec fn packed(seq: u32, code: u32) -> int {
    seq as int * 0x1_0000_0000 + code
}

/// Record what the engine did with update `seq`.
pub fn set_ack(block: &mut ControlBlock, seq: u32, code: u32)
    ensures
        final(block).ack == packed(seq, code),
        *final(block) == (ControlBlock { ack: final(block).ack, ..*old(block) }),
{
    block.ack = (seq as u64) * 0x1_0000_0000 + (code as u64);
}

/// Read back the engine's verdict as `(seq, code)`.
pub fn ack(block: &ControlBlock) -> (r: (u32, u32))
    ensures
        packed(r.0, r.1) == block.ack,
{
    ((block.ack / 0x1_0000_0000) as u32, (block.ack % 0x1_0000_0000) as u32)
}

/// A verdict unpacks to exactly what was packed.
pub proof fn law_ack_round_trips(seq: u32, code: u32, seq2: u32, code2: u32)
    requires
        packed(seq, code) == packed(seq2, code2),
    ensures
        seq == seq2,
        code == code2,
{
}

/// Would a reader accept this correction?
pub open spec fn publishable(preamp_db: Double, coeffs: Seq<RawCoeffs>) -> bool {
    &&& coeffs.len() <= MAX_BANDS
    &&& preamp_ok(preamp_db)
    &&& forall|i: int| 0 <= i < coeffs.len() ==> is_safe(#[trigger] coeffs[i])
}

fn is_publishable(preamp_db: Double, coeffs: &[RawCoeffs]) -> (r: bool)
    ensures
        r == publishable(preamp_db, coeffs@),
{
    if coeffs.len() > MAX_BANDS || !preamp_accepted(preamp_db) {
        return false;
    }
    let mut i: usize = 0;
    while i < coeffs.len()
        invariant
            i <= coeffs.len(),
            forall|j: int| 0 <= j < i ==> is_safe(#[trigger] coeffs@[j]),
        decreases coeffs.len() - i,
    {
        if !coeffs[i].is_safe() {
            assert(!is_safe(coeffs@[i as int]));
            return false;
        }
        i = i + 1;
    }
    true
}

/// One more, modulo the width of the counter.
pub open spec fn next_seq(seq: u32) -> u32 {
    if seq == u32::MAX {
        0
    } else {
        (seq + 1) as u32
    }
}

/// The part of the block that an update writes.
pub struct Payload {
    pub band_count: u32,
    pub preamp_db: Double,
    pub crossfade: u32,
    pub coeffs: Seq<RawCoeffs>,
}

pub open spec fn payload(b: &ControlBlock) -> Payload {
    Payload {
        band_count: b.band_count,
        preamp_db: b.preamp_db,
        crossfade: b.crossfade,
        coeffs: b.coeffs@,
    }
}

/// The payload that an update writes: its filters, and nothing left over from a longer one.
pub open spec fn payload_of(preamp_db: Double, coeffs: Seq<RawCoeffs>, crossfade: bool) -> Payload {
    Payload {
        band_count: coeffs.len() as u32,
        preamp_db,
        crossfade: if crossfade {
            1
        } else {
            0
        },
        coeffs: Seq::new(
            MAX_BANDS as nat,
            |i: int|
                if i < coeffs.len() {
                    coeffs[i]
                } else {
                    blank()
                },
        ),
    }
}

/// The outbound fields, which only the engine writes.
pub open spec fn same_outbound(a: &ControlBlock, b: &ControlBlock) -> bool {
    &&& a.heartbeat == b.heartbeat
    &&& a.ack == b.ack
    &&& a.sample_rate == b.sample_rate
    &&& a.build_stamp == b.build_stamp
}

/// The first step of an update: mark the layout, and make the counter odd so that readers know the
/// payload is in flux.
pub fn begin_update(block: &mut ControlBlock)
    ensures
        final(block).magic == CONTROL_MAGIC,
        final(block).version == CONTROL_VERSION,
        final(block).seq == next_seq(old(block).seq),
        payload(final(block)) == payload(old(block)),
        same_outbound(final(block), old(block)),
        writer_step(old(block), final(block)),
{
    block.magic = CONTROL_MAGIC;
    block.version = CONTROL_VERSION;
    block.seq = block.seq.wrapping_add(1);
}

/// The second step: write the payload.
pub fn write_update(block: &mut ControlBlock, preamp_db: Double, coeffs: &[RawCoeffs], crossfade: bool)
    requires
        coeffs@.len() <= MAX_BANDS,
    ensures
        payload(final(block)) == payload_of(preamp_db, coeffs@, crossfade),
        final(block).magic == old(block).magic,
        final(block).version == old(block).version,
        final(block).seq == old(block).seq,
        same_outbound(final(block), old(block)),
        old(block).seq % 2 == 1 ==> writer_step(old(block), final(block)),
{
    block.preamp_db = preamp_db;
    block.band_count = coeffs.len() as u32;
    block.crossfade = if crossfade { 1 } else { 0 };
    let mut i: usize = 0;
    while i < MAX_BANDS
        invariant
            i <= MAX_BANDS,
            coeffs@.len() <= MAX_BANDS,
            block.coeffs@.len() == MAX_BANDS,
            forall|j: int|
                0 <= j < i ==> #[trigger] block.coeffs@[j] == (if j < coeffs@.len() {
                    coeffs@[j]
                } else {
                    blank()
                }),
            block.preamp_db == preamp_db,
            block.band_count == coeffs@.len(),
            block.crossfade == (if crossfade {
                1u32
            } else {
                0u32
            }),
            block.magic == old(block).magic,
            block.version == old(block).version,
            block.seq == old(block).seq,
            same_outbound(block, old(block)),
        decreases MAX_BANDS - i,
    {
        let c: RawCoeffs = if i < coeffs.len() {
            coeffs[i]
        } else {
            RawCoeffs::default()
        };
        block.coeffs[i] = c;
        i = i + 1;
    }
    assert(payload(block).coeffs =~= payload_of(preamp_db, coeffs@, crossfade).coeffs);
}

/// The last step: make the counter even again.
pub fn end_update(block: &mut ControlBlock)
    ensures
        *final(block) == (ControlBlock { seq: next_seq(old(block).seq), ..*old(block) }),
        writer_step(old(block), final(block)),
{
    block.seq = block.seq.wrapping_add(1);
}

/// Publish a coefficient set into the block.
///
/// Returns `false` without publishing anything if the set would be refused by a reader, so a bug on
/// the writer's side surfaces there rather than as a silently ignored update.
pub fn publish(block: &mut ControlBlock, preamp_db: Double, coeffs: &[RawCoeffs], crossfade: bool) -> (r:
    bool)
    ensures
        r == publishable(preamp_db, coeffs@),
        !r ==> *final(block) == *old(block),
        r ==> {
            &&& final(block).magic == CONTROL_MAGIC
            &&& final(block).version == CONTROL_VERSION
            &&& final(block).seq == next_seq(next_seq(old(block).seq))
            &&& payload(final(block)) == payload_of(preamp_db, coeffs@, crossfade)
            &&& same_outbound(final(block), old(block))
        },
{
    if !is_publishable(preamp_db, coeffs) {
        return false;
    }
    begin_update(block);
    write_update(block, preamp_db, coeffs, crossfade);
    end_update(block);
    true
}

/// A correction that was published reads back exactly, with the unused slots holding the identity
/// filter.
pub proof fn law_publish_then_read(
    b: &ControlBlock,
    preamp_db: Double,
    coeffs: Seq<RawCoeffs>,
    crossfade: bool,
    s: &Snapshot,
)
    requires
        publishable(preamp_db, coeffs),
        b.magic == CONTROL_MAGIC,
        b.version == CONTROL_VERSION,
        b.seq % 2 == 0,
        payload(b) == payload_of(preamp_db, coeffs, crossfade),
        is_taken_from(s, b),
    ensures
        outcome(b.seq, b, b.seq) == ReadOutcome::Updated(b.seq),
        s.preamp_db == preamp_db,
        s.band_count == coeffs.len(),
        s.crossfade == crossfade,
        forall|i: int|
            0 <= i < MAX_BANDS ==> #[trigger] s.coeffs@[i] == (if i < coeffs.len() {
                to_coeffs(coeffs[i])
            } else {
                passthrough()
            }),
{
    let p = payload_of(preamp_db, coeffs, crossfade);
    assert(b.coeffs@ == p.coeffs);
    assert forall|i: int| 0 <= i < coeffs.len() implies #[trigger] b.coeffs@[i] == coeffs[i] by {
        assert(p.coeffs[i] == coeffs[i]);
    }
    assert forall|i: int| 0 <= i < b.band_count implies is_safe(#[trigger] b.coeffs@[i]) by {
        assert(is_safe(coeffs[i]));
    }
}

/// The reader trusts no writer: from an intact block it takes exactly what the writer's own check
/// would have let through.
pub proof fn law_reader_and_writer_agree(b: &ControlBlock)
    requires
        b.magic == CONTROL_MAGIC,
        b.version == CONTROL_VERSION,
        b.seq % 2 == 0,
        b.band_count <= MAX_BANDS,
    ensures
        (outcome(b.seq, b, b.seq) is Updated) <==> publishable(
            b.preamp_db,
            b.coeffs@.take(b.band_count as int),
        ),
{
    let n = b.band_count as int;
    let t = b.coeffs@.take(n);
    if filters_safe(b, n) {
        assert forall|i: int| 0 <= i < t.len() implies is_safe(#[trigger] t[i]) by {
            assert(is_safe(b.coeffs@[i]));
        }
    }
    if publishable(b.preamp_db, t) {
        assert forall|i: int| 0 <= i < n implies is_safe(#[trigger] b.coeffs@[i]) by {
            assert(is_safe(t[i]));
        }
    }
}

/// Each publish can be told from the one before it, and leaves the counter even where it was even.
pub proof fn law_publishes_are_distinguishable(seq: u32)
    ensures
        next_seq(next_seq(seq)) != seq,
        next_seq(next_seq(seq)) % 2 == seq % 2,
        next_seq(seq) % 2 != seq % 2,
{
}

/// One step of the block's life, as its writer and its engine take them: an outbound field moves;
/// the layout is marked; an update begins; an update writes, in whatever order; an update ends.
pub open spec fn writer_step(a: &ControlBlock, b: &ControlBlock) -> bool {
    ||| {
        &&& b.seq == a.seq
        &&& payload(b) == payload(a)
    }
    ||| {
        &&& a.seq % 2 == 0
        &&& b.seq == next_seq(a.seq)
        &&& payload(b) == payload(a)
    }
    ||| {
        &&& a.seq % 2 == 1
        &&& b.seq == a.seq
    }
    ||| {
        &&& a.seq % 2 == 1
        &&& b.seq == next_seq(a.seq)
        &&& payload(b) == payload(a)
    }
}

/// A stretch of the block's life.
pub open spec fn is_history(h: Seq<ControlBlock>) -> bool {
    forall|k: int| 0 <= k && k + 1 < h.len() ==> writer_step(#[trigger] &h[k], &h[k + 1])
}

/// How often the counter moved in the first `n` steps.
spec fn moves(h: Seq<ControlBlock>, n: nat) -> nat
    decreases n,
{
    if n == 0 {
        0
    } else {
        moves(h, (n - 1) as nat) + (if h[n as int].seq != h[n - 1].seq {
            1nat
        } else {
            0nat
        })
    }
}

proof fn lemma_moves(h: Seq<ControlBlock>, n: nat)
    requires
        is_history(h),
        n < h.len(),
    ensures
        moves(h, n) <= n,
        h[n as int].seq == (h[0].seq + moves(h, n)) % 0x1_0000_0000,
        forall|k: nat| k <= n ==> #[trigger] moves(h, k) <= moves(h, n),
    decreases n,
{
    if n > 0 {
        lemma_moves(h, (n - 1) as nat);
        assert(writer_step(&h[n - 1], &h[n - 1 + 1]));
    }
}

/// A read that sees the same even sequence number before and after saw one payload throughout:
/// never a mixture of two updates. (The counter is 32 bits wide, so the reader must not sleep
/// through 2^32 steps of the writer.)
pub proof fn law_consistent_read_is_one_update(h: Seq<ControlBlock>, k: int)
    requires
        is_history(h),
        0 < h.len() <= 0x1_0000_0000,
        h[0].seq % 2 == 0,
        h.last().seq == h[0].seq,
        0 <= k < h.len(),
    ensures
        payload(&h[k]) == payload(&h[0]),
        h[k].seq == h[0].seq,
{
    let n = (h.len() - 1) as nat;
    lemma_moves(h, n);
    assert(moves(h, n) == 0) by {
        assert((h[0].seq + moves(h, n)) % 0x1_0000_0000 == h[0].seq);
    }
    lemma_still(h, n, k as nat);
}

proof fn lemma_still(h: Seq<ControlBlock>, n: nat, k: nat)
    requires
        is_history(h),
        k <= n < h.len(),
        h[0].seq % 2 == 0,
        moves(h, n) == 0,
    ensures
        payload(&h[k as int]) == payload(&h[0]),
        h[k as int].seq == h[0].seq,
    decreases k,
{
    if k > 0 {
        lemma_still(h, n, (k - 1) as nat);
        lemma_moves(h, n);
        lemma_moves(h, k);
        assert(moves(h, k) <= moves(h, n));
        assert(writer_step(&h[k - 1], &h[k - 1 + 1]));
    }
}

/// The stability triangle, exactly: for `1 + p z^-1 + q z^-2`, with one being `unit`.
pub open spec fn in_triangle(p: int, q: int, unit: int) -> bool {
    &&& -unit < q < unit
    &&& -(unit + q) < p < unit + q
}

/// Every accepted filter is stable in exact arithmetic, not just as rounded.
pub proof fn law_safe_filter_is_stable(c: RawCoeffs)
    requires
        is_safe(c),
    ensures
        in_triangle(double::quanta(c.a1), double::quanta(c.a2), pow2(1074) as int),
{
    let num = (pow2(1074) + double::quanta(c.a2)) as nat;
    double::lemma_below_rounded(double::unsigned(c.a1), num);
}

/// The triangle is convex: everything on the straight line between two stable filters is stable, so
/// a ramp between two accepted filters never passes through an unstable one. The point `n / d` of
/// the way along is taken, with everything multiplied by `d`.
pub proof fn law_ramp_between_stable_filters_is_stable(
    p1: int,
    q1: int,
    p2: int,
    q2: int,
    unit: int,
    n: int,
    d: int,
)
    requires
        in_triangle(p1, q1, unit),
        in_triangle(p2, q2, unit),
        0 <= n <= d,
        0 < d,
    ensures
        in_triangle((d - n) * p1 + n * p2, (d - n) * q1 + n * q2, d * unit),
{
    lemma_between(-unit, q1, q2, unit, n, d);
    assert((d - n) * (unit + q1) + n * (unit + q2) == d * unit + ((d - n) * q1 + n * q2))
        by (nonlinear_arith);
    assert((d - n) * (-(unit + q1)) + n * (-(unit + q2)) == -((d - n) * (unit + q1) + n * (unit
        + q2))) by (nonlinear_arith);
    lemma_mix_order(p1, unit + q1, p2, unit + q2, n, d);
    lemma_mix_order(-(unit + q1), p1, -(unit + q2), p2, n, d);
}

proof fn lemma_mix_order(a1: int, b1: int, a2: int, b2: int, n: int, d: int)
    requires
        a1 < b1,
        a2 < b2,
        0 <= n <= d,
        0 < d,
    ensures
        (d - n) * a1 + n * a2 < (d - n) * b1 + n * b2,
{
    assert((d - n) * a1 + n * a2 < (d - n) * b1 + n * b2) by (nonlinear_arith)
        requires
            a1 + 1 <= b1,
            a2 + 1 <= b2,
            0 <= n <= d,
            0 < d,
    ;
}

proof fn lemma_between(lo: int, a: int, b: int, hi: int, n: int, d: int)
    requires
        lo < a < hi,
        lo < b < hi,
        0 <= n <= d,
        0 < d,
    ensures
        d * lo < (d - n) * a + n * b < d * hi,
{
    lemma_mix_order(lo, a, lo, b, n, d);
    lemma_mix_order(a, hi, b, hi, n, d);
    assert((d - n) * lo + n * lo == d * lo) by (nonlinear_arith);
    assert((d - n) * hi + n * hi == d * hi) by (nonlinear_arith);
}

/// A read is taken exactly from a block that is of this layout, at rest throughout, within the limits,
/// and safe filter by filter; what is taken carries the number that was seen.
pub proof fn law_only_sound_blocks_are_taken(before: u32, b: &ControlBlock, after: u32)
    ensures
        ({
            let r = outcome(before, b, after);
            let still = before % 2 == 0 && after == before;
            let ours = b.magic == 0x4341_4751 && b.version == 7;
            let sound = b.band_count <= 64 && (forall|i: int|
                0 <= i < b.band_count ==> is_safe(#[trigger] b.coeffs@[i])) && double::is_finite(
                b.preamp_db,
            ) && double::at_most(Double { bits: 0xc05e_0000_0000_0000 }, b.preamp_db)
                && double::at_most(b.preamp_db, Double { bits: 0x4028_0000_0000_0000 });
            &&& r is Updated <==> still && ours && sound
            &&& r is Updated ==> r->Updated_0 == before
            &&& still && !ours ==> r is Unrecognised
            &&& still && ours && !sound ==> r is Rejected
            &&& before % 2 == 1 ==> r is Torn
            &&& ours && sound && !still ==> r is Torn
        }),
{
    if forall|i: int| 0 <= i < b.band_count ==> is_safe(#[trigger] b.coeffs@[i]) {
        assert(filters_safe(b, b.band_count as int));
    }
}

/// The numerator of a filter is free as long as it is finite, the feedback is not; and a filter with
/// less of the first feedback is no less safe.
pub proof fn law_only_feedback_decides(c: RawCoeffs, d: RawCoeffs)
    requires
        is_safe(c),
        d.a2 == c.a2,
        double::is_finite(d.a1),
        double::magnitude(double::unsigned(d.a1)) <= double::magnitude(double::unsigned(c.a1)),
    ensures
        is_safe(d) <==> double::is_finite(d.b0) && double::is_finite(d.b1) && double::is_finite(d.b2),
{
}

/// A filter is held as it came, each coefficient in its place.
pub proof fn law_filters_are_held_as_they_came(c: RawCoeffs)
    ensures
        to_coeffs(c).b0 == c.b0,
        to_coeffs(c).b1 == c.b1,
        to_coeffs(c).b2 == c.b2,
        to_coeffs(c).a1 == c.a1,
        to_coeffs(c).a2 == c.a2,
{
}

/// The identity filter is one times the input and nothing else, and is safe to run.
pub proof fn law_identity_is_safe(c: RawCoeffs)
    requires
        to_coeffs(c) == passthrough(),
    ensures
        double::quanta(c.b0) == pow2(1074),
        double::quanta(c.b1) == 0,
        double::quanta(c.b2) == 0,
        double::quanta(c.a1) == 0,
        double::quanta(c.a2) == 0,
        is_safe(c),
{
    double::lemma_zero();
    double::lemma_one();
    let one = (pow2(1074) + double::quanta(c.a2)) as nat;
    lemma_pow2_pos(1074);
    double::lemma_nearest_is(one, 1, ONE);
}

/// A verdict's update is the upper half of the word, and its code the lower.
pub proof fn law_verdict_halves(seq: u32, code: u32)
    ensures
        packed(seq, code) / 0x1_0000_0000 == seq,
        packed(seq, code) % 0x1_0000_0000 == code,
        0 <= packed(seq, code) <= u64::MAX,
{
}

/// The counter goes up by one and starts over behind its last number.
pub proof fn law_counter_goes_up_by_one(seq: u32)
    ensures
        next_seq(seq) == (seq + 1) % 0x1_0000_0000,
{
}

/// What an update leaves alone is what the engine reports: its heartbeat, its verdict, its rate and
/// its build.
pub proof fn law_updates_leave_reports_alone(a: &ControlBlock, b: &ControlBlock)
    ensures
        same_outbound(a, b) <==> a.heartbeat == b.heartbeat && a.ack == b.ack && a.sample_rate
            == b.sample_rate && a.build_stamp == b.build_stamp,
{
}

/// A build time written as a plain number is published as that number.
pub proof fn law_stamp_is_the_number(n: u64)
    ensures
        stamp_of(decimal::digits(n as nat)) == n,
        stamp_of(seq!['+'] + decimal::digits(n as nat)) == n,
{
    decimal::law_written_number_is_read_back(n);
}

/// An update writes its filters in order, how many they are, the preamp and whether it fades; and no
/// coefficient of a longer one before it is left.
pub proof fn law_updates_leave_nothing_over(
    preamp_db: Double,
    coeffs: Seq<RawCoeffs>,
    crossfade: bool,
    i: int,
)
    requires
        coeffs.len() <= 64,
        0 <= i < 64,
    ensures
        ({
            let p = payload_of(preamp_db, coeffs, crossfade);
            let zero = Double { bits: 0 };
            &&& p.preamp_db == preamp_db
            &&& p.band_count == coeffs.len()
            &&& p.crossfade == 1 <==> crossfade
            &&& p.crossfade <= 1
            &&& p.coeffs.len() == 64
            &&& i < coeffs.len() ==> p.coeffs[i] == coeffs[i]
            &&& i >= coeffs.len() ==> p.coeffs[i].b0 == zero && p.coeffs[i].b1 == zero
                && p.coeffs[i].b2 == zero && p.coeffs[i].a1 == zero && p.coeffs[i].a2 == zero
        }),
{
}

/// What a reader holds is what the block says: its preamp, how many filters and each of them, whether
/// it fades; and the identity in every slot behind.
pub proof fn law_snapshot_says_what_the_block_says(s: &Snapshot, b: &ControlBlock, i: int)
    requires
        is_taken_from(s, b),
        0 <= i < 64,
    ensures
        s.preamp_db == b.preamp_db,
        s.band_count == b.band_count,
        s.crossfade <==> b.crossfade != 0,
        i < b.band_count ==> s.coeffs@[i].b0 == b.coeffs@[i].b0 && s.coeffs@[i].b1 == b.coeffs@[i].b1
            && s.coeffs@[i].b2 == b.coeffs@[i].b2 && s.coeffs@[i].a1 == b.coeffs@[i].a1
            && s.coeffs@[i].a2 == b.coeffs@[i].a2,
        i >= b.band_count ==> s.coeffs@[i].b0 == (Double { bits: 0x3ff0_0000_0000_0000 })
            && s.coeffs@[i].b1 == double::zero() && s.coeffs@[i].b2 == double::zero()
            && s.coeffs@[i].a1 == double::zero() && s.coeffs@[i].a2 == double::zero(),
{
}

} // verus!
