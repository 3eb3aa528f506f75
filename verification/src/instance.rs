//! One instance of the effect: the format it was locked to, and what passes through it.
use vstd::prelude::*;

verus! {

/// Most channels that a format can plausibly have.
pub const MAX_CHANNELS: u32 = 32;

/// The single-precision pattern of infinity; every finite positive number's is below it.
pub const SINGLE_INFINITE: u32 = 0x7f80_0000;

/// Per-instance state, made when a connection is locked and dropped when it is unlocked.
#[derive(Debug)]
pub struct CageqApo {
    channels: u32,
    sample_rate: u32,
    frames_processed: u64,
}

/// An instance, as a value.
pub struct InstanceView {
    /// Samples per frame.
    pub channels: u32,
    /// The locked sample rate in Hz, as the pattern of a single-precision number.
    pub sample_rate: u32,
    /// Frames processed since creation, modulo the width of the counter.
    pub frames_processed: u64,
}

impl View for CageqApo {
    type V = InstanceView;

    closed spec fn view(&self) -> InstanceView {
        InstanceView {
            channels: self.channels,
            sample_rate: self.sample_rate,
            frames_processed: self.frames_processed,
        }
    }
}

/// Is this a format that a stream can have: a plausible number of channels, and a finite positive
/// rate, given as the pattern of a single-precision number?
pub open spec fn plausible_format(channels: u32, sample_rate: u32) -> bool {
    0 < channels <= MAX_CHANNELS && 0 < sample_rate < SINGLE_INFINITE
}

/// How many samples a buffer of that many frames holds.
pub open spec fn samples(channels: u32, frames: u32) -> int {
    if frames * channels > usize::MAX {
        usize::MAX as int
    } else {
        frames * channels
    }
}

/// Create an instance for a connection locked at `channels` and `sample_rate`. Refused on an
/// implausible format, so that a bad one never reaches the processing path.
pub fn cageq_apo_create(channels: u32, sample_rate: u32) -> (r: Option<CageqApo>)
    ensures
        match r {
            Some(a) => plausible_format(channels, sample_rate) && a@ == (InstanceView {
                channels,
                sample_rate,
                frames_processed: 0,
            }),
            None => !plausible_format(channels, sample_rate),
        },
{
    if channels == 0 || channels > MAX_CHANNELS || !(0 < sample_rate && sample_rate
        < SINGLE_INFINITE) {
        return None;
    }
    Some(CageqApo { channels, sample_rate, frames_processed: 0 })
}

/// Process one buffer of interleaved samples: they pass through unchanged, and the frames are counted.
/// Without an instance nothing happens.
pub fn cageq_apo_process<T: Copy>(
    apo: Option<&mut CageqApo>,
    input: &[T],
    output: &mut Vec<T>,
    frames: u32,
)
    requires
        apo matches Some(a) ==> samples(a@.channels, frames) <= input@.len() && samples(
            a@.channels,
            frames,
        ) <= old(output)@.len(),
    ensures
        match apo {
            Some(a) => {
                let n = samples(a@.channels, frames);
                &&& final(output)@.len() == old(output)@.len()
                &&& forall|i: int|
                    0 <= i < final(output)@.len() ==> #[trigger] final(output)@[i] == (if i < n {
                        input@[i]
                    } else {
                        old(output)@[i]
                    })
                &&& final(a)@ == (InstanceView {
                    frames_processed: ((a@.frames_processed + frames) % 0x1_0000_0000_0000_0000)
                        as u64,
                    ..a@
                })
            },
            None => final(output)@ == old(output)@,
        },
{
    match apo {
        Some(a) => {
            let n: usize = match (frames as usize).checked_mul(a.channels as usize) {
                Some(n) => n,
                None => usize::MAX,
            };
            let mut i: usize = 0;
            while i < n
                invariant
                    i <= n,
                    n <= input@.len(),
                    n <= output@.len(),
                    output@.len() == old(output)@.len(),
                    forall|j: int|
                        0 <= j < output@.len() ==> #[trigger] output@[j] == (if j < i {
                            input@[j]
                        } else {
                            old(output)@[j]
                        }),
                decreases n - i,
            {
                output.set(i, input[i]);
                i = i + 1;
            }
            a.frames_processed = a.frames_processed.wrapping_add(frames as u64);
        },
        None => {},
    }
}

/// Frames processed since creation: the sign that the instance is alive. Zero without an instance.
pub fn cageq_apo_frames_processed(apo: Option<&CageqApo>) -> (r: u64)
    ensures
        r == (match apo {
            Some(a) => a@.frames_processed,
            None => 0,
        }),
{
    match apo {
        Some(a) => a.frames_processed,
        None => 0,
    }
}

/// The sample rate an instance was locked at, as the pattern of a single-precision number. Zero
/// without an instance.
pub fn cageq_apo_sample_rate(apo: Option<&CageqApo>) -> (r: u32)
    ensures
        r == (match apo {
            Some(a) => a@.sample_rate,
            None => 0,
        }),
{
    match apo {
        Some(a) => a.sample_rate,
        None => 0,
    }
}

/// A stream needs a channel and a rate: no channels, more than thirty-two, a rate that is zero,
/// negative, infinite or no number are refused, and nothing else is.
pub proof fn law_formats_need_channels_and_a_rate(channels: u32, sample_rate: u32)
    ensures
        !plausible_format(0, sample_rate),
        channels > 32 ==> !plausible_format(channels, sample_rate),
        !plausible_format(channels, 0),
        sample_rate >= 0x7f80_0000 ==> !plausible_format(channels, sample_rate),
        1 <= channels <= 32 && 1 <= sample_rate < 0x7f80_0000 ==> plausible_format(
            channels,
            sample_rate,
        ),
{
}

/// A buffer holds a sample of each channel for each frame.
pub proof fn law_frames_hold_every_channel(channels: u32, frames: u32)
    requires
        (frames as int + 1) * channels <= usize::MAX,
        frames < u32::MAX,
    ensures
        samples(channels, 0) == 0,
        samples(channels, (frames + 1) as u32) == samples(channels, frames) + channels,
{
    assert((frames as int + 1) * channels == frames * channels + channels) by (nonlinear_arith);
    assert(0 * channels as int == 0) by (nonlinear_arith);
    assert(frames * channels >= 0) by (nonlinear_arith);
}

} // verus!
