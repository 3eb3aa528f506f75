use cageq::cascade::{Cascade as Engine, Heard, Motion};
use cageq::double::Double;
use cageq::dsp::{Band as Wire, Coeffs as Bits, FilterKind, MAX_BANDS};

const RAMP_MS: f64 = 8.0;
const GESTURE_GAP_MS: f64 = 150.0;
const RAMP_RATE_DB_PER_SEC: f64 = 40.0;
const RAMP_MAX_MS: f64 = 300.0;
const MAX_TOTAL_GAIN_DB: f64 = 20.0;
const GUARD_POINTS: usize = 64;

fn d(x: f64) -> Double {
    Double { bits: x.to_bits() }
}

fn f(x: Double) -> f64 {
    f64::from_bits(x.bits)
}

#[derive(Debug, Clone, Copy)]
struct Band {
    kind: FilterKind,
    freq_hz: f64,
    gain_db: f64,
    q: f64,
}

#[derive(Debug, Clone, Copy)]
struct Coeffs {
    b0: f64,
    b1: f64,
    b2: f64,
    a1: f64,
    a2: f64,
}

/// One frequency's cosines and sines.
#[derive(Debug, Clone, Copy)]
struct GridPoint {
    c1: f64,
    s1: f64,
    c2: f64,
    s2: f64,
}

fn grid_point(freq_hz: f64, sample_rate: f64) -> GridPoint {
    let w = 2.0 * std::f64::consts::PI * freq_hz / sample_rate;
    GridPoint { c1: w.cos(), s1: w.sin(), c2: (2.0 * w).cos(), s2: (2.0 * w).sin() }
}

impl Coeffs {
    const PASSTHROUGH: Coeffs = Coeffs { b0: 1.0, b1: 0.0, b2: 0.0, a1: 0.0, a2: 0.0 };

    fn from_bits(c: &Bits) -> Coeffs {
        Coeffs { b0: f(c.b0), b1: f(c.b1), b2: f(c.b2), a1: f(c.a1), a2: f(c.a2) }
    }

    fn to_bits(self) -> Bits {
        Bits { b0: d(self.b0), b1: d(self.b1), b2: d(self.b2), a1: d(self.a1), a2: d(self.a2) }
    }

    fn lerp(&self, other: &Coeffs, t: f64) -> Coeffs {
        Coeffs {
            b0: self.b0 + (other.b0 - self.b0) * t,
            b1: self.b1 + (other.b1 - self.b1) * t,
            b2: self.b2 + (other.b2 - self.b2) * t,
            a1: self.a1 + (other.a1 - self.a1) * t,
            a2: self.a2 + (other.a2 - self.a2) * t,
        }
    }

    fn power_at(&self, g: &GridPoint) -> f64 {
        let num_re = self.b0 + self.b1 * g.c1 + self.b2 * g.c2;
        let num_im = -(self.b1 * g.s1 + self.b2 * g.s2);
        let den_re = 1.0 + self.a1 * g.c1 + self.a2 * g.c2;
        let den_im = -(self.a1 * g.s1 + self.a2 * g.s2);
        let den = den_re * den_re + den_im * den_im;
        if den <= 0.0 {
            return f64::INFINITY;
        }
        (num_re * num_re + num_im * num_im) / den
    }

    fn response_db(&self, freq_hz: f64, sample_rate: f64) -> f64 {
        10.0 * self.power_at(&grid_point(freq_hz, sample_rate)).log10()
    }
}

fn coefficients(band: &Band, sample_rate: f64) -> Coeffs {
    let a = 10.0_f64.powf(band.gain_db / 40.0);
    let w0 = 2.0 * std::f64::consts::PI * band.freq_hz / sample_rate;
    let alpha = w0.sin() / (2.0 * band.q);
    let cosw = w0.cos();
    let beta = 2.0 * a.sqrt() * alpha;
    let (a0, a1, a2, b0, b1, b2) = match band.kind {
        FilterKind::Peaking => (
            1.0 + alpha / a,
            -2.0 * cosw,
            1.0 - alpha / a,
            1.0 + alpha * a,
            -2.0 * cosw,
            1.0 - alpha * a,
        ),
        FilterKind::LowShelf => (
            a + 1.0 + (a - 1.0) * cosw + beta,
            -2.0 * (a - 1.0 + (a + 1.0) * cosw),
            a + 1.0 + (a - 1.0) * cosw - beta,
            a * (a + 1.0 - (a - 1.0) * cosw + beta),
            2.0 * a * (a - 1.0 - (a + 1.0) * cosw),
            a * (a + 1.0 - (a - 1.0) * cosw - beta),
        ),
        FilterKind::HighShelf => (
            a + 1.0 - (a - 1.0) * cosw + beta,
            2.0 * (a - 1.0 - (a + 1.0) * cosw),
            a + 1.0 - (a - 1.0) * cosw - beta,
            a * (a + 1.0 + (a - 1.0) * cosw + beta),
            -2.0 * a * (a - 1.0 + (a + 1.0) * cosw),
            a * (a + 1.0 + (a - 1.0) * cosw - beta),
        ),
        FilterKind::Bandpass => (1.0 + alpha, -2.0 * cosw, 1.0 - alpha, alpha, 0.0, -alpha),
    };
    Coeffs { b0: b0 / a0, b1: b1 / a0, b2: b2 / a0, a1: a1 / a0, a2: a2 / a0 }
}

fn db_to_gain(db: f64) -> f64 {
    10.0_f64.powf(db / 20.0)
}

/// Shapes of the fade to and from dry.
#[derive(Debug, Clone, Copy)]
enum DryCurve {
    Linear,
    Smoothstep,
    RaisedCosine,
    Quintic,
}

/// The engine with its arithmetic: what it is asked in decibels and samples is computed here, and
/// what to do about it is the library's.
struct Cascade {
    engine: Engine,
    grid: Vec<GridPoint>,
    curve: DryCurve,
    coeffs: [Coeffs; MAX_BANDS],
    target: [Coeffs; MAX_BANDS],
    coeffs2: [Coeffs; MAX_BANDS],
}

impl Cascade {
    fn new(channels: usize, sample_rate: f64) -> Cascade {
        let lo: f64 = 20.0;
        let hi = (0.45 * sample_rate).max(lo * 2.0);
        let grid = (0..GUARD_POINTS)
            .map(|i| {
                let t = i as f64 / (GUARD_POINTS - 1) as f64;
                grid_point(lo * (hi / lo).powf(t), sample_rate)
            })
            .collect();
        Cascade {
            engine: Engine::new(channels, d(sample_rate)),
            grid,
            curve: DryCurve::Linear,
            coeffs: [Coeffs::PASSTHROUGH; MAX_BANDS],
            target: [Coeffs::PASSTHROUGH; MAX_BANDS],
            coeffs2: [Coeffs::PASSTHROUGH; MAX_BANDS],
        }
    }

    fn sync(&mut self) {
        for i in 0..MAX_BANDS {
            self.coeffs[i] = Coeffs::from_bits(&self.engine.coeffs()[i]);
            self.target[i] = Coeffs::from_bits(&self.engine.target()[i]);
            self.coeffs2[i] = Coeffs::from_bits(&self.engine.coeffs2()[i]);
        }
    }

    fn would_be_too_loud(&self, coeffs: &[Coeffs], preamp: f64) -> bool {
        let preamp_db = 20.0 * preamp.log10();
        for g in &self.grid {
            let mut db = preamp_db;
            for c in coeffs {
                let p = c.power_at(g);
                if !p.is_finite() {
                    return true;
                }
                db += 10.0 * p.log10();
            }
            if !db.is_finite() || db > MAX_TOTAL_GAIN_DB {
                return true;
            }
        }
        false
    }

    fn distance_db(&self, from: &[Coeffs], from_db: f64, to: &[Coeffs], to_db: f64) -> f64 {
        let mut sum_sq = 0.0;
        for g in &self.grid {
            let mut db_from = from_db;
            let mut db_to = to_db;
            for c in from {
                db_from += 10.0 * c.power_at(g).max(1e-12).log10();
            }
            for c in to {
                db_to += 10.0 * c.power_at(g).max(1e-12).log10();
            }
            sum_sq += (db_to - db_from) * (db_to - db_from);
        }
        (sum_sq / self.grid.len() as f64).sqrt()
    }

    fn ramp_distance_db(&self) -> f64 {
        let start: Vec<Coeffs> = self.engine.start().iter().map(Coeffs::from_bits).collect();
        let (from, to) = self.engine.preamp_ends_db();
        self.distance_db(&start, f(from), &self.target, f(to))
    }

    fn ramp_ms_for(distance_db: f64) -> f64 {
        (distance_db / RAMP_RATE_DB_PER_SEC * 1000.0).clamp(RAMP_MS, RAMP_MAX_MS)
    }

    fn heard(&self, target: &[Coeffs], db: f64, too_loud: bool) -> Heard {
        let gain = db_to_gain(db);
        let gain_db = 20.0 * gain.log10();
        let from_db = 20.0 * self.preamp().log10();
        let ms = self.distance_db(&self.coeffs, from_db, target, db) / RAMP_RATE_DB_PER_SEC * 1000.0;
        Heard {
            gain: d(gain),
            too_loud,
            from_db: d(from_db),
            paced_frames: ((ms / 1000.0) * self.sample_rate()).round().max(1.0) as u32,
            gain_db: d(gain_db),
            settled_gain: d(db_to_gain(gain_db)),
        }
    }

    fn set_bands(&mut self, bands: &[Band]) -> bool {
        let rate = self.sample_rate();
        let candidate: Vec<Coeffs> = bands.iter().map(|b| coefficients(b, rate)).collect();
        let to_db = f(self.engine.preamp_ends_db().1);
        let heard = self.heard(&candidate, to_db, self.would_be_too_loud(&candidate, db_to_gain(to_db)));
        let wire: Vec<Wire> = bands
            .iter()
            .map(|b| Wire { kind: b.kind, freq_hz: d(b.freq_hz), gain_db: d(b.gain_db), q: d(b.q) })
            .collect();
        let bits: Vec<Bits> = candidate.iter().map(|c| c.to_bits()).collect();
        let r = self.engine.set_bands(&wire, &bits, &heard);
        self.sync();
        r
    }

    fn apply_coeffs(&mut self, coeffs: &[Coeffs], preamp_db: f64) -> bool {
        let heard = self.heard(coeffs, preamp_db, self.would_be_too_loud(coeffs, db_to_gain(preamp_db)));
        let bits: Vec<Bits> = coeffs.iter().map(|c| c.to_bits()).collect();
        let r = self.engine.apply_coeffs(&bits, d(preamp_db), &heard);
        self.sync();
        r
    }

    fn start_crossfade(&mut self, coeffs: &[Coeffs], preamp_db: f64) -> bool {
        let heard = self.heard(coeffs, preamp_db, self.would_be_too_loud(coeffs, db_to_gain(preamp_db)));
        let bits: Vec<Bits> = coeffs.iter().map(|c| c.to_bits()).collect();
        let r = self.engine.start_crossfade(&bits, d(preamp_db), &heard);
        self.sync();
        r
    }

    fn set_preamp_db(&mut self, db: f64) -> bool {
        let n = self.band_count();
        let asked: Vec<Coeffs> = self.engine.requested().iter().map(Coeffs::from_bits).collect();
        assert_eq!(asked.len(), n);
        let heard = self.heard(&asked, db, self.would_be_too_loud(&asked, db_to_gain(db)));
        let r = self.engine.set_preamp_db(d(db), &heard);
        self.sync();
        r
    }

    fn settle(&mut self) {
        self.engine.settle();
        self.sync();
    }

    fn reset_state(&mut self) {
        self.engine.reset_state();
    }

    fn set_dry_curve_for_test(&mut self, curve: DryCurve) {
        self.curve = curve;
    }

    fn channels(&self) -> usize {
        self.engine.channels()
    }

    fn sample_rate(&self) -> f64 {
        f(self.engine.sample_rate())
    }

    fn band_count(&self) -> usize {
        self.engine.band_count()
    }

    fn is_ramping(&self) -> bool {
        self.engine.is_ramping()
    }

    fn ramp_frames(&self) -> u32 {
        self.engine.frames_total().0
    }

    fn cross_fade_left(&self) -> u32 {
        self.engine.frames_left().2
    }

    fn cross_preroll_left(&self) -> u32 {
        self.engine.preroll_left()
    }

    fn cross_mix(&self) -> f64 {
        f(self.engine.mixes().1)
    }

    fn process_count(&self) -> usize {
        self.engine.process_counts().0
    }

    fn process_count2(&self) -> usize {
        self.engine.process_counts().1
    }

    fn preamp(&self) -> f64 {
        f(self.engine.gains().0)
    }

    fn coeffs(&self) -> &[Coeffs; MAX_BANDS] {
        &self.coeffs
    }

    fn target(&self) -> &[Coeffs; MAX_BANDS] {
        &self.target
    }

    fn coeffs2(&self) -> &[Coeffs; MAX_BANDS] {
        &self.coeffs2
    }

    fn response_db(&self, freq_hz: f64) -> f64 {
        let rate = self.sample_rate();
        let filters: f64 =
            self.target[..self.band_count()].iter().map(|c| c.response_db(freq_hz, rate)).sum();
        filters + f(self.engine.preamp_ends_db().1)
    }

    /// Advance one frame.
    fn advance(&mut self, silent: bool) {
        let (ramp, dry, cross) = self.engine.frames_left();
        let moving = ramp > 0 || cross > 0;
        let (ramp_all, dry_all, cross_all) = self.engine.frames_total();
        let along = |left: u32, all: u32| 1.0 - (left - 1) as f64 / all as f64;
        let (dry_now, cross_now) = self.engine.mixes();
        let mut m = Motion {
            coeffs: [Coeffs::PASSTHROUGH.to_bits(); MAX_BANDS],
            preamp: self.engine.gains().0,
            dry_mix: dry_now,
            cross_mix: cross_now,
        };
        if ramp > 0 {
            let s = along(ramp, ramp_all);
            let (from, to) = self.engine.preamp_ends_db();
            m.preamp = d(db_to_gain(f(from) + (f(to) - f(from)) * s));
            for i in 0..self.process_count() {
                let start = Coeffs::from_bits(&self.engine.start()[i]);
                m.coeffs[i] = start.lerp(&self.target[i], s).to_bits();
            }
        }
        if dry > 0 {
            let t = along(dry, dry_all);
            let s = match self.curve {
                DryCurve::Linear => t,
                DryCurve::Smoothstep => t * t * (3.0 - 2.0 * t),
                DryCurve::RaisedCosine => 0.5 - 0.5 * (std::f64::consts::PI * t).cos(),
                DryCurve::Quintic => t * t * t * (t * (t * 6.0 - 15.0) + 10.0),
            };
            let (from, to) = self.engine.dry_ends();
            m.dry_mix = d(f(from) + (f(to) - f(from)) * s);
        }
        if cross > 0 {
            let s = 0.5 - 0.5 * (std::f64::consts::PI * along(cross, cross_all)).cos();
            let (from, to) = self.engine.cross_ends();
            m.cross_mix = d(f(from) + (f(to) - f(from)) * s);
        }
        self.engine.advance(&m, silent);
        if moving {
            self.sync();
        }
    }

    /// Put one sample through one bank.
    fn run(&mut self, second: bool, channel: usize, x: f64) -> f64 {
        let n = if second { self.process_count2() } else { self.process_count() };
        let mut x = x;
        for b in 0..n {
            let c = if second { self.coeffs2[b] } else { self.coeffs[b] };
            let s = self.engine.registers(second, channel, b);
            let y = c.b0 * x + c.b1 * f(s.x1) + c.b2 * f(s.x2) - c.a1 * f(s.y1) - c.a2 * f(s.y2);
            self.engine.record(second, channel, b, d(x), d(y));
            x = y;
        }
        x
    }

    fn process(&mut self, input: &[f32], output: &mut [f32], frames: usize) {
        let channels = self.channels();
        for frame in 0..frames {
            self.advance(false);
            let (preamp, preamp2, dry_preamp) = self.engine.gains();
            let (dry_mix, cross_mix) = self.engine.mixes();
            for ch in 0..channels {
                let i = frame * channels + ch;
                let raw = input[i] as f64;
                let x = self.run(false, ch, raw * f(preamp));
                let wet = x + (raw * f(dry_preamp) - x) * f(dry_mix);
                output[i] = if self.process_count2() > 0 {
                    let x2 = self.run(true, ch, raw * f(preamp2));
                    (wet + (x2 - wet) * f(cross_mix)) as f32
                } else {
                    wet as f32
                };
            }
        }
    }

    fn process_silence(&mut self, output: &mut [f32], frames: usize) -> bool {
        let channels = self.channels();
        let mut peak = 0.0f32;
        for frame in 0..frames {
            self.advance(true);
            let cross_mix = f(self.engine.mixes().1);
            for ch in 0..channels {
                let x = self.run(false, ch, 0.0);
                let y = if self.process_count2() > 0 {
                    let x2 = self.run(true, ch, 0.0);
                    (x + (x2 - x) * cross_mix) as f32
                } else {
                    x as f32
                };
                output[frame * channels + ch] = y;
                peak = peak.max(y.abs());
            }
        }
        let tail = self.engine.finish_silence(peak <= 1e-9);
        if !tail {
            output[..frames * channels].fill(0.0);
        }
        tail
    }
}

const FS: f64 = 48_000.0;

fn peaking(f: f64, gain: f64, q: f64) -> Band {
    Band { kind: FilterKind::Peaking, freq_hz: f, gain_db: gain, q }
}

fn measured_db(cascade: &mut Cascade, freq_hz: f64) -> f64 {
    const N: usize = 1 << 15;
    let channels = cascade.channels();
    cascade.settle();
    cascade.reset_state();

    let mut input = vec![0.0f32; channels];
    let mut output = vec![0.0f32; channels];
    let (mut re, mut im) = (0.0f64, 0.0f64);
    let w = 2.0 * std::f64::consts::PI * freq_hz / cascade.sample_rate();

    for n in 0..N {
        input[0] = if n == 0 { 1.0 } else { 0.0 };
        cascade.process(&input, &mut output, 1);
        let h = output[0] as f64;
        re += h * (w * n as f64).cos();
        im -= h * (w * n as f64).sin();
    }
    10.0 * (re * re + im * im).log10()
}

#[test]
fn measured_response_matches_the_analytic_one() {
    let cases = [
        ("peaking boost", peaking(1000.0, 6.0, 1.4)),
        ("peaking cut", peaking(3150.0, -8.5, 4.0)),
        ("low shelf", Band { kind: FilterKind::LowShelf, freq_hz: 105.0, gain_db: 5.0, q: 0.7 }),
        ("high shelf", Band { kind: FilterKind::HighShelf, freq_hz: 8000.0, gain_db: -4.0, q: 0.7 }),
        ("bandpass", Band { kind: FilterKind::Bandpass, freq_hz: 500.0, gain_db: 0.0, q: 2.0 }),
    ];

    for (name, band) in cases {
        let mut c = Cascade::new(2, FS);
        assert!(c.set_bands(&[band]));
        for &f in &[30.0, 100.0, 440.0, 1000.0, 3150.0, 8000.0, 16000.0] {
            let measured = measured_db(&mut c, f);
            let analytic = c.response_db(f);
            assert!(
                (measured - analytic).abs() < 0.01,
                "{name} at {f} Hz: measured {measured:.4} dB vs analytic {analytic:.4} dB",
            );
        }
    }
}

#[test]
fn a_cascade_adds_in_db() {
    let bands = [peaking(120.0, 4.0, 1.0), peaking(1000.0, -3.0, 2.0), peaking(6000.0, 2.5, 0.9)];

    let mut single = Cascade::new(2, FS);
    let mut expected = [0.0f64; 5];
    let probes = [80.0, 120.0, 1000.0, 6000.0, 12000.0];
    for band in &bands {
        single.set_bands(std::slice::from_ref(band));
        for (i, &f) in probes.iter().enumerate() {
            expected[i] += single.response_db(f);
        }
    }

    let mut all = Cascade::new(2, FS);
    assert!(all.set_bands(&bands));
    for (i, &f) in probes.iter().enumerate() {
        let measured = measured_db(&mut all, f);
        assert!(
            (measured - expected[i]).abs() < 0.01,
            "cascade at {f} Hz: measured {measured:.4} dB vs summed {:.4} dB",
            expected[i],
        );
    }
}

#[test]
fn preamp_is_a_flat_offset() {
    let mut c = Cascade::new(2, FS);
    c.set_bands(&[peaking(1000.0, 6.0, 1.4)]);
    let before: Vec<f64> = [100.0, 1000.0, 10000.0].iter().map(|&f| measured_db(&mut c, f)).collect();

    c.set_preamp_db(-6.0);
    for (i, &f) in [100.0, 1000.0, 10000.0].iter().enumerate() {
        let after = measured_db(&mut c, f);
        assert!(
            (after - (before[i] - 6.0)).abs() < 0.01,
            "preamp at {f} Hz: {after:.4} dB, expected {:.4} dB",
            before[i] - 6.0,
        );
    }
}

#[test]
fn chunking_the_stream_changes_nothing() {
    let bands = [peaking(200.0, 6.0, 3.0), peaking(4000.0, -5.0, 1.2)];
    let frames = 1000;
    let signal: Vec<f32> =
        (0..frames * 2).map(|i| ((i as f64 * 0.017).sin() * 0.3) as f32).collect();

    let mut whole = Cascade::new(2, FS);
    whole.set_bands(&bands);
    let mut out_whole = vec![0.0f32; frames * 2];
    whole.process(&signal, &mut out_whole, frames);

    let mut chunked = Cascade::new(2, FS);
    chunked.set_bands(&bands);
    let mut out_chunked = vec![0.0f32; frames * 2];
    for (chunk, start) in [(300usize, 0usize), (1, 300), (699, 301)] {
        let s = start * 2;
        let e = s + chunk * 2;
        let mut tmp = vec![0.0f32; chunk * 2];
        chunked.process(&signal[s..e], &mut tmp, chunk);
        out_chunked[s..e].copy_from_slice(&tmp);
    }

    for i in 0..frames * 2 {
        assert!(
            (out_whole[i] - out_chunked[i]).abs() < 1e-6,
            "sample {i}: whole {} vs chunked {}",
            out_whole[i],
            out_chunked[i],
        );
    }
}

#[test]
fn processing_in_place_matches_out_of_place() {
    let bands = [peaking(800.0, -4.0, 1.5)];
    let frames = 256;
    let signal: Vec<f32> =
        (0..frames * 2).map(|i| ((i as f64 * 0.03).sin() * 0.4) as f32).collect();

    let mut a = Cascade::new(2, FS);
    a.set_bands(&bands);
    let mut out = vec![0.0f32; frames * 2];
    a.process(&signal, &mut out, frames);

    let mut b = Cascade::new(2, FS);
    b.set_bands(&bands);
    let mut buf = signal.clone();
    let copy = buf.clone();
    b.process(&copy, &mut buf, frames);

    assert_eq!(out, buf);
}

#[test]
fn an_empty_cascade_is_exact_identity() {
    let mut c = Cascade::new(2, FS);
    let signal: Vec<f32> = (0..64).map(|i| (i as f32 - 32.0) / 64.0).collect();
    let mut out = vec![0.0f32; 64];
    c.process(&signal, &mut out, 32);
    assert_eq!(out, signal, "an unconfigured cascade must pass samples through bit-exact");
}

#[test]
fn too_many_bands_is_refused_without_disturbing_the_running_set() {
    let mut c = Cascade::new(2, FS);
    assert!(c.set_bands(&[peaking(1000.0, 3.0, 1.0)]));
    let before = c.response_db(1000.0);

    let too_many: Vec<Band> = (0..MAX_BANDS + 1).map(|i| peaking(100.0 + i as f64, 1.0, 1.0)).collect();
    assert!(!c.set_bands(&too_many));
    assert_eq!(c.band_count(), 1);
    assert_eq!(c.response_db(1000.0), before);
}

#[test]
fn shrinking_the_cascade_stops_the_dropped_bands() {
    let kept = peaking(1000.0, 12.0, 1.0);
    let mut c = Cascade::new(2, FS);
    c.set_bands(&[kept, peaking(5000.0, 12.0, 1.0)]);
    c.set_bands(&[kept]);

    let measured = measured_db(&mut c, 5000.0);
    let expected = c.response_db(5000.0);
    assert!(
        (measured - expected).abs() < 0.01,
        "after dropping the 5 kHz band, 5 kHz reads {measured:.4} dB but the remaining \
         band alone predicts {expected:.4} dB",
    );
    assert!(expected < 11.0, "sanity: the dropped +12 dB band should have dominated 5 kHz");
}

#[test]
fn silence_rings_out_and_then_genuinely_stops() {
    let mut c = Cascade::new(2, FS);
    c.set_bands(&[peaking(100.0, 6.0, 4.0)]);

    let drive = tone(100.0, 0, 2000, 0.5);
    let mut sink = vec![0.0f32; 2000 * 2];
    let stereo: Vec<f32> = drive.iter().flat_map(|&s| [s, s]).collect();
    c.process(&stereo, &mut sink, 2000);

    let mut out = vec![0.0f32; 256 * 2];
    assert!(c.process_silence(&mut out, 256), "tail was truncated at the first silent buffer");
    assert!(out.iter().any(|s| s.abs() > 1e-6), "reported a tail but emitted nothing");

    let mut buffers = 1;
    while c.process_silence(&mut out, 256) {
        buffers += 1;
        assert!(buffers < 2000, "tail never decayed below the silence threshold");
    }

    assert!(out.iter().all(|&s| s == 0.0), "final silent buffer was not exactly zero");
    assert!(!c.process_silence(&mut out, 256), "settled cascade claimed a tail");
}

#[test]
fn audio_resuming_after_settled_silence_starts_clean() {
    let bands = [peaking(100.0, 6.0, 4.0)];
    let resume = tone(440.0, 0, 64, 0.25);
    let stereo: Vec<f32> = resume.iter().flat_map(|&s| [s, s]).collect();

    let mut used = Cascade::new(2, FS);
    used.set_bands(&bands);
    let drive: Vec<f32> = tone(100.0, 0, 2000, 0.5).iter().flat_map(|&s| [s, s]).collect();
    let mut sink = vec![0.0f32; 2000 * 2];
    used.process(&drive, &mut sink, 2000);
    let mut quiet = vec![0.0f32; 256 * 2];
    while used.process_silence(&mut quiet, 256) {}

    let mut fresh = Cascade::new(2, FS);
    fresh.set_bands(&bands);
    fresh.settle();

    let (mut a, mut b) = (vec![0.0f32; 64 * 2], vec![0.0f32; 64 * 2]);
    used.process(&stereo, &mut a, 64);
    fresh.process(&stereo, &mut b, 64);
    assert_eq!(a, b, "settled silence left state that coloured the resumed audio");
}

#[test]
fn a_dangerously_loud_chain_is_refused_from_either_end() {
    let mut c = Cascade::new(2, FS);

    assert!(!c.set_bands(&[peaking(1000.0, 39.0, 1.0)]), "accepted a ~+39 dB band");

    let stacked: Vec<Band> = (0..6).map(|_| peaking(1000.0, 6.0, 0.7)).collect();
    assert!(!c.set_bands(&stacked), "accepted six stacked +6 dB bands at one frequency");

    let spread: Vec<Band> =
        (0..6).map(|i| peaking(100.0 * 2.0_f64.powi(i), 6.0, 2.0)).collect();
    assert!(c.set_bands(&spread), "refused a realistic spread correction");

    assert!(c.set_preamp_db(-6.0));
    assert!(!c.set_preamp_db(60.0), "accepted +60 dB of preamp");
    assert!(c.set_preamp_db(-12.0), "refused a harmless attenuation");
}

#[test]
fn a_refused_loud_set_leaves_the_running_one_intact() {
    let mut c = Cascade::new(2, FS);
    assert!(c.set_bands(&[peaking(1000.0, 6.0, 1.4)]));
    let before = c.response_db(1000.0);

    assert!(!c.set_bands(&[peaking(1000.0, 39.0, 1.0)]));
    assert_eq!(c.band_count(), 1);
    assert!((c.response_db(1000.0) - before).abs() < 1e-12);
}

#[test]
fn applying_raw_coefficients_honours_the_same_ceiling() {
    let mut c = Cascade::new(2, FS);
    let gentle = coefficients(&peaking(1000.0, 6.0, 1.4), FS);
    assert!(c.apply_coeffs(&[gentle], -3.0));
    assert_eq!(c.band_count(), 1);

    let loud = Coeffs { b0: 1000.0, b1: 0.0, b2: 0.0, a1: 0.0, a2: 0.0 };
    assert!(!c.apply_coeffs(&[loud], 0.0), "accepted a stable but +60 dB filter");
    assert_eq!(c.band_count(), 1, "a refused apply must not disturb what is running");
}

#[test]
fn bands_at_or_above_nyquist_are_refused() {
    let mut c = Cascade::new(2, 48_000.0);
    assert!(c.set_bands(&[peaking(1000.0, 3.0, 1.0)]));
    let before = c.response_db(1000.0);

    for f in [24_000.0, 30_000.0, 48_000.0, 21_600.1] {
        assert!(!c.set_bands(&[peaking(f, 3.0, 1.0)]), "accepted {f} Hz at 48 kHz");
    }
    assert_eq!(c.band_count(), 1, "a refused set must not disturb the running one");
    assert_eq!(c.response_db(1000.0), before);

    let mut fast = Cascade::new(2, 96_000.0);
    assert!(fast.set_bands(&[peaking(24_000.0, 3.0, 1.0)]));
    let mut slow = Cascade::new(2, 8_000.0);
    assert!(!slow.set_bands(&[peaking(10_000.0, 3.0, 1.0)]));
}

fn tone(freq_hz: f64, start: usize, n: usize, amp: f64) -> Vec<f32> {
    (0..n)
        .map(|i| {
            let t = (start + i) as f64 / FS;
            ((2.0 * std::f64::consts::PI * freq_hz * t).sin() * amp) as f32
        })
        .collect()
}

#[test]
fn retuning_carries_state_instead_of_restarting_cold() {
    const WARM: usize = 4000;
    const TAIL: usize = 500;
    let before = peaking(100.0, 6.0, 2.0);
    let after = peaking(100.0, 6.1, 2.0);

    let warm = tone(100.0, 0, WARM, 0.5);
    let cont = tone(100.0, WARM, TAIL, 0.5);

    let mut carried = Cascade::new(1, FS);
    let mut cold = Cascade::new(1, FS);
    let mut reference = Cascade::new(1, FS);
    let mut sink = vec![0.0f32; WARM];
    for c in [&mut carried, &mut cold, &mut reference] {
        c.set_bands(&[before]);
        c.process(&warm, &mut sink, WARM);
    }

    carried.set_bands(&[after]);
    cold.set_bands(&[after]);
    cold.reset_state();

    let (mut a, mut b, mut r) = (vec![0.0f32; TAIL], vec![0.0f32; TAIL], vec![0.0f32; TAIL]);
    carried.process(&cont, &mut a, TAIL);
    cold.process(&cont, &mut b, TAIL);
    reference.process(&cont, &mut r, TAIL);

    let peak_dev = |x: &[f32]| {
        x.iter().zip(&r).map(|(p, q)| (p - q).abs()).fold(0.0f32, f32::max)
    };
    let carried_dev = peak_dev(&a);
    let cold_dev = peak_dev(&b);

    assert!(
        carried_dev * 5.0 < cold_dev,
        "state-carry should track the uninterrupted signal far better than a cold \
         restart: carried deviates {carried_dev:.5}, cold-started {cold_dev:.5}",
    );
    assert!(cold_dev > 0.01, "cold restart produced no transient to improve on ({cold_dev:.5})");
}

fn bin_energy(x: &[f32], bin: usize) -> f64 {
    let n = x.len();
    let (mut re, mut im) = (0.0f64, 0.0f64);
    for (i, &s) in x.iter().enumerate() {
        let w = 2.0 * std::f64::consts::PI * bin as f64 * i as f64 / n as f64;
        re += s as f64 * w.cos();
        im -= s as f64 * w.sin();
    }
    2.0 * (re * re + im * im) / n as f64
}

fn hf_splatter_db(x: &[f32], from_bin: usize, fundamental_bin: usize) -> f64 {
    let hf: f64 = (from_bin..x.len() / 2).map(|k| bin_energy(x, k)).sum();
    10.0 * (hf.max(1e-300) / bin_energy(x, fundamental_bin)).log10()
}

fn worst_jump_ratio(x: &[f32]) -> f64 {
    let jumps: Vec<f64> =
        x.windows(2).map(|w| (w[1] - w[0]).abs() as f64).collect();
    let peak = jumps.iter().copied().fold(0.0f64, f64::max);
    let mut sorted = jumps.clone();
    sorted.sort_by(|a, b| a.partial_cmp(b).unwrap());
    let median = sorted[sorted.len() / 2].max(1e-12);
    peak / median
}

#[test]
fn a_preamp_change_alone_does_not_step_the_signal() {
    const WINDOW: usize = 960;
    let wet: Vec<Coeffs> =
        realistic_correction(6.0).iter().map(|b| coefficients(b, FS)).collect();

    let measure = |instant: bool| -> f64 {
        let mut worst = 0.0f64;
        for phase in (0..WINDOW).step_by(WINDOW / 8) {
            let warm = tone(50.0, 0, WINDOW * 20 + phase, 0.5);
            let cont = tone(50.0, WINDOW * 20 + phase, WINDOW, 0.5);
            let mut c = Cascade::new(1, FS);
            assert!(c.apply_coeffs(&wet, -16.0));
            c.settle();
            let mut sink = vec![0.0f32; warm.len()];
            c.process(&warm, &mut sink, warm.len());

            assert!(c.apply_coeffs(&wet, -6.0));
            if instant {
                c.settle();
            }
            let mut out = vec![*sink.last().unwrap()];
            out.extend(std::iter::repeat(0.0f32).take(WINDOW));
            c.process(&cont, &mut out[1..], WINDOW);
            worst = worst.max(worst_jump_ratio(&out));
        }
        worst
    };

    let ramped = measure(false);
    let stepped = measure(true);
    println!("preamp +10 dB — ramped {ramped:.1}x, stepped {stepped:.1}x natural slew");

    assert!(stepped > 5.0, "the stepped case should show a clear jump ({stepped:.1}x)");
    assert!(ramped < 3.0, "preamp ramp still steps the signal ({ramped:.1}x)");
}

#[test]
fn dry_switch_waveform_stereo_21_bands() {
    let bands: Vec<Band> = (0..21)
        .map(|i| peaking(40.0 * 1.35_f64.powi(i), if i % 2 == 0 { 4.0 } else { -3.0 }, 1.4))
        .collect();
    let wet: Vec<Coeffs> = bands.iter().map(|b| coefficients(b, FS)).collect();

    let mut c = Cascade::new(2, FS);
    assert!(c.apply_coeffs(&wet, -7.7), "21-band correction should be accepted");
    c.settle();

    let n = 960 * 40 + 240;
    let mono = tone(50.0, 0, n, 0.5);
    let stereo: Vec<f32> = mono.iter().flat_map(|&s| [s, s]).collect();
    let mut sink = vec![0.0f32; stereo.len()];
    c.process(&stereo, &mut sink, n);

    assert!(c.apply_coeffs(&[], -9.0), "dry should be accepted");
    let cont_mono = tone(50.0, n, 64, 0.5);
    let cont: Vec<f32> = cont_mono.iter().flat_map(|&s| [s, s]).collect();
    let mut out = vec![0.0f32; cont.len()];
    c.process(&cont, &mut out, 64);

    let last_wet = sink[sink.len() - 2];
    
    let step = (out[0] - last_wet).abs();
    let natural = (out[2] - out[0]).abs().max(1e-9);
    println!("  boundary step {step:.5} vs per-sample {natural:.5} = {:.1}x", step / natural);
}
#[test]
fn dry_switch_spectrum() {
    const N: usize = 960 * 8;
    let wet: Vec<Coeffs> =
        realistic_correction(6.0).iter().map(|b| coefficients(b, FS)).collect();
    let warm = tone(50.0, 0, 960 * 60 + 240, 0.5);
    let cont = tone(50.0, 960 * 60 + 240, N, 0.5);

    let mut c = Cascade::new(1, FS);
    assert!(c.apply_coeffs(&wet, -9.0));
    c.settle();
    let mut sink = vec![0.0f32; warm.len()];
    c.process(&warm, &mut sink, warm.len());
    assert!(c.apply_coeffs(&[], -6.0));
    let mut out = vec![0.0f32; N];
    c.process(&cont, &mut out, N);

    let fund = bin_energy(&out, 8);
    let mut peaks: Vec<(f64, f64)> = (2..64)
        .filter(|k| *k != 8)
        .map(|k| (k as f64 * FS / N as f64, 10.0 * (bin_energy(&out, k) / fund).log10()))
        .collect();
    peaks.sort_by(|a, b| b.1.partial_cmp(&a.1).unwrap());
    for hz in [144.0f64, 177.0] {
        let k = (hz * N as f64 / FS).round() as usize;
        let db = 10.0 * (bin_energy(&out, k) / fund).log10();
        println!("  reported {hz:.0} Hz: engine puts {db:.1} dB there");
    }
    println!("strongest non-fundamental bins (re 50 Hz):");
    for (hz, db) in peaks.iter().take(6) {
        println!("    {hz:6.1} Hz  {db:6.1} dB");
    }
}

#[test]
fn curve_choice_and_dry_switch_spectral_spread() {
    const N: usize = 8192;
    let wet: Vec<Coeffs> =
        realistic_correction(6.0).iter().map(|b| coefficients(b, FS)).collect();

    let measure = |curve: DryCurve| -> Vec<(f64, f64)> {
        let mut c = Cascade::new(1, FS);
        assert!(c.apply_coeffs(&wet, -9.0));
        c.settle();
        c.set_dry_curve_for_test(curve);
        let warm = tone(50.0, 0, 960 * 40, 0.5);
        let mut sink = vec![0.0f32; warm.len()];
        c.process(&warm, &mut sink, warm.len());

        let pre = tone(50.0, 960 * 40, N / 2, 0.5);
        let mut a = vec![0.0f32; N / 2];
        c.process(&pre, &mut a, N / 2);
        assert!(c.apply_coeffs(&[], -6.0));
        let post = tone(50.0, 960 * 40 + N / 2, N / 2, 0.5);
        let mut b = vec![0.0f32; N / 2];
        c.process(&post, &mut b, N / 2);

        let seg: Vec<f64> = a
            .iter()
            .chain(b.iter())
            .enumerate()
            .map(|(i, &s)| {
                let w = 0.5 - 0.5 * (2.0 * std::f64::consts::PI * i as f64 / N as f64).cos();
                s as f64 * w
            })
            .collect();
        let mag = |hz: f64| {
            let k = (hz * N as f64 / FS).round();
            let (mut re, mut im) = (0.0f64, 0.0f64);
            for (i, &s) in seg.iter().enumerate() {
                let t = 2.0 * std::f64::consts::PI * k * i as f64 / N as f64;
                re += s * t.cos();
                im -= s * t.sin();
            }
            (re * re + im * im).sqrt()
        };
        let fund = mag(50.0).max(1e-12);
        [100.0, 150.0, 200.0, 300.0, 500.0]
            .iter()
            .map(|&hz| (hz, 20.0 * (mag(hz) / fund).log10()))
            .collect()
    };

    let jump = |curve: DryCurve| -> f64 {
        let mut c = Cascade::new(1, FS);
        assert!(c.apply_coeffs(&wet, -9.0));
        c.settle();
        c.set_dry_curve_for_test(curve);
        let warm = tone(50.0, 0, 960 * 40, 0.5);
        let mut sink = vec![0.0f32; warm.len()];
        c.process(&warm, &mut sink, warm.len());
        assert!(c.apply_coeffs(&[], -6.0));
        let cont = tone(50.0, 960 * 40, 960, 0.5);
        let mut out = vec![*sink.last().unwrap()];
        out.extend(std::iter::repeat(0.0f32).take(960));
        c.process(&cont, &mut out[1..], 960);
        worst_jump_ratio(&out)
    };

    let linear = measure(DryCurve::Linear);
    let smoothstep = measure(DryCurve::Smoothstep);
    let raised_cosine = measure(DryCurve::RaisedCosine);
    let quintic = measure(DryCurve::Quintic);

    println!("      linear    smoothstep  raised-cos  quintic");
    for i in 0..linear.len() {
        println!(
            "{:5.0} Hz  {:7.1} dB  {:7.1} dB  {:7.1} dB  {:7.1} dB",
            linear[i].0, linear[i].1, smoothstep[i].1, raised_cosine[i].1, quintic[i].1,
        );
    }
    println!(
        "worst jump vs slew: linear {:.1}x, smoothstep {:.1}x, raised-cos {:.1}x, quintic {:.1}x",
        jump(DryCurve::Linear),
        jump(DryCurve::Smoothstep),
        jump(DryCurve::RaisedCosine),
        jump(DryCurve::Quintic),
    );

    assert!(linear[0].1 < -20.0, "sanity: the fundamental should dominate at 100 Hz");
}
#[test]
fn does_the_dry_crossfade_swell() {
    const WINDOW: usize = 960 * 3;
    let wet: Vec<Coeffs> =
        realistic_correction(6.0).iter().map(|b| coefficients(b, FS)).collect();
    let warm = tone(50.0, 0, 960 * 60, 0.5);
    let cont = tone(50.0, 960 * 60, WINDOW, 0.5);

    let mut c = Cascade::new(1, FS);
    assert!(c.apply_coeffs(&wet, -9.0));
    c.settle();
    let mut sink = vec![0.0f32; warm.len()];
    c.process(&warm, &mut sink, warm.len());
    let before = rms(&sink[sink.len() - 960..]);

    assert!(c.apply_coeffs(&[], -6.0));
    let mut out = vec![0.0f32; WINDOW];
    c.process(&cont, &mut out, WINDOW);
    let after = rms(&out[WINDOW - 960..]);

    let mut worst_excursion = 0.0f64;
    let mut trace = Vec::new();
    for blk in out.chunks(240).take(12) {
        let r = rms(blk);
        trace.push(format!("{:.4}", r));
        let lo = before.min(after);
        let hi = before.max(after);
        let out_by = if r < lo { lo - r } else if r > hi { r - hi } else { 0.0 };
        worst_excursion = worst_excursion.max(out_by / hi);
    }
    println!("envelope before {before:.4} -> after {after:.4}");
    println!("  through fade: {}", trace.join(" "));
    println!("  worst excursion outside the endpoints: {:.1}%", worst_excursion * 100.0);
}

fn rms(x: &[f32]) -> f64 {
    (x.iter().map(|&s| (s as f64) * (s as f64)).sum::<f64>() / x.len() as f64).sqrt()
}
#[test]
fn fading_to_and_from_dry_beats_switching_instantly() {
    const WINDOW: usize = 960;
    const BASE_PREGAIN_DB: f64 = -6.0;
    const WET_PREAMP_DB: f64 = -9.0;

    let wet: Vec<Coeffs> =
        realistic_correction(6.0).iter().map(|b| coefficients(b, FS)).collect();

    let run = |instant: bool, to_dry: bool| -> f64 {
        let mut worst = 0.0f64;
        for phase in (0..WINDOW).step_by(WINDOW / 8) {
        let warm = tone(50.0, 0, WINDOW * 60 + phase, 0.5);
        let cont = tone(50.0, WINDOW * 60 + phase, WINDOW, 0.5);
        let mut c = Cascade::new(1, FS);
        let mut sink = vec![0.0f32; warm.len()];
        if to_dry {
            assert!(c.apply_coeffs(&wet, WET_PREAMP_DB));
        } else {
            assert!(c.apply_coeffs(&[], BASE_PREGAIN_DB));
        }
        c.settle();
        c.process(&warm, &mut sink, warm.len());

        if to_dry {
            assert!(c.apply_coeffs(&[], BASE_PREGAIN_DB));
        } else {
            assert!(c.apply_coeffs(&wet, WET_PREAMP_DB));
        }
        if instant {
            c.settle();
        }
        let mut out = vec![*sink.last().unwrap()];
        out.extend(std::iter::repeat(0.0f32).take(WINDOW));
        c.process(&cont, &mut out[1..], WINDOW);
        worst = worst.max(worst_jump_ratio(&out));
        }
        worst
    };

    let to_faded = run(false, true);
    let to_instant = run(true, true);
    let from_faded = run(false, false);
    let from_instant = run(true, false);
    println!(
        "dry jump ratio — to: {to_faded:.1}x faded vs {to_instant:.1}x instant; \
         from: {from_faded:.1}x faded vs {from_instant:.1}x instant"
    );

    assert!(to_faded < 2.5, "fading TO dry still jumps {to_faded:.1}x");
    assert!(from_faded < 2.5, "fading FROM dry still jumps {from_faded:.1}x");
    assert!(to_faded < to_instant * 0.6, "fade barely helped going to dry");
    assert!(from_faded < from_instant * 0.6, "fade barely helped coming from dry");
}

#[test]
fn leaving_dry_for_a_different_correction_ramps_and_unwinds_together() {
    const WINDOW: usize = 960;
    let a: Vec<Coeffs> = realistic_correction(6.0).iter().map(|b| coefficients(b, FS)).collect();
    let b: Vec<Coeffs> = [
        peaking(60.0, -5.0, 1.8),
        peaking(220.0, 6.0, 0.9),
        peaking(1200.0, -3.0, 2.4),
        peaking(4200.0, 4.0, 1.1),
        peaking(11000.0, -2.0, 0.8),
    ]
    .iter()
    .map(|band| coefficients(band, FS))
    .collect();

    let run = |instant: bool| -> f64 {
        let mut worst = 0.0f64;
        for phase in (0..WINDOW).step_by(WINDOW / 8) {
            let warm = tone(50.0, 0, WINDOW * 60 + phase, 0.5);
            let cont = tone(50.0, WINDOW * 60 + phase, WINDOW, 0.5);
            let mut c = Cascade::new(1, FS);
            assert!(c.apply_coeffs(&a, -9.0));
            c.settle();
            assert!(c.apply_coeffs(&[], -6.0));
            c.settle();
            let mut sink = vec![0.0f32; warm.len()];
            c.process(&warm, &mut sink, warm.len());

            assert!(c.apply_coeffs(&b, -9.0));
            if instant {
                c.settle();
            }
            let mut out = vec![*sink.last().unwrap()];
            out.extend(std::iter::repeat(0.0f32).take(WINDOW));
            c.process(&cont, &mut out[1..], WINDOW);
            worst = worst.max(worst_jump_ratio(&out));
        }
        worst
    };

    let faded = run(false);
    let instant = run(true);
    println!("dry -> different correction jump ratio: {faded:.1}x combined vs {instant:.1}x instant");
    assert!(faded < 2.5, "combined ramp+unwind still jumps {faded:.1}x");
    assert!(faded < instant * 0.6, "combined transition barely helps over an instant switch");
}

#[test]
fn interrupting_a_fade_to_dry_still_switches_cleanly() {
    const WINDOW: usize = 960;
    let a: Vec<Coeffs> = realistic_correction(6.0).iter().map(|b| coefficients(b, FS)).collect();
    let b: Vec<Coeffs> = [
        peaking(60.0, -5.0, 1.8),
        peaking(220.0, 6.0, 0.9),
        peaking(1200.0, -3.0, 2.4),
        peaking(4200.0, 4.0, 1.1),
        peaking(11000.0, -2.0, 0.8),
    ]
    .iter()
    .map(|band| coefficients(band, FS))
    .collect();
    const INTERRUPT_AT_FRAMES: usize = 48;

    let run = |instant: bool| -> f64 {
        let mut worst = 0.0f64;
        for phase in (0..WINDOW).step_by(WINDOW / 8) {
            let warm = tone(50.0, 0, WINDOW * 60 + phase, 0.5);
            let cont = tone(50.0, WINDOW * 60 + phase, WINDOW, 0.5);
            let mut c = Cascade::new(1, FS);
            assert!(c.apply_coeffs(&a, -9.0));
            c.settle();
            let mut sink = vec![0.0f32; warm.len()];
            c.process(&warm, &mut sink, warm.len());

            assert!(c.apply_coeffs(&[], -6.0));
            let mut interrupted = vec![0.0f32; INTERRUPT_AT_FRAMES];
            let tail = tone(50.0, WINDOW * 60 + warm.len() - INTERRUPT_AT_FRAMES, INTERRUPT_AT_FRAMES, 0.5);
            c.process(&tail, &mut interrupted, INTERRUPT_AT_FRAMES);
            sink.extend(interrupted);

            assert!(c.apply_coeffs(&b, -9.0));
            if instant {
                c.settle();
            }
            let mut out = vec![*sink.last().unwrap()];
            out.extend(std::iter::repeat(0.0f32).take(WINDOW));
            c.process(&cont, &mut out[1..], WINDOW);
            worst = worst.max(worst_jump_ratio(&out));
        }
        worst
    };

    let faded = run(false);
    let instant = run(true);
    println!("interrupted fade-to-dry jump ratio: {faded:.2}x combined vs {instant:.1}x instant");
    assert!(faded < 3.0, "interrupting a fade to dry still jumps {faded:.2}x");
    assert!(faded < instant * 0.6, "combined transition barely helps over an instant switch");
}

#[test]
fn a_band_ramps_cleanly_to_and_from_passthrough_on_a_count_change() {
    const WINDOW: usize = 960;
    let kept = peaking(1000.0, 4.0, 1.0);

    let candidates: &[Band] = &[peaking(3500.0, -5.0, 2.2), peaking(900.0, 2.5, 1.8)];

    for dropped in candidates {
        let tone_hz = dropped.freq_hz;
        let run = |shrinking: bool, instant: bool| -> f64 {
            let mut worst = 0.0f64;
            for phase in (0..WINDOW).step_by(WINDOW / 8) {
                let warm = tone(tone_hz, 0, WINDOW * 60 + phase, 0.5);
                let cont = tone(tone_hz, WINDOW * 60 + phase, WINDOW, 0.5);
                let mut c = Cascade::new(1, FS);
                if shrinking {
                    assert!(c.set_bands(&[kept, *dropped]));
                } else {
                    assert!(c.set_bands(&[kept]));
                }
                c.settle();
                let mut sink = vec![0.0f32; warm.len()];
                c.process(&warm, &mut sink, warm.len());

                if shrinking {
                    assert!(c.set_bands(&[kept]));
                } else {
                    assert!(c.set_bands(&[kept, *dropped]));
                }
                if instant {
                    c.settle();
                }
                let mut out = vec![*sink.last().unwrap()];
                out.extend(std::iter::repeat(0.0f32).take(WINDOW));
                c.process(&cont, &mut out[1..], WINDOW);
                worst = worst.max(worst_jump_ratio(&out));
            }
            worst
        };

        let shrink_ramped = run(true, false);
        let shrink_instant = run(true, true);
        let grow_ramped = run(false, false);
        let grow_instant = run(false, true);
        println!(
            "unity transition ({:.0} Hz, {:.1} dB, Q{:.1}) — drop: {shrink_ramped:.1}x ramped vs {shrink_instant:.1}x instant; \
             add: {grow_ramped:.1}x ramped vs {grow_instant:.1}x instant",
            dropped.freq_hz, dropped.gain_db, dropped.q,
        );
        assert!(shrink_ramped < 2.5, "ramping a {:.0} Hz band to unity still jumps {shrink_ramped:.1}x", dropped.freq_hz);
        assert!(grow_ramped < 2.5, "ramping a {:.0} Hz band from unity still jumps {grow_ramped:.1}x", dropped.freq_hz);
    }
}

#[test]
fn a_drag_sized_edit_is_far_below_the_headline_figure() {
    const WINDOW: usize = 960;
    const BIN: usize = 1;
    const HF_FROM: usize = 20;

    let warm = tone(50.0, 0, WINDOW * 60, 0.5);
    let cont = tone(50.0, WINDOW * 60, WINDOW, 0.5);

    let measure = |delta_db: f64| {
        let mut c = Cascade::new(1, FS);
        assert!(c.set_bands(&realistic_correction(3.0)));
        c.settle();
        let mut sink = vec![0.0f32; warm.len()];
        c.process(&warm, &mut sink, warm.len());

        assert!(c.set_bands(&realistic_correction(3.0 + delta_db)));
        let mut out = vec![0.0f32; WINDOW];
        c.process(&cont, &mut out, WINDOW);
        hf_splatter_db(&out, HF_FROM, BIN)
    };

    let drag_db = measure(0.2);
    let brisk_db = measure(1.0);
    let large_db = measure(6.0);
    println!(
        "HF splatter by edit size: 0.2 dB -> {drag_db:.1} dB, \
         1 dB -> {brisk_db:.1} dB, 6 dB -> {large_db:.1} dB"
    );

    assert!(drag_db < brisk_db, "a smaller edit should splatter less");
    assert!(brisk_db < large_db, "a smaller edit should splatter less");
    assert!(drag_db < -80.0, "a drag increment splattered at {drag_db:.1} dB");
}
#[test]
fn a_ramp_stays_stable_and_lands_exactly_on_target() {
    let mut c = Cascade::new(1, FS);
    assert!(c.set_bands(&realistic_correction(3.0)));
    c.settle();
    assert!(!c.is_ramping());

    let target = realistic_correction(9.0);
    assert!(c.set_bands(&target));
    assert!(c.is_ramping(), "a live edit should ramp");

    let mut out = [0.0f32; 1];
    let mut frames = 0;
    while c.is_ramping() {
        c.process(&[0.1], &mut out, 1);
        frames += 1;
        for k in &c.coeffs()[..c.process_count()] {
            assert!(k.a2.abs() < 1.0 && k.a1.abs() < 1.0 + k.a2, "unstable mid-ramp: {k:?}");
            assert!(k.b0.is_finite() && k.a1.is_finite(), "non-finite mid-ramp: {k:?}");
        }
        assert!(frames < 10_000, "ramp never finished");
    }

    let expected_ms = Cascade::ramp_ms_for(c.ramp_distance_db());
    let expected_frames = ((expected_ms / 1000.0) * FS).round().max(1.0) as u32;
    assert_eq!(frames, expected_frames, "ramp length disagrees with ramp_ms_for");
    assert!(
        frames as f64 > 0.008 * FS + 4.0,
        "a 6 dB single-band edit should now ramp longer than the old fixed 8 ms floor, got {frames} frames"
    );
    for (got, want) in c.coeffs().iter().zip(c.target().iter()) {
        assert_eq!(got.b0, want.b0);
        assert_eq!(got.a2, want.a2);
    }
}

#[test]
fn a_drag_sized_single_band_edit_still_hits_the_floor() {
    let mut c = Cascade::new(1, FS);
    assert!(c.set_bands(&realistic_correction(3.0)));
    c.settle();
    assert!(c.set_bands(&realistic_correction(3.2)));
    assert_eq!(
        c.ramp_frames(),
        ((RAMP_MS / 1000.0) * FS).round().max(1.0) as u32,
        "a 0.2 dB single-band nudge should still clamp to the RAMP_MS floor"
    );
}

#[test]
fn a_full_slot_swap_ramps_far_longer_than_a_drag() {
    let bass = vec![
        peaking(60.0, 8.0, 1.0),
        peaking(120.0, 6.0, 1.0),
        peaking(250.0, 4.0, 1.0),
        peaking(8000.0, -4.0, 1.0),
    ];
    let treble = vec![
        peaking(60.0, -4.0, 1.0),
        peaking(4000.0, 5.0, 1.0),
        peaking(8000.0, 7.0, 1.0),
        peaking(14000.0, 6.0, 1.0),
    ];
    let mut c = Cascade::new(1, FS);
    assert!(c.set_bands(&bass));
    c.settle();
    assert!(c.set_bands(&treble));
    let swap_ms = Cascade::ramp_ms_for(c.ramp_distance_db());

    let mut d = Cascade::new(1, FS);
    assert!(d.set_bands(&realistic_correction(3.0)));
    d.settle();
    assert!(d.set_bands(&realistic_correction(3.2)));
    let drag_ms = Cascade::ramp_ms_for(d.ramp_distance_db());

    println!("drag {drag_ms:.2} ms, slot swap {swap_ms:.2} ms");
    assert!(drag_ms <= RAMP_MS + 0.01, "drag should still sit at the floor, got {drag_ms} ms");
    assert!(
        swap_ms > drag_ms * 5.0,
        "a full slot swap should ramp far longer than a single-band drag: {swap_ms} ms vs {drag_ms} ms"
    );
}

#[test]
fn a_retarget_stays_truncated_through_the_whole_gesture_gap() {
    let mut c = Cascade::new(1, FS);
    assert!(c.set_bands(&realistic_correction(3.0)));
    c.settle();

    assert!(c.set_bands(&realistic_correction(9.0)));
    let first_ms = Cascade::ramp_ms_for(c.ramp_distance_db());
    assert!(first_ms > RAMP_MS + 0.01, "sanity check: this edit must not already sit at the floor");
    assert_eq!(c.ramp_frames(), ((first_ms / 1000.0) * FS).round().max(1.0) as u32);

    let mut out = [0.0f32; 1];
    for _ in 0..((RAMP_MS / 1000.0 * FS).round() as usize + 10) {
        c.process(&[0.1], &mut out, 1);
    }

    assert!(c.set_bands(&realistic_correction(9.4)));
    assert_eq!(
        c.ramp_frames(),
        ((RAMP_MS / 1000.0) * FS).round().max(1.0) as u32,
        "an interrupting retarget must truncate to the floor"
    );

    for _ in 0..((RAMP_MS / 1000.0 * FS).round() as usize + 10) {
        c.process(&[0.1], &mut out, 1);
    }
    assert!(!c.is_ramping(), "sanity check: the floor-length ramp must have already landed");

    assert!(c.set_bands(&realistic_correction(9.6)));
    assert_eq!(
        c.ramp_frames(),
        ((RAMP_MS / 1000.0) * FS).round().max(1.0) as u32,
        "a retarget arriving within GESTURE_GAP_MS of the last one must still truncate, even though no ramp was in flight"
    );

    for _ in 0..((GESTURE_GAP_MS / 1000.0 * FS).round() as usize + 10) {
        c.process(&[0.1], &mut out, 1);
    }

    assert!(c.set_bands(&realistic_correction(3.0)));
    let later_ms = Cascade::ramp_ms_for(c.ramp_distance_db());
    assert_eq!(
        c.ramp_frames(),
        ((later_ms / 1000.0) * FS).round().max(1.0) as u32,
        "a request arriving after a genuine pause must earn the full duration again"
    );
}

#[test]
fn retargeting_mid_ramp_does_not_jump() {
    let mut c = Cascade::new(1, FS);
    assert!(c.set_bands(&realistic_correction(0.0)));
    c.settle();

    let mut out = [0.0f32; 1];
    assert!(c.set_bands(&realistic_correction(12.0)));
    for _ in 0..50 {
        c.process(&[0.1], &mut out, 1);
    }
    let midway = c.coeffs()[0];

    assert!(c.set_bands(&realistic_correction(6.0)));
    assert_eq!(c.coeffs()[0].b0, midway.b0, "retarget must not move the coefficients itself");
    assert!(c.is_ramping());
}
fn realistic_correction(low_gain_db: f64) -> Vec<Band> {
    vec![
        peaking(50.0, low_gain_db, 3.0),
        peaking(160.0, -4.0, 1.2),
        peaking(900.0, 2.5, 1.8),
        peaking(3500.0, -5.0, 2.2),
        peaking(9000.0, 3.0, 1.0),
    ]
}

#[test]
fn retuning_live_does_not_splatter_the_spectrum_the_way_a_cold_restart_does() {
    const WINDOW: usize = 960;
    const BIN: usize = 1;
    const HF_FROM: usize = 20;
    let before = realistic_correction(3.0);
    let after = realistic_correction(9.0);

    let warm = tone(50.0, 0, WINDOW * 60, 0.5);
    let cont = tone(50.0, WINDOW * 60, WINDOW, 0.5);

    let mut ramped = Cascade::new(1, FS);
    let mut instant = Cascade::new(1, FS);
    let mut cold = Cascade::new(1, FS);
    let mut untouched = Cascade::new(1, FS);
    let mut sink = vec![0.0f32; warm.len()];
    for c in [&mut ramped, &mut instant, &mut cold, &mut untouched] {
        assert!(c.set_bands(&before));
        c.settle();
        c.process(&warm, &mut sink, warm.len());
    }

    ramped.set_bands(&after);
    instant.set_bands(&after);
    instant.settle();
    cold.set_bands(&after);
    cold.settle();
    cold.reset_state();

    let mk = || vec![0.0f32; WINDOW];
    let (mut a, mut i2, mut b, mut u) = (mk(), mk(), mk(), mk());
    ramped.process(&cont, &mut a, WINDOW);
    instant.process(&cont, &mut i2, WINDOW);
    cold.process(&cont, &mut b, WINDOW);
    untouched.process(&cont, &mut u, WINDOW);

    let ramped_db = hf_splatter_db(&a, HF_FROM, BIN);
    let instant_db = hf_splatter_db(&i2, HF_FROM, BIN);
    let cold_db = hf_splatter_db(&b, HF_FROM, BIN);
    let floor_db = hf_splatter_db(&u, HF_FROM, BIN);
    println!(
        "HF splatter (>=1 kHz, re 50 Hz): ramped {ramped_db:.1} dB, \
         instant {instant_db:.1} dB, cold {cold_db:.1} dB, floor {floor_db:.1} dB"
    );

    assert!(cold_db > floor_db + 20.0, "cold restart produced no measurable click");
    assert!(
        instant_db < cold_db - 8.0,
        "state-carry should beat a cold restart: instant {instant_db:.1} vs cold {cold_db:.1}",
    );
    assert!(
        ramped_db < instant_db - 3.0,
        "ramping should beat an instant switch: ramped {ramped_db:.1} vs instant {instant_db:.1}",
    );
}

fn real_isolate_correction() -> Vec<Band> {
    vec![
        Band { kind: FilterKind::LowShelf, freq_hz: 105.0, gain_db: 4.18, q: 0.7 },
        Band { kind: FilterKind::HighShelf, freq_hz: 10000.0, gain_db: -3.26, q: 0.7 },
        Band { kind: FilterKind::Peaking, freq_hz: 167.06, gain_db: -3.28, q: 0.3834 },
        Band { kind: FilterKind::Peaking, freq_hz: 2279.24, gain_db: 4.33, q: 2.0228 },
        Band { kind: FilterKind::Peaking, freq_hz: 5880.51, gain_db: -6.2, q: 5.2771 },
        Band { kind: FilterKind::Peaking, freq_hz: 3883.2, gain_db: -3.82, q: 5.9839 },
        Band { kind: FilterKind::Peaking, freq_hz: 1370.05, gain_db: 1.21, q: 2.6791 },
        Band { kind: FilterKind::Peaking, freq_hz: 4591.72, gain_db: 1.29, q: 6.0 },
        Band { kind: FilterKind::Peaking, freq_hz: 6768.92, gain_db: 1.54, q: 6.0 },
        Band { kind: FilterKind::Peaking, freq_hz: 5347.68, gain_db: -1.31, q: 5.9947 },
        Band { kind: FilterKind::LowShelf, freq_hz: 105.0, gain_db: 0.6, q: 0.7 },
        Band { kind: FilterKind::Peaking, freq_hz: 5789.0, gain_db: -2.0, q: 3.0 },
        Band { kind: FilterKind::Peaking, freq_hz: 8337.0, gain_db: 1.6, q: 2.8 },
        Band { kind: FilterKind::HighShelf, freq_hz: 12000.0, gain_db: 0.3, q: 0.7 },
        Band { kind: FilterKind::Peaking, freq_hz: 1601.0, gain_db: -3.0, q: 1.0 },
        Band { kind: FilterKind::Peaking, freq_hz: 2402.0, gain_db: 1.2, q: 2.0 },
        Band { kind: FilterKind::Peaking, freq_hz: 3894.0, gain_db: -2.8, q: 3.0 },
        Band { kind: FilterKind::Peaking, freq_hz: 3291.0, gain_db: -1.0, q: 0.6 },
        Band { kind: FilterKind::LowShelf, freq_hz: 105.0, gain_db: 0.0, q: 1.0 },
        Band { kind: FilterKind::HighShelf, freq_hz: 4000.0, gain_db: 0.0, q: 0.7 },
        Band { kind: FilterKind::HighShelf, freq_hz: 12000.0, gain_db: 0.0, q: 0.7 },
    ]
}

/// The whole output's level at a frequency, with the second bank blended in.
fn composed_output_db(c: &Cascade, g: &GridPoint) -> f64 {
    let level = |bank: &[Coeffs]| 10.0 * bank.iter().map(|k| k.power_at(g)).product::<f64>().log10();
    let wet = level(&c.coeffs()[..c.process_count()]) + 20.0 * c.preamp().log10();
    if c.process_count2() == 0 {
        return wet;
    }
    let wet_lin = db_to_gain(wet);
    let second_lin = db_to_gain(
        level(&c.coeffs2()[..c.process_count2()]) + 20.0 * f(c.engine.gains().1).log10(),
    );
    let mixed_lin = wet_lin + (second_lin - wet_lin) * c.cross_mix();
    20.0 * mixed_lin.abs().max(1e-12).log10()
}

fn audible_points() -> Vec<GridPoint> {
    (0..200).map(|i| grid_point(20.0 * 1000.0f64.powf(i as f64 / 199.0), FS)).collect()
}

fn worst_response_along_transition(c: &mut Cascade) -> f64 {
    let points = audible_points();
    let mut worst = f64::MIN;
    while c.is_ramping() || c.process_count2() > 0 {
        for g in &points {
            worst = worst.max(composed_output_db(c, g));
        }
        c.advance(false);
    }
    for g in &points {
        worst = worst.max(composed_output_db(c, g));
    }
    worst
}

#[test]
fn a_coefficient_ramp_spikes_on_this_real_correction() {
    let mut c = Cascade::new(1, FS);
    assert!(c.set_bands(&real_isolate_correction()));
    c.settle();
    let start_max =
        audible_points().iter().map(|g| composed_output_db(&c, g)).fold(f64::MIN, f64::max);

    let bandpass = Band { kind: FilterKind::Bandpass, freq_hz: 31.0, gain_db: 0.0, q: 8.0 };
    let mut target: Vec<Coeffs> = vec![Coeffs::PASSTHROUGH; real_isolate_correction().len()];
    target.push(coefficients(&bandpass, FS));
    assert!(c.apply_coeffs(&target, 0.0));
    assert!(c.is_ramping());

    let worst = worst_response_along_transition(&mut c);
    println!("coefficient ramp: start_max={start_max:.1} dB, worst_mid_ramp={worst:.1} dB");
    assert!(
        worst > start_max + 10.0,
        "expected the known coefficient-ramp spike (>10 dB over start), got only {:.1} dB over",
        worst - start_max
    );
}

#[test]
fn a_crossfade_never_exceeds_either_side_alone() {
    const N: usize = 4000;
    let input: Vec<f32> = (0..N)
        .map(|n| {
            let t = n as f64 / FS;
            let s = 0.2 * (2.0 * std::f64::consts::PI * 60.0 * t).sin()
                + 0.15 * (2.0 * std::f64::consts::PI * 500.0 * t).sin()
                + 0.1 * (2.0 * std::f64::consts::PI * 4000.0 * t).sin();
            s as f32
        })
        .collect();

    for isolate_freq in [31.0, 2000.0, 9000.0] {
        let bandpass = Band { kind: FilterKind::Bandpass, freq_hz: isolate_freq, gain_db: 0.0, q: 8.0 };

        let mut wet_only = Cascade::new(1, FS);
        assert!(wet_only.set_bands(&real_isolate_correction()));
        wet_only.settle();
        let mut wet_out = vec![0.0f32; N];
        wet_only.process(&input, &mut wet_out, N);

        let mut secondary_only = Cascade::new(1, FS);
        assert!(secondary_only.set_bands(std::slice::from_ref(&bandpass)));
        secondary_only.settle();
        let mut secondary_out = vec![0.0f32; N];
        secondary_only.process(&input, &mut secondary_out, N);

        let mut actual = Cascade::new(1, FS);
        assert!(actual.set_bands(&real_isolate_correction()));
        actual.settle();
        let target = [coefficients(&bandpass, FS)];
        assert!(actual.start_crossfade(&target, 0.0), "the crossfade must be accepted");
        assert!(!actual.is_ramping(), "a crossfade must not also start a coefficient ramp");
        let mut actual_out = vec![0.0f32; N];
        actual.process(&input, &mut actual_out, N);

        let mut worst_excess = 0.0f32;
        for n in 0..N {
            let bound = wet_out[n].abs().max(secondary_out[n].abs());
            worst_excess = worst_excess.max(actual_out[n].abs() - bound);
        }
        println!(
            "isolate_freq={isolate_freq:.0} Hz: worst sample excess over max(wet, secondary) = {worst_excess:.6}"
        );
        assert!(
            worst_excess < 1e-4,
            "crossfade produced a sample louder than either side alone: excess {worst_excess:.6} at {isolate_freq} Hz"
        );

        assert_eq!(actual.process_count2(), 0, "the secondary bank must be idle once the fade lands");
        assert_eq!(actual.process_count(), 1, "the bandpass must now be the one and only primary band");
    }
}

#[test]
fn retargeting_mid_preroll_repoints_immediately_without_restarting() {
    let mut c = Cascade::new(1, FS);
    assert!(c.set_bands(&real_isolate_correction()));
    c.settle();

    let first = [coefficients(&Band { kind: FilterKind::Bandpass, freq_hz: 100.0, gain_db: 0.0, q: 8.0 }, FS)];
    assert!(c.start_crossfade(&first, 0.0));

    let mut out = [0.0f32; 1];
    for _ in 0..50 {
        c.process(&[0.1], &mut out, 1);
    }
    assert!(c.cross_preroll_left() > 0, "should still be pre-rolling");
    assert_eq!(c.cross_mix(), 0.0, "nothing should be audible yet");

    let second = [coefficients(&Band { kind: FilterKind::Bandpass, freq_hz: 8000.0, gain_db: 0.0, q: 8.0 }, FS)];
    assert!(c.start_crossfade(&second, 0.0));
    assert_eq!(c.coeffs2()[0].b0, second[0].b0, "the secondary bank must repoint immediately — nothing to defer");

    let mut frames = 0;
    while c.process_count2() > 0 {
        c.process(&[0.1], &mut out, 1);
        assert!(out[0].is_finite(), "retargeting mid-preroll must not go unstable");
        frames += 1;
        assert!(frames < 100_000, "crossfade never landed after a retarget");
    }
    assert_eq!(c.process_count(), 1);
    assert_eq!(c.coeffs()[0].b0, second[0].b0, "must have landed on the retargeted band, not the first one");
}

#[test]
fn retargeting_mid_fade_redirects_immediately_without_queueing() {
    let mut c = Cascade::new(1, FS);
    assert!(c.set_bands(&real_isolate_correction()));
    c.settle();

    let first = [coefficients(&Band { kind: FilterKind::Bandpass, freq_hz: 9000.0, gain_db: 0.0, q: 8.0 }, FS)];
    assert!(c.start_crossfade(&first, 0.0));

    let mut out = [0.0f32; 1];
    while c.cross_preroll_left() > 0 {
        c.process(&[0.1], &mut out, 1);
    }
    for _ in 0..100 {
        c.process(&[0.1], &mut out, 1);
    }
    assert!(c.cross_fade_left() > 0, "should be mid-fade");
    let mix_at_retarget = c.cross_mix();
    assert!(mix_at_retarget > 0.0, "should already carry real weight");

    let second = [coefficients(&Band { kind: FilterKind::Bandpass, freq_hz: 31.0, gain_db: 0.0, q: 8.0 }, FS)];
    assert!(c.start_crossfade(&second, 0.0));
    assert_eq!(c.coeffs2()[0].b0, second[0].b0, "the secondary bank must redirect immediately — nothing to queue");
    assert_eq!(c.cross_mix(), mix_at_retarget, "the blend's own progress must not reset on a retarget");
    assert!(c.cross_fade_left() > 0, "the in-flight fade continues on its existing schedule");

    let mut frames = 0;
    while c.process_count2() > 0 {
        c.process(&[0.1], &mut out, 1);
        assert!(out[0].is_finite(), "must never go unstable");
        frames += 1;
        assert!(frames < 100_000, "the crossfade never landed");
    }
    assert_eq!(c.coeffs()[0].b0, second[0].b0, "must land on the retargeted (second) band, not the superseded first one");
}

const REAL_DRAG_TICKS: &[(u64, f64)] = &[
    (0, 38.0), (170, 58.0), (75, 89.0), (75, 110.0), (74, 136.0), (72, 170.0), (75, 220.0),
    (74, 277.0), (71, 337.0), (71, 430.0), (75, 553.0), (75, 746.0), (76, 1048.0), (74, 1512.0),
    (75, 2383.0), (76, 3583.0), (74, 5573.0), (76, 9597.0), (74, 10699.0), (230, 7566.0),
    (75, 5535.0), (75, 4275.0), (73, 3394.0), (72, 2863.0), (74, 2304.0), (75, 1854.0),
    (75, 1384.0), (75, 946.0), (76, 642.0), (74, 424.0), (72, 286.0), (75, 223.0), (75, 160.0),
    (75, 110.0), (75, 81.0), (75, 59.0), (73, 50.0), (73, 46.0), (81, 46.0), (154, 49.0),
    (125, 53.0), (75, 65.0), (75, 72.0), (75, 77.0), (75, 89.0), (74, 134.0), (75, 237.0),
    (76, 394.0), (75, 647.0), (74, 914.0), (75, 1241.0), (76, 1586.0), (75, 2109.0), (74, 3003.0),
    (71, 4734.0), (75, 7021.0), (75, 9467.0), (71, 12173.0), (83, 12940.0), (128, 13029.0),
    (72, 10341.0), (75, 8434.0), (74, 6695.0), (73, 5726.0), (72, 4865.0), (74, 3941.0),
    (75, 3149.0), (75, 2483.0), (75, 1841.0), (75, 1471.0), (75, 1099.0), (75, 766.0),
    (75, 517.0), (72, 326.0), (75, 223.0), (75, 160.0), (75, 110.0), (75, 81.0), (75, 59.0),
    (73, 50.0), (73, 46.0), (73, 43.0), (74, 39.0), (71, 37.0),
];

fn peak_freq(c: &Cascade, scan: &[f64]) -> f64 {
    scan.iter()
        .copied()
        .fold((f64::MIN, 0.0), |(best_db, best_f), f| {
            let db = c.coeffs()[0].response_db(f, FS);
            if db > best_db { (db, f) } else { (best_db, best_f) }
        })
        .1
}

#[test]
fn set_bands_tracks_the_pointer_closely_through_a_real_isolate_drag() {
    let q = 8.0;
    let mut c = Cascade::new(1, FS);
    assert!(c.set_bands(&[Band {
        kind: FilterKind::Bandpass,
        freq_hz: REAL_DRAG_TICKS[0].1,
        gain_db: 0.0,
        q,
    }]));
    c.settle();

    let scan: Vec<f64> = (0..800).map(|i| 20.0 * 1000.0f64.powf(i as f64 / 799.0)).collect();
    let (input, mut output) = ([0.0f32; 1], [0.0f32; 1]);
    let mut max_lag_pct = 0.0f64;
    for i in 1..REAL_DRAG_TICKS.len() {
        let (gap_before, freq_hz) = REAL_DRAG_TICKS[i];
        assert!(c.set_bands(&[Band { kind: FilterKind::Bandpass, freq_hz, gain_db: 0.0, q }]));
        let gap_after = REAL_DRAG_TICKS.get(i + 1).map_or(0, |&(g, _)| g);
        for _ in 0..(gap_after as f64 / 1000.0 * FS).round() as usize {
            c.process(&input, &mut output, 1);
        }
        let lag_pct = 100.0 * (freq_hz - peak_freq(&c, &scan)).abs() / freq_hz;
        if (gap_before as f64) <= GESTURE_GAP_MS {
            max_lag_pct = max_lag_pct.max(lag_pct);
        }
    }
    let mut settle_frames = 0;
    while c.is_ramping() {
        c.process(&input, &mut output, 1);
        settle_frames += 1;
    }
    println!(
        "max lag on a continuing tick: {max_lag_pct:.1}%; settle tail after last tick: {:.1} ms",
        settle_frames as f64 / FS * 1000.0
    );
    assert!(
        max_lag_pct < 10.0,
        "expected every gesture-continuing tick to land within its own gap, got {max_lag_pct:.1}% behind at some tick"
    );
    assert!(
        settle_frames as f64 / FS * 1000.0 < 20.0,
        "expected a short settle tail after the drag stops (near the RAMP_MS floor, not RAMP_MAX_MS), got \
         {:.1} ms",
        settle_frames as f64 / FS * 1000.0
    );
}

#[test]
fn a_settled_engine_goes_dry_and_comes_back_with_its_chain() {
    let wet: Vec<Coeffs> = realistic_correction(3.0).iter().map(|b| coefficients(b, FS)).collect();
    let mut c = Cascade::new(1, FS);
    assert!(c.apply_coeffs(&wet, -3.0));
    c.settle();
    assert!(!c.engine.is_dry());
    assert!(c.apply_coeffs(&[], -6.0));
    assert!(c.engine.is_dry() && c.band_count() == 5 && !c.is_ramping());
    let mut out = [0.0f32; 600];
    c.process(&[0.5; 600], &mut out, 600);
    assert_eq!(out[599], (0.5 * db_to_gain(-6.0)) as f32);
    assert!(c.apply_coeffs(&wet, -3.0));
    assert!(!c.engine.is_dry() && c.is_ramping());
}

#[test]
fn the_lengths_are_counted_in_frames_of_the_rate() {
    for rate in [8_000.0, 44_100.0, 48_000.0, 192_000.0] {
        let mut c = Cascade::new(1, rate);
        assert_eq!(c.engine.frames_total().1, (0.01 * rate).round() as u32);
        assert_eq!(c.engine.frames_total().2, (0.01 * rate).round() as u32);
        assert!(c.set_bands(&[peaking(100.0, 15.0, 0.1)]));
        assert!(c.ramp_frames() <= (0.3 * rate).round() as u32);
        assert!(c.set_bands(&[peaking(100.0, -15.0, 0.1)]));
        assert_eq!(c.ramp_frames(), (0.008 * rate).round() as u32);
    }
}

#[test]
fn nothing_that_is_no_number_is_taken() {
    let mut c = Cascade::new(2, FS);
    assert!(!c.set_preamp_db(f64::NAN));
    assert!(!c.set_preamp_db(f64::INFINITY));
    assert!(!c.apply_coeffs(&[Coeffs::PASSTHROUGH], f64::NAN));
    assert!(!c.start_crossfade(&[Coeffs::PASSTHROUGH; MAX_BANDS + 1], 0.0));
    assert!(!c.set_bands(&[peaking(f64::NAN, 1.0, 1.0)]));
    assert!(!c.set_bands(&[peaking(0.0, 1.0, 1.0)]));
    assert!(!c.is_ramping() && c.band_count() == 0);
}

#[test]
fn a_preamp_is_judged_with_the_filters_asked_for() {
    let mut c = Cascade::new(2, FS);
    assert!(c.set_bands(&[peaking(1000.0, 15.0, 1.0)]));
    assert!(c.is_ramping(), "the filters running are still flat");
    assert!(!c.set_preamp_db(10.0), "it would land at +25 dB");
    assert!(c.set_preamp_db(3.0));

    // And the other way: filters on their way out no longer count.
    let mut c = Cascade::new(2, FS);
    assert!(c.set_bands(&[peaking(1000.0, 15.0, 1.0)]));
    c.settle();
    assert!(c.set_bands(&[peaking(1000.0, -15.0, 1.0)]));
    assert!(c.set_preamp_db(10.0), "it lands at -5 dB");
}

#[test]
fn the_response_is_that_of_the_target() {
    let mut c = Cascade::new(2, FS);
    assert!(c.set_bands(&[peaking(1000.0, 6.0, 1.0)]));
    assert!(c.set_preamp_db(-4.0));
    assert!(c.is_ramping());
    let asked = c.response_db(1000.0);
    assert!((asked - 2.0).abs() < 1e-9, "{asked}");
    c.settle();
    assert!((c.response_db(1000.0) - asked).abs() < 1e-9);
}

#[test]
fn a_crossfade_never_ramps_and_lands_on_time() {
    let mut c = Cascade::new(2, FS);
    let band = coefficients(&peaking(1000.0, 6.0, 1.0), FS);
    assert!(c.start_crossfade(&[band], -3.0));
    let frames = 2 * c.engine.frames_total().2;
    for _ in 0..frames {
        assert!(!c.is_ramping());
        c.advance(false);
    }
    assert!(!c.is_ramping());
    assert_eq!(c.engine.frames_left(), (0, 0, 0));
    assert_eq!(c.band_count(), 1);
    assert_eq!(c.engine.coeffs()[0], band.to_bits());
    assert_eq!(c.engine.requested().len(), 1);
}

#[test]
fn refused_bands_change_nothing_at_any_time() {
    for rate in [44_100.0, 48_000.0, 192_000.0] {
        let mut c = Cascade::new(2, rate);
        assert!(c.set_bands(&[peaking(1000.0, 6.0, 1.0)]));
        for _ in 0..10 {
            c.advance(false);
        }
        let (n, left) = (c.band_count(), c.engine.frames_left());
        let before = c.response_db(1000.0);
        assert!(!c.set_bands(&[peaking(0.45 * rate, 1.0, 1.0)]), "0.45 of the rate is too near");
        assert!(!c.set_bands(&[peaking(0.5 * rate, 1.0, 1.0)]));
        assert!(!c.set_bands(&[peaking(-1.0, 1.0, 1.0)]));
        assert!(!c.set_bands(&vec![peaking(1000.0, 0.1, 1.0); MAX_BANDS + 1]));
        assert!(!c.set_bands(&vec![peaking(1000.0, 6.0, 0.7); 6]));
        assert_eq!((c.band_count(), c.engine.frames_left()), (n, left));
        assert_eq!(c.response_db(1000.0), before);
        assert!(c.set_bands(&[peaking(0.449 * rate, 1.0, 1.0)]));
    }
}

#[test]
fn filters_are_judged_with_the_preamp_asked_for() {
    let mut c = Cascade::new(2, FS);
    assert!(c.set_preamp_db(10.0));
    assert!(c.is_ramping(), "the preamp running is still flat");
    assert!(!c.set_bands(&[peaking(1000.0, 15.0, 1.0)]), "it would land at +25 dB");
    assert_eq!(c.band_count(), 0);

    // And the other way: a preamp on its way down no longer counts.
    c.settle();
    assert!(c.set_preamp_db(-10.0));
    assert!(c.set_bands(&[peaking(1000.0, 15.0, 1.0)]), "it lands at +5 dB");
}
