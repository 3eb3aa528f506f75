//! The backend that drives this project's own effect.
//!
//! Applying a correction does two things. The endpoint's configuration file is written, so that the
//! correction is live from boot; and the coefficients are pushed down the control channel, so that
//! editing feels live. Neither is a fallback for the other. No channel means that nothing plays on
//! that endpoint, an ordinary state.
use crate::apo_config;
use crate::apo_config::{ApoConfig, ConfigView};
use crate::backend;
use crate::backend::{Capabilities, DeviceConfig, Filter, FilterType};
use crate::config_writer;
use crate::control;
use crate::control::{ControlBlock, RawCoeffs};
use crate::double;
use crate::double::Double;
use crate::dsp::{Band, FilterKind};
use crate::endpoint;
use crate::fingerprint;
use crate::slots;
use crate::slots::SlotAssignment;
use crate::text;
use std::path::PathBuf;
use vstd::prelude::*;

verus! {

/// Marker of the line that carries the content hash, written at the head of each configuration file.
/// A comment, so the engine's parser skips it.
pub const HASH_PREFIX: &'static str = "# cageq-hash=";

/// The pattern of -120: the preamp of the safe state, in dB.
pub const SAFE_PREAMP_DB: u64 = 0xc05e_0000_0000_0000;

/// The pattern of -119.9: no preamp above it is taken for the safe state's.
pub const SAFE_PREAMP_LIMIT_DB: u64 = 0xc05d_f999_9999_999a;

/// What can go wrong.
#[derive(Debug)]
pub enum ApoBackendError {
    BadEndpointId(String),
    Write { path: PathBuf, source: std::io::Error },
    /// The engine has not published a sample rate, so coefficients cannot be computed for it.
    NoSampleRate(String),
    /// The live control channel refused the correction outright. The configuration file still wrote,
    /// so the correction is saved.
    LivePushRefused(String),
}

/// Calls `Path::display`. Nothing is claimed of the text: how a path is shown is the platform's to
/// say.
#[verifier::external_body]
fn path_text(path: &PathBuf) -> String {
    path.display().to_string()
}

/// What went wrong, in words; `path` and `cause` are how the platform shows a path and an error of
/// its own.
pub open spec fn message_of(e: ApoBackendError, path: Seq<char>, cause: Seq<char>) -> Seq<char> {
    match e {
        ApoBackendError::BadEndpointId(id) => "'"@ + id@ + "' is not an endpoint GUID"@,
        ApoBackendError::Write { path: _, source: _ } => "could not write "@ + path + ": "@ + cause,
        ApoBackendError::NoSampleRate(id) => "the APO on "@ + id@
            + " published no sample rate — try again shortly"@,
        ApoBackendError::LivePushRefused(id) => "the correction for "@ + id@
            + " was refused by CAGEq's own engine (too many bands, or an unsafe filter) — saved to disk, but not live"@,
    }
}

impl ApoBackendError {
    /// What went wrong, in words.
    pub fn message(&self) -> (r: String)
        ensures
            exists|path: Seq<char>, cause: Seq<char>| r@ == #[trigger] message_of(*self, path, cause),
    {
        match self {
            ApoBackendError::Write { path, source } => {
                let p: String = path_text(path);
                let e: String = config_writer::io_error_text(source);
                self.message_with(p.as_str(), e.as_str())
            },
            _ => self.message_with("", ""),
        }
    }

    /// What went wrong, in words, where the path is shown as `path` and the failure underneath is
    /// worded as `cause`.
    pub fn message_with(&self, path: &str, cause: &str) -> (r: String)
        ensures
            r@ == message_of(*self, path@, cause@),
    {
        match self {
            ApoBackendError::BadEndpointId(id) => {
                let mut s: String = "'".to_owned();
                s.append(id.as_str());
                s.append("' is not an endpoint GUID");
                s
            },
            ApoBackendError::Write { path: _, source: _ } => {
                let mut s: String = "could not write ".to_owned();
                s.append(path);
                s.append(": ");
                s.append(cause);
                s
            },
            ApoBackendError::NoSampleRate(id) => {
                let mut s: String = "the APO on ".to_owned();
                s.append(id.as_str());
                s.append(" published no sample rate — try again shortly");
                s
            },
            ApoBackendError::LivePushRefused(id) => {
                let mut s: String = "the correction for ".to_owned();
                s.append(id.as_str());
                s.append(
                    " was refused by CAGEq's own engine (too many bands, or an unsafe filter) — saved to disk, but not live",
                );
                s
            },
        }
    }
}

/// The safe state: effective silence, no filters. Not the absence of a correction, since the neutral
/// state of the engine passes audio through at full volume.
pub open spec fn silence() -> ConfigView {
    ConfigView { preamp_db: Double { bits: SAFE_PREAMP_DB }, bands: Seq::empty() }
}

/// The safe state.
pub fn safe_state() -> (r: ApoConfig)
    ensures
        r@ == silence(),
{
    let r: ApoConfig = ApoConfig { preamp_db: Double { bits: SAFE_PREAMP_DB }, bands: Vec::new() };
    assert(r@.bands =~= Seq::empty());
    r
}

/// Does a configuration silence?
pub open spec fn silences(c: ConfigView) -> bool {
    c.bands.len() == 0 && double::at_most(c.preamp_db, Double { bits: SAFE_PREAMP_LIMIT_DB })
}

/// Does a configuration silence?
pub fn is_safe_state(cfg: &ApoConfig) -> (r: bool)
    ensures
        r == silences(cfg@),
{
    cfg.bands.len() == 0 && cfg.preamp_db.le(Double { bits: SAFE_PREAMP_LIMIT_DB })
}

/// A filter in the engine's terms. A tilt is no filter of the engine: it is expanded before.
pub open spec fn band_of(f: Filter) -> Band {
    Band {
        kind: match f.kind {
            FilterType::Peaking => FilterKind::Peaking,
            FilterType::LowShelf => FilterKind::LowShelf,
            FilterType::HighShelf => FilterKind::HighShelf,
            _ => FilterKind::Bandpass,
        },
        freq_hz: f.freq_hz,
        gain_db: f.gain_db,
        q: f.q,
    }
}

/// A device's configuration in the engine's terms: every tilt is expanded into its two shelves.
pub open spec fn engine_config(preamp_db: Double, filters: Seq<Filter>) -> ConfigView {
    ConfigView {
        preamp_db,
        bands: backend::expanded(filters).map_values(|f: Filter| band_of(f)),
    }
}

fn to_band(f: &Filter) -> (r: Band)
    ensures
        r == band_of(*f),
{
    let kind: FilterKind = match f.kind {
        FilterType::Peaking => FilterKind::Peaking,
        FilterType::LowShelf => FilterKind::LowShelf,
        FilterType::HighShelf => FilterKind::HighShelf,
        _ => FilterKind::Bandpass,
    };
    Band { kind, freq_hz: f.freq_hz, gain_db: f.gain_db, q: f.q }
}

/// Translate a device's configuration into the engine's terms.
pub fn to_apo_config(cfg: &DeviceConfig) -> (r: ApoConfig)
    ensures
        r@ == engine_config(cfg.preamp_db, cfg.filters@),
{
    let filters: Vec<Filter> = backend::expand_tilts(cfg.filters.as_slice());
    let ghost want = engine_config(cfg.preamp_db, cfg.filters@).bands;
    let mut bands: Vec<Band> = Vec::new();
    let mut i: usize = 0;
    while i < filters.len()
        invariant
            i <= filters.len(),
            filters@ == backend::expanded(cfg.filters@),
            want == engine_config(cfg.preamp_db, cfg.filters@).bands,
            bands@ =~= want.take(i as int),
        decreases filters.len() - i,
    {
        bands.push(to_band(&filters[i]));
        i = i + 1;
    }
    assert(bands@ =~= want);
    ApoConfig { preamp_db: cfg.preamp_db, bands }
}

/// Does a line carry the content hash?
pub open spec fn is_hash_line(l: Seq<char>) -> bool {
    text::starts_with(text::trim_start(l), HASH_PREFIX@)
}

/// The lines that do not carry the content hash.
pub open spec fn other_lines(ls: Seq<Seq<char>>) -> Seq<Seq<char>>
    decreases ls.len(),
{
    if ls.len() == 0 {
        Seq::empty()
    } else if is_hash_line(ls.last()) {
        other_lines(ls.drop_last())
    } else {
        other_lines(ls.drop_last()).push(ls.last())
    }
}

/// A file's text without the hash marker: exactly what was hashed.
pub open spec fn stripped(s: Seq<char>) -> Seq<char> {
    text::join(other_lines(text::lines(s)), '\n') + seq!['\n']
}

/// Drop the hash marker.
pub fn strip_hash_line(s: &str) -> (r: String)
    ensures
        r@ == stripped(s@),
{
    let cs: Vec<char> = text::chars_of(s);
    let lines: Vec<&[char]> = text::split_lines(cs.as_slice());
    let ghost all = text::lines(s@);
    let mut out: String = String::new();
    let mut any: bool = false;
    let mut i: usize = 0;
    assert(all.take(0) =~= Seq::empty());
    while i < lines.len()
        invariant
            i <= lines.len(),
            all == text::lines(s@),
            text::texts(lines@) == all,
            any == (other_lines(all.take(i as int)).len() > 0),
            out@ == text::join(other_lines(all.take(i as int)), '\n'),
        decreases lines.len() - i,
    {
        let l: &[char] = lines[i];
        let ghost before = other_lines(all.take(i as int));
        let ghost text_before = out@;
        proof {
            assert(all[i as int] == l@);
            assert(all.take(i + 1).drop_last() =~= all.take(i as int));
            assert(all.take(i + 1).last() == l@);
        }
        if !text::begins_text(text::trimmed_start(l), HASH_PREFIX) {
            if any {
                out.push('\n');
            }
            text::push_chars(&mut out, l);
            proof {
                if before.len() > 0 {
                    text::lemma_join_push(before, l@, '\n');
                    assert(out@ =~= text_before + seq!['\n'] + l@);
                } else {
                    assert(before.push(l@) =~= seq![l@]);
                    assert(out@ =~= l@);
                }
            }
            any = true;
        }
        i = i + 1;
    }
    assert(all.take(all.len() as int) =~= all);
    out.push('\n');
    assert(out@ =~= stripped(s@));
    out
}

/// The text of a configuration file: the content hash of the body, then the body.
pub open spec fn file_text(c: ConfigView) -> Seq<char> {
    HASH_PREFIX@ + fingerprint::text_fingerprint(apo_config::rendered(c)) + seq!['\n']
        + apo_config::rendered(c)
}

/// What to write for an endpoint: its file's name and text.
pub fn write_config(id: &str, cfg: &ApoConfig) -> (r: (String, String))
    ensures
        r.0@ == endpoint::file_name(id@),
        r.1@ == file_text(cfg@),
{
    let body: String = apo_config::render(cfg);
    let hash: String = fingerprint::content_hash(body.as_str());
    let mut s: String = HASH_PREFIX.to_owned();
    s.append(hash.as_str());
    s.push('\n');
    s.append(body.as_str());
    assert(s@ =~= file_text(cfg@));
    (endpoint::config_file_name(id), s)
}

/// What applying one device's configuration comes to, before anything is pushed.
#[derive(Debug)]
pub struct Planned {
    /// The endpoint id in its one form.
    pub id: String,
    pub config: ApoConfig,
    /// The name of the file to write.
    pub file: String,
    /// Its text.
    pub text: String,
}

/// Plan one device's correction: refused where the device is no endpoint GUID.
pub fn plan(cfg: &DeviceConfig) -> (r: Result<Planned, ApoBackendError>)
    ensures
        match endpoint::normal_id(cfg.device@) {
            Some(id) => r matches Ok(p) && {
                &&& p.id@ == id
                &&& p.config@ == engine_config(cfg.preamp_db, cfg.filters@)
                &&& p.file@ == endpoint::file_name(id)
                &&& p.text@ == file_text(p.config@)
            },
            None => r matches Err(ApoBackendError::BadEndpointId(bad)) && bad@ == cfg.device@,
        },
{
    match endpoint::normalize_endpoint_id(cfg.device.as_str()) {
        Some(id) => {
            let config: ApoConfig = to_apo_config(cfg);
            let (file, text) = write_config(id.as_str(), &config);
            Ok(Planned { id, config, file, text })
        },
        None => Err(ApoBackendError::BadEndpointId(cfg.device.clone())),
    }
}

/// What happened when trying to push a correction down an endpoint's live control channel.
#[derive(Debug, Clone, Copy, PartialEq, Eq, Structural)]
pub enum PushOutcome {
    /// No stream is running on that endpoint; the configuration file is the whole job.
    NoChannel,
    /// A channel was open and the correction was accepted.
    Published,
    /// A channel was open, but the correction was refused. The previous one is still running.
    Refused,
}

/// What an apply reports, once its file is written and the push is over.
pub fn applied(id: &str, outcome: PushOutcome) -> (r: Result<(), ApoBackendError>)
    ensures
        match outcome {
            PushOutcome::Refused => r matches Err(ApoBackendError::LivePushRefused(e)) && e@ == id@,
            _ => r is Ok,
        },
{
    match outcome {
        PushOutcome::Refused => Err(ApoBackendError::LivePushRefused(id.to_owned())),
        _ => Ok(()),
    }
}

/// What is remembered of an endpoint's pushes.
pub struct SlotMemory {
    pub slots: Seq<Option<(u8, i64, i64)>>,
    pub was_isolate: bool,
    pub isolate_slot: Option<usize>,
}

/// What is remembered, before anything was pushed.
pub open spec fn nothing_remembered() -> SlotMemory {
    SlotMemory { slots: Seq::empty(), was_isolate: false, isolate_slot: None }
}

/// What a slot assignment remembers.
pub open spec fn memory_in(a: SlotAssignment) -> SlotMemory {
    SlotMemory { slots: a.slots@, was_isolate: a.was_isolate, isolate_slot: a.isolate_slot }
}

/// What the entries remember of an endpoint.
pub open spec fn recalled(entries: Seq<(String, SlotAssignment)>, id: Seq<char>) -> SlotMemory
    decreases entries.len(),
{
    if entries.len() == 0 {
        nothing_remembered()
    } else if entries[0].0@ == id {
        memory_in(entries[0].1)
    } else {
        recalled(entries.skip(1), id)
    }
}

/// The slots that a correction goes into.
pub open spec fn slots_for(m: SlotMemory, bands: Seq<Band>) -> Seq<Option<int>> {
    if slots::is_isolate(bands) {
        slots::assigned_isolate(m.slots, m.isolate_slot, bands[0])
    } else {
        slots::assigned(m.slots, bands)
    }
}

/// What is remembered once a correction has been pushed.
pub open spec fn remembering(m: SlotMemory, bands: Seq<Band>) -> SlotMemory {
    let out = slots_for(m, bands);
    SlotMemory {
        slots: slots::remembered(m.slots, bands, out),
        was_isolate: slots::is_isolate(bands),
        isolate_slot: if slots::is_isolate(bands) {
            Some((out.len() - 1) as usize)
        } else {
            None
        },
    }
}

/// Does a correction begin or end the isolate audition, or move it to another slot?
pub open spec fn crosses(m: SlotMemory, bands: Seq<Band>) -> bool {
    ||| slots::is_isolate(bands) != m.was_isolate
    ||| slots::is_isolate(bands) && remembering(m, bands).isolate_slot != m.isolate_slot
}

/// The live side of an endpoint.
#[derive(Debug, Clone, Copy, PartialEq, Eq, Structural)]
pub enum Live {
    /// Nothing plays there.
    NoChannel,
    /// A channel is open; with it the sample rate that the engine published, if it has.
    Open(Option<u32>),
}

/// A push that can go ahead.
#[derive(Debug)]
pub struct Push {
    /// The bands in their slots. A gap holds the identity filter.
    pub bands: Vec<Option<Band>>,
    /// The rate to compute coefficients for.
    pub rate: u32,
    /// Does it cross the wire as a crossfade rather than a plain ramp?
    pub crossfade: bool,
}

/// Applies corrections through this project's own effect.
#[derive(Debug)]
pub struct CageqApoBackend {
    config_dir: PathBuf,
    slots: Vec<(String, SlotAssignment)>,
}

impl CageqApoBackend {
    /// The directory that the corrections live in.
    pub closed spec fn dir(&self) -> PathBuf {
        self.config_dir
    }

    /// What is remembered of an endpoint's pushes.
    pub closed spec fn memory(&self, id: Seq<char>) -> SlotMemory {
        recalled(self.slots@, id)
    }

    /// Target a directory.
    pub fn new(config_dir: PathBuf) -> (r: CageqApoBackend)
        ensures
            r.dir() == config_dir,
            forall|id: Seq<char>| #[trigger] r.memory(id) == nothing_remembered(),
    {
        CageqApoBackend { config_dir, slots: Vec::new() }
    }

    pub fn config_dir(&self) -> (r: &PathBuf)
        ensures
            *r == self.dir(),
    {
        &self.config_dir
    }

    /// The first entry of an endpoint, made if there is none.
    fn entry(&mut self, id: &str) -> (r: usize)
        ensures
            r < final(self).slots@.len(),
            final(self).slots@[r as int].0@ == id@,
            forall|k: int| 0 <= k < r ==> #[trigger] final(self).slots@[k].0@ != id@,
            final(self).config_dir == old(self).config_dir,
            forall|x: Seq<char>|
                #![trigger recalled(final(self).slots@, x)]
                recalled(final(self).slots@, x) == recalled(old(self).slots@, x),
    {
        let want: Vec<char> = text::chars_of(id);
        let mut i: usize = 0;
        while i < self.slots.len()
            invariant
                i <= self.slots.len(),
                want@ == id@,
                *self == *old(self),
                forall|k: int| 0 <= k < i ==> #[trigger] self.slots@[k].0@ != id@,
            decreases self.slots.len() - i,
        {
            if text::is_text(want.as_slice(), self.slots[i].0.as_str()) {
                return i;
            }
            i = i + 1;
        }
        let fresh: (String, SlotAssignment) = (id.to_owned(), SlotAssignment::default());
        proof {
            assert(memory_in(fresh.1).slots =~= Seq::empty());
            assert forall|x: Seq<char>| recalled(self.slots@.push(fresh), x) == recalled(
                self.slots@,
                x,
            ) by {
                lemma_recall_fresh(self.slots@, fresh, x);
            }
        }
        self.slots.push(fresh);
        i
    }

    /// Begin pushing a correction down an endpoint's live control channel, if one is open: put its
    /// bands into slots, and decide how it crosses the wire.
    ///
    /// `allow_crossfade` is false for the safe state alone: it has no bands, and a crossfade to no
    /// bands would do nothing to the running audio, exactly when it most needs to land.
    pub fn push_live(&mut self, id: &str, cfg: &ApoConfig, live: Live, allow_crossfade: bool) -> (r:
        Result<Option<Push>, ApoBackendError>)
        ensures
            final(self).dir() == old(self).dir(),
            forall|x: Seq<char>|
                x != id@ ==> #[trigger] final(self).memory(x) == old(self).memory(x),
            match live {
                Live::NoChannel => r matches Ok(p) && p is None && final(self).memory(id@) == old(
                    self,
                ).memory(id@),
                Live::Open(None) => r matches Err(ApoBackendError::NoSampleRate(e)) && e@ == id@
                    && final(self).memory(id@) == old(self).memory(id@),
                Live::Open(Some(rate)) => r matches Ok(Some(p)) && {
                    let m = old(self).memory(id@);
                    &&& p.bands@ == slots::bands_in(cfg.bands@, slots_for(m, cfg.bands@))
                    &&& p.rate == rate
                    &&& p.crossfade == (allow_crossfade && crosses(m, cfg.bands@))
                    &&& final(self).memory(id@) == remembering(m, cfg.bands@)
                },
            },
    {
        let rate: u32 = match live {
            Live::NoChannel => {
                return Ok(None);
            },
            Live::Open(None) => {
                return Err(ApoBackendError::NoSampleRate(id.to_owned()));
            },
            Live::Open(Some(rate)) => rate,
        };
        let i: usize = self.entry(id);
        let ghost entries = self.slots@;
        let isolate: bool = slots::is_isolate_audition(cfg.bands.as_slice());
        let was_isolate: bool = self.slots[i].1.was_isolate;
        let before: Option<usize> = self.slots[i].1.isolate_slot;
        proof {
            lemma_recall(entries, i as int, id@);
        }
        let bands: Vec<Option<Band>> = self.slots[i].1.assign(cfg.bands.as_slice());
        let after: Option<usize> = self.slots[i].1.isolate_slot;
        let changed: bool = match (before, after) {
            (None, None) => false,
            (Some(a), Some(b)) => a != b,
            _ => true,
        };
        self.slots[i].1.was_isolate = isolate;
        proof {
            assert forall|x: Seq<char>| x != id@ implies #[trigger] self.memory(x) == old(
                self,
            ).memory(x) by {
                lemma_recall_other(entries, self.slots@, i as int, x);
                assert(recalled(entries, x) == recalled(old(self).slots@, x));
            }
            lemma_recall(self.slots@, i as int, id@);
        }
        let crossfade: bool = allow_crossfade && slots::isolate_boundary_crossed(
            was_isolate,
            isolate,
            changed,
        );
        Ok(Some(Push { bands, rate, crossfade }))
    }

    /// Begin pushing the safe state down an endpoint's live control channel, if one is open. It carries
    /// no bands, and never crosses the wire as a crossfade, whatever was pushed before.
    pub fn push_safe_state(&mut self, id: &str, live: Live) -> (r: Result<
        Option<Push>,
        ApoBackendError,
    >)
        ensures
            final(self).dir() == old(self).dir(),
            forall|x: Seq<char>|
                x != id@ ==> #[trigger] final(self).memory(x) == old(self).memory(x),
            match live {
                Live::NoChannel => r matches Ok(p) && p is None && final(self).memory(id@) == old(
                    self,
                ).memory(id@),
                Live::Open(None) => r matches Err(ApoBackendError::NoSampleRate(e)) && e@ == id@
                    && final(self).memory(id@) == old(self).memory(id@),
                Live::Open(Some(rate)) => r matches Ok(Some(p)) && {
                    &&& p.bands@.len() == 0
                    &&& p.rate == rate
                    &&& !p.crossfade
                    &&& final(self).memory(id@) == nothing_remembered()
                },
            },
    {
        let safe: ApoConfig = safe_state();
        proof {
            let m = self.memory(id@);
            slots::law_last_slot_is_live(m.slots, safe.bands@);
            assert(safe@.bands =~= safe.bands@);
            assert(remembering(m, safe.bands@).slots =~= Seq::empty());
        }
        self.push_live(id, &safe, live, false)
    }

    /// What this backend can do: there is no reload to wait for, transitions are the engine's own, and
    /// nothing else writes these files.
    pub fn capabilities(&self) -> (r: Capabilities)
        ensures
            r.min_write_spacing_ms == 0,
            r.owns_transitions,
            !r.manages_foreign_config,
    {
        Capabilities {
            min_write_spacing_ms: 0,
            owns_transitions: true,
            manages_foreign_config: false,
        }
    }
}

proof fn lemma_recall_fresh(
    entries: Seq<(String, SlotAssignment)>,
    fresh: (String, SlotAssignment),
    x: Seq<char>,
)
    requires
        memory_in(fresh.1) == nothing_remembered(),
    ensures
        recalled(entries.push(fresh), x) == recalled(entries, x),
    decreases entries.len(),
{
    if entries.len() > 0 {
        assert(entries.push(fresh).skip(1) =~= entries.skip(1).push(fresh));
        lemma_recall_fresh(entries.skip(1), fresh, x);
    } else {
        assert(entries.push(fresh).skip(1) =~= entries);
    }
}

/// What is remembered of an endpoint is in its first entry.
proof fn lemma_recall(entries: Seq<(String, SlotAssignment)>, i: int, id: Seq<char>)
    requires
        0 <= i < entries.len(),
        entries[i].0@ == id,
        forall|k: int| 0 <= k < i ==> #[trigger] entries[k].0@ != id,
    ensures
        recalled(entries, id) == memory_in(entries[i].1),
    decreases i,
{
    if i > 0 {
        assert(entries[0].0@ != id);
        let rest = entries.skip(1);
        assert forall|k: int| 0 <= k < i - 1 implies #[trigger] rest[k].0@ != id by {
            assert(entries[k + 1].0@ != id);
        }
        lemma_recall(rest, i - 1, id);
    }
}

/// Changing one endpoint's entry leaves the others as they were.
proof fn lemma_recall_other(
    a: Seq<(String, SlotAssignment)>,
    b: Seq<(String, SlotAssignment)>,
    i: int,
    x: Seq<char>,
)
    requires
        0 <= i < a.len(),
        a.len() == b.len(),
        a[i].0@ != x,
        a[i].0@ == b[i].0@,
        forall|k: int| 0 <= k < a.len() && k != i ==> #[trigger] a[k] == b[k],
    ensures
        recalled(b, x) == recalled(a, x),
    decreases a.len(),
{
    assert(i != 0 ==> a[0] == b[0]);
    if a[0].0@ != x {
        if i == 0 {
            assert(a.skip(1) =~= b.skip(1));
        } else {
            assert forall|k: int| 0 <= k < a.skip(1).len() && k != i - 1 implies #[trigger] a.skip(
                1,
            )[k] == b.skip(1)[k] by {
                assert(a[k + 1] == b[k + 1]);
            }
            lemma_recall_other(a.skip(1), b.skip(1), i - 1, x);
        }
    }
}

/// The coefficients of each slot: those computed for its band, or the identity filter in a gap.
pub open spec fn filled(coeffs: Seq<Option<RawCoeffs>>) -> Seq<RawCoeffs> {
    coeffs.map_values(
        |c: Option<RawCoeffs>|
            match c {
                Some(c) => c,
                None => RawCoeffs {
                    b0: Double { bits: double::ONE },
                    b1: double::zero(),
                    b2: double::zero(),
                    a1: double::zero(),
                    a2: double::zero(),
                },
            },
    )
}

/// Publish a push into the control block, with the coefficients computed for its bands: none where a
/// slot is a gap.
pub fn publish_push(
    block: &mut ControlBlock,
    preamp_db: Double,
    coeffs: &Vec<Option<RawCoeffs>>,
    crossfade: bool,
) -> (r: PushOutcome)
    ensures
        r == (if control::publishable(preamp_db, filled(coeffs@)) {
            PushOutcome::Published
        } else {
            PushOutcome::Refused
        }),
        r == PushOutcome::Refused ==> *final(block) == *old(block),
        r == PushOutcome::Published ==> {
            &&& final(block).magic == control::CONTROL_MAGIC
            &&& final(block).version == control::CONTROL_VERSION
            &&& final(block).seq == control::next_seq(control::next_seq(old(block).seq))
            &&& control::payload(final(block)) == control::payload_of(
                preamp_db,
                filled(coeffs@),
                crossfade,
            )
            &&& control::same_outbound(final(block), old(block))
        },
{
    let mut all: Vec<RawCoeffs> = Vec::new();
    let zero: Double = Double { bits: 0 };
    let identity: RawCoeffs = RawCoeffs {
        b0: Double { bits: double::ONE },
        b1: zero,
        b2: zero,
        a1: zero,
        a2: zero,
    };
    let mut i: usize = 0;
    while i < coeffs.len()
        invariant
            i <= coeffs.len(),
            identity == (RawCoeffs {
                b0: Double { bits: double::ONE },
                b1: double::zero(),
                b2: double::zero(),
                a1: double::zero(),
                a2: double::zero(),
            }),
            all@ =~= filled(coeffs@).take(i as int),
        decreases coeffs.len() - i,
    {
        all.push(
            match coeffs[i] {
                Some(c) => c,
                None => identity,
            },
        );
        i = i + 1;
    }
    assert(all@ =~= filled(coeffs@));
    if control::publish(block, preamp_db, all.as_slice(), crossfade) {
        PushOutcome::Published
    } else {
        PushOutcome::Refused
    }
}

} // verus!
