//! What the desktop application decides for itself: where things live, what runs the signal
//! processing, what its settings are, and what it shows of its state.
use crate::backend::{Filter, StartupDecision};
use crate::double;
use crate::double::Double;
use crate::setup;
use crate::text;
use vstd::prelude::*;

verus! {

/// The pattern of -9: the base pre-gain of a clean install, in dB.
pub const DEFAULT_BASE_PREGAIN_DB: u64 = 0xc022_0000_0000_0000;

/// The pattern of -40: the lowest base pre-gain, in dB.
pub const MIN_BASE_PREGAIN_DB: u64 = 0xc044_0000_0000_0000;

/// How the level is chosen.
#[derive(Clone, Copy, PartialEq, Eq, Structural, Debug)]
pub enum LoudnessMode {
    /// Loudness-matched, for comparing.
    Comparison,
    /// As loud as it can be without clipping.
    FinalVolume,
}

/// The loudness settings.
#[derive(Clone, Copy, PartialEq, Eq, Structural, Debug)]
pub struct LoudnessSettings {
    pub base_pregain_db: Double,
    pub mode: LoudnessMode,
}

impl Default for LoudnessSettings {
    fn default() -> (r: LoudnessSettings)
        ensures
            r.base_pregain_db == (Double { bits: DEFAULT_BASE_PREGAIN_DB }),
            r.mode == LoudnessMode::Comparison,
    {
        LoudnessSettings {
            base_pregain_db: Double { bits: DEFAULT_BASE_PREGAIN_DB },
            mode: LoudnessMode::Comparison,
        }
    }
}

/// A base pre-gain that may be used: attenuation only, since a boost must never be allowed. The
/// default where it is not finite.
pub open spec fn allowed_pregain(db: Double) -> Double {
    if !double::is_finite(db) {
        Double { bits: DEFAULT_BASE_PREGAIN_DB }
    } else if double::less(db, Double { bits: MIN_BASE_PREGAIN_DB }) {
        Double { bits: MIN_BASE_PREGAIN_DB }
    } else if double::less(double::zero(), db) {
        double::zero()
    } else {
        db
    }
}

/// The settings that a request for new ones comes to.
pub fn set_loudness(settings: LoudnessSettings) -> (r: LoudnessSettings)
    ensures
        r.base_pregain_db == allowed_pregain(settings.base_pregain_db),
        r.mode == settings.mode,
{
    let db: Double = settings.base_pregain_db;
    let least: Double = Double { bits: MIN_BASE_PREGAIN_DB };
    let zero: Double = Double { bits: 0 };
    let base: Double = if !db.is_finite() {
        Double { bits: DEFAULT_BASE_PREGAIN_DB }
    } else if db.lt(least) {
        least
    } else if zero.lt(db) {
        zero
    } else {
        db
    };
    LoudnessSettings { base_pregain_db: base, mode: settings.mode }
}

/// No request makes the base pre-gain a boost, and none takes it below its limit.
pub proof fn law_pregain_never_boosts(db: Double)
    ensures
        double::at_most(allowed_pregain(db), double::zero()),
        double::at_most(Double { bits: MIN_BASE_PREGAIN_DB }, allowed_pregain(db)),
{
    let least = Double { bits: MIN_BASE_PREGAIN_DB };
    let usual = Double { bits: DEFAULT_BASE_PREGAIN_DB };
    assert(double::unsigned(least) == 0x4044_0000_0000_0000);
    assert(double::unsigned(usual) == 0x4022_0000_0000_0000);
    assert(double::unsigned(double::zero()) == 0);
    double::lemma_ordered(0, 0x4022_0000_0000_0000);
    double::lemma_ordered(0x4022_0000_0000_0000, 0x4044_0000_0000_0000);
    double::lemma_zero();
}

/// The last-applied headphone and target, by their catalogue paths.
#[derive(Debug, Clone, PartialEq, Eq)]
pub struct Selection {
    pub headphone: Option<String>,
    pub target: Option<String>,
}

/// The persisted settings. What the user interface owns is kept as the text it came as.
#[derive(Debug, Clone, PartialEq, Eq)]
pub struct AppSettings {
    pub loudness: LoudnessSettings,
    pub selection: Selection,
    /// Content hash of what was last written.
    pub last_hash: Option<String>,
    /// Confirm before switching to full volume?
    pub confirm_final_volume: bool,
    /// The last editable session.
    pub resume: Option<String>,
    /// The saved presets and templates.
    pub library: Option<String>,
}

impl Default for AppSettings {
    /// The settings of a clean install: nothing chosen, and the confirmation on.
    fn default() -> (r: AppSettings)
        ensures
            r.loudness.base_pregain_db == (Double { bits: DEFAULT_BASE_PREGAIN_DB }),
            r.loudness.mode == LoudnessMode::Comparison,
            r.selection.headphone is None,
            r.selection.target is None,
            r.last_hash is None,
            r.confirm_final_volume,
            r.resume is None,
            r.library is None,
    {
        AppSettings {
            loudness: LoudnessSettings::default(),
            selection: Selection { headphone: None, target: None },
            last_hash: None,
            confirm_final_volume: true,
            resume: None,
            library: None,
        }
    }
}

/// The settings to go by: those that were read, or the defaults where there are none or they make no
/// sense. A bad settings file must never stop the application from starting.
pub fn load_settings_from(read: Option<AppSettings>) -> (r: AppSettings)
    ensures
        match read {
            Some(s) => r == s,
            None => {
                &&& r.loudness.base_pregain_db == (Double { bits: DEFAULT_BASE_PREGAIN_DB })
                &&& r.loudness.mode == LoudnessMode::Comparison
                &&& r.selection.headphone is None
                &&& r.selection.target is None
                &&& r.last_hash is None
                &&& r.confirm_final_volume
                &&& r.resume is None
                &&& r.library is None
            },
        },
{
    match read {
        Some(s) => s,
        None => AppSettings::default(),
    }
}

/// One thing to persist.
#[derive(Debug, Clone)]
pub enum SettingsEdit {
    Loudness(LoudnessSettings),
    Selection(Selection),
    LastHash(String),
    ConfirmFinalVolume(bool),
    Resume(String),
    Library(String),
}

/// Settings with one thing changed and everything else as it was.
pub open spec fn edited(s: AppSettings, edit: SettingsEdit) -> AppSettings {
    match edit {
        SettingsEdit::Loudness(l) => AppSettings { loudness: l, ..s },
        SettingsEdit::Selection(c) => AppSettings { selection: c, ..s },
        SettingsEdit::LastHash(h) => AppSettings { last_hash: Some(h), ..s },
        SettingsEdit::ConfirmFinalVolume(on) => AppSettings { confirm_final_volume: on, ..s },
        SettingsEdit::Resume(r) => AppSettings { resume: Some(r), ..s },
        SettingsEdit::Library(l) => AppSettings { library: Some(l), ..s },
    }
}

/// Change one thing in the settings, leaving the rest as it is.
pub fn update_settings(settings: &mut AppSettings, edit: SettingsEdit)
    ensures
        *final(settings) == edited(*old(settings), edit),
{
    match edit {
        SettingsEdit::Loudness(l) => {
            settings.loudness = l;
        },
        SettingsEdit::Selection(c) => {
            settings.selection = c;
        },
        SettingsEdit::LastHash(h) => {
            settings.last_hash = Some(h);
        },
        SettingsEdit::ConfirmFinalVolume(on) => {
            settings.confirm_final_volume = on;
        },
        SettingsEdit::Resume(r) => {
            settings.resume = Some(r);
        },
        SettingsEdit::Library(l) => {
            settings.library = Some(l);
        },
    }
}

/// Edits of different things do not disturb one another: a change of loudness never wipes the
/// selection, whichever comes first.
pub proof fn law_edits_do_not_disturb_one_another(
    s: AppSettings,
    loudness: LoudnessSettings,
    selection: Selection,
)
    ensures
        ({
            let a = SettingsEdit::Loudness(loudness);
            let b = SettingsEdit::Selection(selection);
            &&& edited(edited(s, a), b) == edited(edited(s, b), a)
            &&& edited(edited(s, b), a).selection == selection
            &&& edited(edited(s, a), b).loudness == loudness
        }),
{
}

/// Two path components after a first one.
fn under(first: String, second: &str, third: &str) -> (r: Vec<String>)
    ensures
        setup::texts(r@) == seq![first@, second@, third@],
{
    let ghost a = first@;
    let mut r: Vec<String> = Vec::new();
    r.push(first);
    r.push(second.to_owned());
    r.push(third.to_owned());
    assert(setup::texts(r@) =~= seq![a, second@, third@]);
    r
}

/// One path component after a first one, or none.
fn alone(first: String) -> (r: Vec<String>)
    ensures
        setup::texts(r@) == seq![first@],
{
    let ghost a = first@;
    let mut r: Vec<String> = Vec::new();
    r.push(first);
    assert(setup::texts(r@) =~= seq![a]);
    r
}

fn beneath(first: String, second: &str) -> (r: Vec<String>)
    ensures
        setup::texts(r@) == seq![first@, second@],
{
    let ghost a = first@;
    let mut r: Vec<String> = Vec::new();
    r.push(first);
    r.push(second.to_owned());
    assert(setup::texts(r@) =~= seq![a, second@]);
    r
}

/// Where the settings live, as the components of a path.
pub open spec fn settings_place(
    overriding: Option<String>,
    app_data: Option<String>,
    temp: String,
) -> Seq<Seq<char>> {
    match overriding {
        Some(p) => seq![p@],
        None => seq![
            match app_data {
                Some(d) => d@,
                None => temp@,
            },
            "CAGEq"@,
            "settings.json"@,
        ],
    }
}

/// Where downloaded data is cached, as the components of a path.
pub open spec fn cache_place(
    overriding: Option<String>,
    local: Option<String>,
    temp: String,
) -> Seq<Seq<char>> {
    match (overriding, local) {
        (Some(p), _) => seq![p@],
        (None, Some(d)) => seq![d@, "CAGEq"@, "cache"@],
        (None, None) => seq![temp@, "cageq-cache"@],
    }
}

/// Where the managed configuration is written, as the components of a path.
pub open spec fn config_place(
    overriding: Option<String>,
    detected: Option<String>,
    temp: String,
) -> Seq<Seq<char>> {
    match (overriding, detected) {
        (Some(p), _) => seq![p@],
        (None, Some(d)) => seq![d@],
        (None, None) => seq![temp@, "cageq-dev-config"@],
    }
}

/// An explicit override is the whole path, for the settings, the cache and the configuration alike.
/// Without one each lies under what the machine has for it, and never under the temporary directory
/// where the machine has anything; and under the temporary directory each has a place of its own.
pub proof fn law_each_thing_has_its_place(
    overriding: Option<String>,
    found: Option<String>,
    temp: String,
)
    ensures
        ({
            let a = settings_place(overriding, found, temp);
            let b = cache_place(overriding, found, temp);
            let c = config_place(overriding, found, temp);
            &&& overriding matches Some(p) ==> a == seq![p@] && b == seq![p@] && c == seq![p@]
            &&& overriding is None ==> {
                &&& found matches Some(d) ==> a[0] == d@ && b[0] == d@ && c[0] == d@
                &&& found is None ==> a[0] == temp@ && b[0] == temp@ && c[0] == temp@
                &&& a.last() == "settings.json"@ && a.len() == 3
                &&& a[1] == "CAGEq"@
                &&& found is Some ==> b.last() == "cache"@ && b[1] == "CAGEq"@ && b.len() == 3
                    && c.len() == 1
                &&& found is None ==> b.last() == "cageq-cache"@ && c.last() == "cageq-dev-config"@
                    && b.len() == 2 && c.len() == 2
            }
        }),
{
}

/// Where the settings live, as the components of a path: an explicit override, or a file under the
/// user's application data, or under the temporary directory where there is none.
pub fn settings_path(overriding: Option<String>, app_data: Option<String>, temp: String) -> (r: Vec<
    String,
>)
    ensures
        setup::texts(r@) == settings_place(overriding, app_data, temp),
        setup::texts(r@) == (match (overriding, app_data) {
            (Some(p), _) => seq![p@],
            (None, Some(d)) => seq![d@, "CAGEq"@, "settings.json"@],
            (None, None) => seq![temp@, "CAGEq"@, "settings.json"@],
        }),
{
    match overriding {
        Some(p) => alone(p),
        None => match app_data {
            Some(d) => under(d, "CAGEq", "settings.json"),
            None => under(temp, "CAGEq", "settings.json"),
        },
    }
}

/// Where downloaded data is cached, as the components of a path: an explicit override, or under the
/// user's local application data, or under the temporary directory where there is none.
pub fn resolve_cache_dir(overriding: Option<String>, local: Option<String>, temp: String) -> (r: Vec<
    String,
>)
    ensures
        setup::texts(r@) == cache_place(overriding, local, temp),
        setup::texts(r@) == (match (overriding, local) {
            (Some(p), _) => seq![p@],
            (None, Some(d)) => seq![d@, "CAGEq"@, "cache"@],
            (None, None) => seq![temp@, "cageq-cache"@],
        }),
{
    match overriding {
        Some(p) => alone(p),
        None => match local {
            Some(d) => under(d, "CAGEq", "cache"),
            None => beneath(temp, "cageq-cache"),
        },
    }
}

/// Where the managed configuration is written, as the components of a path, and how that was found: an
/// explicit override, or the detected configuration directory, or a temporary one so that the
/// application still runs.
pub fn resolve_config_dir(overriding: Option<String>, detected: Option<String>, temp: String) -> (r: (
    Vec<String>,
    String,
))
    ensures
        setup::texts(r.0@) == config_place(overriding, detected, temp),
        match (overriding, detected) {
            (Some(p), _) => setup::texts(r.0@) == seq![p@] && r.1@
                == "override (CAGEQ_CONFIG_DIR)"@,
            (None, Some(d)) => setup::texts(r.0@) == seq![d@] && r.1@ == "Equalizer APO — "@ + d@,
            (None, None) => setup::texts(r.0@) == seq![temp@, "cageq-dev-config"@] && r.1@
                == "dev temp (Equalizer APO not detected)"@,
        },
{
    match overriding {
        Some(p) => (alone(p), "override (CAGEQ_CONFIG_DIR)".to_owned()),
        None => match detected {
            Some(d) => {
                let mut label: String = "Equalizer APO — ".to_owned();
                label.append(d.as_str());
                (alone(d), label)
            },
            None => (
                beneath(temp, "cageq-dev-config"),
                "dev temp (Equalizer APO not detected)".to_owned(),
            ),
        },
    }
}

/// How to launch the signal processing.
#[derive(Debug, Clone, PartialEq, Eq)]
pub enum SidecarSource {
    /// The self-contained executable of a release build.
    Frozen(String),
    /// An interpreter and a script.
    Python { python: String, script: String },
}

/// What there is to launch.
#[derive(Debug)]
pub struct SidecarPlaces {
    /// An interpreter asked for explicitly.
    pub python_override: Option<String>,
    /// A script asked for explicitly.
    pub script_override: Option<String>,
    /// The interpreter found on the machine.
    pub python: String,
    /// The interpreter of the development environment.
    pub venv: String,
    /// The real script.
    pub script: String,
    /// Are both of those there?
    pub dev_ready: bool,
    /// The bundled executable, where it is there.
    pub bundled: Option<String>,
    /// The stand-in script that needs nothing.
    pub stub: String,
    /// Is this a development build?
    pub dev_build: bool,
}

/// The source that a choice is.
pub enum SidecarChoice {
    Override { python: Seq<char>, script: Seq<char> },
    Bundled(Seq<char>),
    Dev { python: Seq<char>, script: Seq<char> },
    Stub { python: Seq<char>, script: Seq<char> },
}

/// What is launched: an explicit override first. In a development build the live script wins over the
/// bundle, which would hide every edit to it; in a release build the bundle wins. Failing all, the
/// stand-in.
pub open spec fn chosen(p: SidecarPlaces) -> SidecarChoice {
    let dev = SidecarChoice::Dev { python: p.venv@, script: p.script@ };
    if p.python_override is Some || p.script_override is Some {
        SidecarChoice::Override {
            python: match p.python_override {
                Some(s) => s@,
                None => p.python@,
            },
            script: match p.script_override {
                Some(s) => s@,
                None => p.script@,
            },
        }
    } else if p.dev_build && p.dev_ready {
        dev
    } else {
        match p.bundled {
            Some(exe) => SidecarChoice::Bundled(exe@),
            None => if p.dev_ready {
                dev
            } else {
                SidecarChoice::Stub { python: p.python@, script: p.stub@ }
            },
        }
    }
}

/// Does a source with its label stand for a choice?
pub open spec fn launches(source: SidecarSource, label: Seq<char>, c: SidecarChoice) -> bool {
    match c {
        SidecarChoice::Override { python, script } => (source matches SidecarSource::Python {
            python: p,
            script: s,
        } && p@ == python && s@ == script) && label == "AutoEq DSP, override ("@ + python + ")"@,
        SidecarChoice::Bundled(exe) => (source matches SidecarSource::Frozen(p) && p@ == exe)
            && label == "AutoEq DSP, bundled ("@ + exe + ")"@,
        SidecarChoice::Dev { python, script } => (source matches SidecarSource::Python {
            python: p,
            script: s,
        } && p@ == python && s@ == script) && label == "AutoEq DSP, dev venv ("@ + python + ")"@,
        SidecarChoice::Stub { python, script } => (source matches SidecarSource::Python {
            python: p,
            script: s,
        } && p@ == python && s@ == script) && label == "stub ("@ + script + ")"@,
    }
}

fn label_of(head: &str, path: &str) -> (r: String)
    ensures
        r@ == head@ + path@ + ")"@,
{
    let mut s: String = head.to_owned();
    s.append(path);
    s.append(")");
    s
}

/// How to launch the signal processing, and a label to show for it.
pub fn resolve_sidecar(p: SidecarPlaces) -> (r: (SidecarSource, String))
    ensures
        launches(r.0, r.1@, chosen(p)),
{
    if p.python_override.is_some() || p.script_override.is_some() {
        let python: String = match p.python_override {
            Some(s) => s,
            None => p.python,
        };
        let script: String = match p.script_override {
            Some(s) => s,
            None => p.script,
        };
        let label: String = label_of("AutoEq DSP, override (", python.as_str());
        return (SidecarSource::Python { python, script }, label);
    }
    if p.dev_build && p.dev_ready {
        let label: String = label_of("AutoEq DSP, dev venv (", p.venv.as_str());
        return (SidecarSource::Python { python: p.venv, script: p.script }, label);
    }
    match p.bundled {
        Some(exe) => {
            let label: String = label_of("AutoEq DSP, bundled (", exe.as_str());
            (SidecarSource::Frozen(exe), label)
        },
        None => {
            if p.dev_ready {
                let label: String = label_of("AutoEq DSP, dev venv (", p.venv.as_str());
                (SidecarSource::Python { python: p.venv, script: p.script }, label)
            } else {
                let label: String = label_of("stub (", p.stub.as_str());
                (SidecarSource::Python { python: p.python, script: p.stub }, label)
            }
        },
    }
}

/// The interpreter to fall back on: the one that the launcher names, where it ran and named one, or
/// the plain command.
pub fn resolve_python(printed: Option<&str>) -> (r: String)
    ensures
        r@ == (match printed {
            Some(s) if text::trim(s@).len() > 0 => text::trim(s@),
            _ => "python"@,
        }),
{
    match printed {
        Some(s) => {
            let cs: Vec<char> = text::chars_of(s);
            let t: &[char] = text::trimmed(cs.as_slice());
            if t.len() > 0 {
                return text::string_of(t);
            }
        },
        None => {},
    }
    "python".to_owned()
}

/// Text with its ASCII letters in upper case, as a test of likeness.
pub open spec fn likes(whole: Seq<char>, part: Seq<char>) -> bool {
    text::contains(text::uppered(whole), text::uppered(part))
}

/// Which page of the system's sound settings to open: the properties of the default output where the
/// selected device is that one, or none is selected; otherwise the list of devices.
pub fn open_output_settings(device: Option<&str>, default_id: Option<&str>) -> (r: &'static str)
    ensures
        r@ == (if match device {
            None => true,
            Some(id) => match default_id {
                Some(d) => likes(d@, id@),
                None => false,
            },
        } {
            "ms-settings:sound-defaultoutputproperties"@
        } else {
            "ms-settings:sound-devices"@
        }),
{
    let is_default: bool = match device {
        None => true,
        Some(id) => match default_id {
            Some(d) => {
                let dc: Vec<char> = text::chars_of(d);
                let ic: Vec<char> = text::chars_of(id);
                let du: Vec<char> = text::to_upper(dc.as_slice());
                let iu: Vec<char> = text::to_upper(ic.as_slice());
                text::holds_text(du.as_slice(), iu.as_slice())
            },
            None => false,
        },
    };
    if is_default {
        "ms-settings:sound-defaultoutputproperties"
    } else {
        "ms-settings:sound-devices"
    }
}

/// The health of the signal processing.
#[derive(Clone, Copy, PartialEq, Eq, Structural, Debug)]
pub enum Health {
    Running,
    Recovering,
    Terminal,
}

/// The health in one word.
pub open spec fn health_word(h: Health) -> Seq<char> {
    match h {
        Health::Running => "Running"@,
        Health::Recovering => "Recovering"@,
        Health::Terminal => "Terminal"@,
    }
}

/// The health in one word.
pub fn health_kind(h: Health) -> (r: &'static str)
    ensures
        r@ == health_word(h),
{
    match h {
        Health::Running => "Running",
        Health::Recovering => "Recovering",
        Health::Terminal => "Terminal",
    }
}

/// The startup verdict in one word.
pub open spec fn verdict_word(d: StartupDecision) -> Seq<char> {
    match d {
        StartupDecision::FirstRun => "FirstRun"@,
        StartupDecision::ResumeTrusted => "ResumeTrusted"@,
        StartupDecision::SafeStateStillActive => "SafeStateStillActive"@,
        StartupDecision::ExternallyModified => "ExternallyModified"@,
    }
}

/// What the running backend says of itself.
#[derive(Debug)]
pub struct Ready {
    pub startup: StartupDecision,
    pub health: Health,
    /// The health in detail, as text.
    pub health_detail: String,
    pub recoveries: u32,
    pub config_dir: String,
    pub config_source: String,
    pub sidecar: String,
}

/// The state shown to the user.
#[derive(Debug, Clone, PartialEq, Eq)]
pub struct Status {
    pub startup: String,
    pub health: String,
    pub health_kind: String,
    pub recoveries: u32,
    pub config_dir: String,
    pub config_source: String,
    pub sidecar: String,
}

/// The state to show: of the running backend, or why there is none.
pub fn status(state: Result<Ready, String>) -> (r: Status)
    ensures
        match state {
            Ok(b) => {
                &&& r.startup@ == verdict_word(b.startup)
                &&& r.health@ == b.health_detail@
                &&& r.health_kind@ == health_word(b.health)
                &&& r.recoveries == b.recoveries
                &&& r.config_dir@ == b.config_dir@
                &&& r.config_source@ == b.config_source@
                &&& r.sidecar@ == b.sidecar@
            },
            Err(e) => {
                &&& r.startup@ == "init failed: "@ + e@
                &&& r.health@ == "-"@
                &&& r.health_kind@ == "-"@
                &&& r.recoveries == 0
                &&& r.config_dir@ == "-"@
                &&& r.config_source@ == "-"@
                &&& r.sidecar@ == "-"@
            },
        },
{
    match state {
        Ok(b) => {
            let startup: String = match b.startup {
                StartupDecision::FirstRun => "FirstRun".to_owned(),
                StartupDecision::ResumeTrusted => "ResumeTrusted".to_owned(),
                StartupDecision::SafeStateStillActive => "SafeStateStillActive".to_owned(),
                StartupDecision::ExternallyModified => "ExternallyModified".to_owned(),
            };
            let kind: &'static str = health_kind(b.health);
            Status {
                startup,
                health: b.health_detail,
                health_kind: kind.to_owned(),
                recoveries: b.recoveries,
                config_dir: b.config_dir,
                config_source: b.config_source,
                sidecar: b.sidecar,
            }
        },
        Err(e) => {
            let mut startup: String = "init failed: ".to_owned();
            startup.append(e.as_str());
            Status {
                startup,
                health: "-".to_owned(),
                health_kind: "-".to_owned(),
                recoveries: 0,
                config_dir: "-".to_owned(),
                config_source: "-".to_owned(),
                sidecar: "-".to_owned(),
            }
        },
    }
}

/// What a fit is asked for with: the headphone, and the target where there is one.
pub fn fit_inputs(headphone: &str, target: Option<&str>) -> (r: Vec<(String, String)>)
    ensures
        match target {
            Some(t) => r.len() == 2 && r[0].0@ == "headphone"@ && r[0].1@ == headphone@ && r[1].0@
                == "target"@ && r[1].1@ == t@,
            None => r.len() == 1 && r[0].0@ == "headphone"@ && r[0].1@ == headphone@,
        },
{
    let mut r: Vec<(String, String)> = Vec::new();
    r.push(("headphone".to_owned(), headphone.to_owned()));
    match target {
        Some(t) => {
            r.push(("target".to_owned(), t.to_owned()));
        },
        None => {},
    }
    r
}

/// The keys of a fit's request: the headphone always, the target where there is one, and the manual
/// filters where there are any.
pub open spec fn keys_of(has_target: bool, has_filters: bool) -> Seq<Seq<char>> {
    seq!["headphone"@] + (if has_target {
        seq!["target"@]
    } else {
        Seq::empty()
    }) + if has_filters {
        seq!["custom_filters"@]
    } else {
        Seq::empty()
    }
}

/// The keys that a fit's request holds: those of `fit_inputs`, and one more for the manual filters,
/// which are sent only where there are any.
pub fn request_keys(target: Option<&str>, custom_filters: &Vec<Filter>) -> (r: Vec<String>)
    ensures
        setup::texts(r@) == keys_of(target is Some, custom_filters@.len() > 0),
{
    let mut r: Vec<String> = Vec::new();
    r.push("headphone".to_owned());
    if target.is_some() {
        r.push("target".to_owned());
    }
    if custom_filters.len() > 0 {
        r.push("custom_filters".to_owned());
    }
    assert(setup::texts(r@) =~= keys_of(target is Some, custom_filters@.len() > 0));
    r
}

/// How patient the watchdog is, in milliseconds. Lenient: the signal processing takes seconds to start
/// and a second or two for each fit, so short deadlines would trip on nothing.
#[derive(Debug)]
pub struct WatchdogConfig {
    pub idle_interval_ms: u64,
    pub idle_response_ms: u64,
    pub busy_response_ms: u64,
    pub tick_ms: u64,
    pub restart_backoffs_ms: Vec<u64>,
}

/// The deadline for building the catalogue, which waits on the network, in milliseconds.
pub const CATALOGUE_BUSY_RESPONSE_MS: u64 = 120_000;

pub fn watchdog_cfg() -> (r: WatchdogConfig)
    ensures
        r.idle_interval_ms == 10_000,
        r.idle_response_ms == 5_000,
        r.busy_response_ms == 25_000,
        r.tick_ms == 200,
        r.restart_backoffs_ms@ == seq![2_000u64, 5_000u64, 10_000u64],
{
    let mut backoffs: Vec<u64> = Vec::new();
    backoffs.push(2_000);
    backoffs.push(5_000);
    backoffs.push(10_000);
    assert(backoffs@ =~= seq![2_000u64, 5_000u64, 10_000u64]);
    WatchdogConfig {
        idle_interval_ms: 10_000,
        idle_response_ms: 5_000,
        busy_response_ms: 25_000,
        tick_ms: 200,
        restart_backoffs_ms: backoffs,
    }
}

/// The live script is never hidden by a bundle in a development build, nor the bundle by a leftover
/// source tree in a release build.
pub proof fn law_build_profile_decides(p: SidecarPlaces)
    requires
        p.python_override is None,
        p.script_override is None,
        p.dev_ready,
        p.bundled is Some,
    ensures
        p.dev_build ==> chosen(p) is Dev,
        !p.dev_build ==> chosen(p) is Bundled,
{
}

/// A pre-gain within its limits is used as it is, one that is no number falls back to nine decibels of
/// attenuation, and one outside its limits to the limit that it passed.
pub proof fn law_pregain_is_kept_within_its_limits(db: Double)
    ensures
        ({
            let least = Double { bits: 0xc044_0000_0000_0000 };
            let used = allowed_pregain(db);
            &&& !double::is_finite(db) ==> used == (Double { bits: 0xc022_0000_0000_0000 })
            &&& double::is_finite(db) && double::at_most(least, db) && double::at_most(
                db,
                double::zero(),
            ) ==> used == db
            &&& double::is_finite(db) && double::less(db, least) ==> used == least
            &&& double::is_finite(db) && double::less(double::zero(), db) ==> used
                == double::zero()
        }),
{
    let least = Double { bits: MIN_BASE_PREGAIN_DB };
    assert(double::unsigned(least) == 0x4044_0000_0000_0000);
    assert(double::unsigned(double::zero()) == 0);
    double::lemma_ordered(0, 0x4044_0000_0000_0000);
    double::lemma_zero();
}

/// An edit sets what it names to what it gives, and every other setting stays as it was.
pub proof fn law_edit_changes_one_thing(s: AppSettings, edit: SettingsEdit)
    ensures
        ({
            let r = edited(s, edit);
            &&& edit is Loudness ==> r.loudness == edit->Loudness_0
            &&& edit is Selection ==> r.selection == edit->Selection_0
            &&& edit is LastHash ==> r.last_hash == Some(edit->LastHash_0)
            &&& edit is ConfirmFinalVolume ==> r.confirm_final_volume
                == edit->ConfirmFinalVolume_0
            &&& edit is Resume ==> r.resume == Some(edit->Resume_0)
            &&& edit is Library ==> r.library == Some(edit->Library_0)
            &&& !(edit is Loudness) ==> r.loudness == s.loudness
            &&& !(edit is Selection) ==> r.selection == s.selection
            &&& !(edit is LastHash) ==> r.last_hash == s.last_hash
            &&& !(edit is ConfirmFinalVolume) ==> r.confirm_final_volume == s.confirm_final_volume
            &&& !(edit is Resume) ==> r.resume == s.resume
            &&& !(edit is Library) ==> r.library == s.library
        }),
{
}

/// What is asked for explicitly is what runs, whatever else there is: the script that was named under
/// the interpreter that was named, each falling back to the usual one by itself.
pub proof fn law_override_is_obeyed(p: SidecarPlaces, source: SidecarSource, label: Seq<char>)
    requires
        p.python_override is Some || p.script_override is Some,
        launches(source, label, chosen(p)),
    ensures
        source is Python,
        p.python_override matches Some(s) ==> source->python@ == s@,
        p.python_override is None ==> source->python@ == p.python@,
        p.script_override matches Some(s) ==> source->script@ == s@,
        p.script_override is None ==> source->script@ == p.script@,
{
}

/// Without an override the stand-in runs only where there is neither a bundle nor a development
/// environment; a bundle runs only where there is one, and the live script only where it is ready.
pub proof fn law_stand_in_is_the_last_resort(
    p: SidecarPlaces,
    source: SidecarSource,
    label: Seq<char>,
)
    requires
        p.python_override is None,
        p.script_override is None,
        launches(source, label, chosen(p)),
    ensures
        p.bundled is None && !p.dev_ready ==> source is Python && source->python@ == p.python@
            && source->script@ == p.stub@,
        source is Frozen ==> (p.bundled matches Some(exe) && source->Frozen_0@ == exe@),
        p.bundled is Some && !p.dev_build ==> source is Frozen,
        p.bundled is Some && !p.dev_ready ==> source is Frozen,
        p.dev_ready && (p.dev_build || p.bundled is None) ==> source is Python && source->python@
            == p.venv@ && source->script@ == p.script@,
{
}

/// The label shows what runs: its last part is the path in parentheses.
pub proof fn law_label_shows_what_runs(p: SidecarPlaces, source: SidecarSource, label: Seq<char>)
    requires
        launches(source, label, chosen(p)),
    ensures
        ({
            let shown = match source {
                SidecarSource::Frozen(exe) => exe@,
                SidecarSource::Python { python, script } => if chosen(p) is Stub {
                    script@
                } else {
                    python@
                },
            };
            &&& label.len() > shown.len() + 1
            &&& label.skip(label.len() - shown.len() - 2) == seq!['('] + shown + seq![')']
        }),
{
    reveal_strlit("AutoEq DSP, override (");
    reveal_strlit("AutoEq DSP, bundled (");
    reveal_strlit("AutoEq DSP, dev venv (");
    reveal_strlit("stub (");
    reveal_strlit(")");
    let shown = match source {
        SidecarSource::Frozen(exe) => exe@,
        SidecarSource::Python { python, script } => if chosen(p) is Stub {
            script@
        } else {
            python@
        },
    };
    assert(label.skip(label.len() - shown.len() - 2) =~= seq!['('] + shown + seq![')']);
}

/// Each state of health has its own word, and each startup verdict its own.
pub proof fn law_words_tell_states_apart(
    h: Health,
    k: Health,
    d: StartupDecision,
    e: StartupDecision,
)
    ensures
        health_word(h) == health_word(k) <==> h == k,
        verdict_word(d) == verdict_word(e) <==> d == e,
        h is Running <==> health_word(h) == "Running"@,
        h is Recovering <==> health_word(h) == "Recovering"@,
        h is Terminal <==> health_word(h) == "Terminal"@,
        d is FirstRun <==> verdict_word(d) == "FirstRun"@,
        d is ResumeTrusted <==> verdict_word(d) == "ResumeTrusted"@,
        d is SafeStateStillActive <==> verdict_word(d) == "SafeStateStillActive"@,
        d is ExternallyModified <==> verdict_word(d) == "ExternallyModified"@,
{
    reveal_strlit("Running");
    reveal_strlit("Recovering");
    reveal_strlit("Terminal");
    reveal_strlit("FirstRun");
    reveal_strlit("ResumeTrusted");
    reveal_strlit("SafeStateStillActive");
    reveal_strlit("ExternallyModified");
    assert("Running"@.len() == 7 && "Recovering"@.len() == 10 && "Terminal"@.len() == 8);
    assert("FirstRun"@.len() == 8 && "ResumeTrusted"@.len() == 13);
    assert("SafeStateStillActive"@.len() == 20 && "ExternallyModified"@.len() == 18);
}

/// A fit's request names the headphone first and always, the target exactly where there is one, and
/// the manual filters exactly where there are any; and nothing twice.
pub proof fn law_request_holds_what_there_is(has_target: bool, has_filters: bool, i: int, j: int)
    ensures
        ({
            let keys = keys_of(has_target, has_filters);
            &&& keys[0] == "headphone"@
            &&& keys.contains("target"@) <==> has_target
            &&& keys.contains("custom_filters"@) <==> has_filters
            &&& keys.len() <= 3
            &&& 0 <= i < j < keys.len() ==> keys[i] != keys[j]
        }),
{
    reveal_strlit("headphone");
    reveal_strlit("target");
    reveal_strlit("custom_filters");
    assert("headphone"@.len() == 9 && "target"@.len() == 6 && "custom_filters"@.len() == 14);
    let keys = keys_of(has_target, has_filters);
    if has_target {
        assert(keys[1] == "target"@);
    }
    if has_filters {
        assert(keys[keys.len() - 1] == "custom_filters"@);
    }
}

/// A device is like itself, whatever the case of its letters; and what holds it is like it.
pub proof fn law_device_is_like_itself(
    before: Seq<char>,
    a: Seq<char>,
    b: Seq<char>,
    after: Seq<char>,
)
    requires
        text::uppered(a) == text::uppered(b),
    ensures
        likes(before + a + after, b),
{
    let u = text::uppered(before + a + after);
    let part = text::uppered(b);
    assert(u.subrange(before.len() as int, (before.len() + part.len()) as int) =~= part) by {
        assert(part == text::uppered(a));
    }
    assert(text::stands_at(u, part, before.len() as int));
}

} // verus!
