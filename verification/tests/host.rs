use cageq::backend::{Filter, FilterType, StartupDecision};
use cageq::double::Double;
use cageq::dsp::{biquad_design, FilterKind, ResponseModel};
use cageq::host::{
    fit_inputs, health_kind, load_settings_from, open_output_settings, request_keys,
    resolve_cache_dir,
    resolve_config_dir, resolve_python, resolve_sidecar, set_loudness, settings_path, status,
    update_settings, watchdog_cfg, AppSettings, Health, LoudnessMode, LoudnessSettings, Ready,
    Selection, SettingsEdit, SidecarPlaces, SidecarSource,
};
use cageq::instance::{
    cageq_apo_create, cageq_apo_frames_processed, cageq_apo_process, cageq_apo_sample_rate,
};
use cageq::streams::{set_scope_viewer, Alive, Subscribers};

fn d(x: f64) -> Double {
    Double { bits: x.to_bits() }
}

fn s(x: &str) -> Option<String> {
    Some(x.to_string())
}

#[test]
fn create_process_destroy_round_trip() {
    let mut h = cageq_apo_create(2, 48_000.0f32.to_bits()).expect("a plausible format");
    assert_eq!(f32::from_bits(cageq_apo_sample_rate(Some(&h))), 48_000.0);

    let input: Vec<f32> = (0..8).map(|i| i as f32 * 0.125).collect();
    let mut output = vec![0.0f32; 8];
    cageq_apo_process(Some(&mut h), &input, &mut output, 4);
    assert_eq!(output, input, "an identity passthrough");
    assert_eq!(cageq_apo_frames_processed(Some(&h)), 4);
}

#[test]
fn processing_in_place_is_safe() {
    let mut h = cageq_apo_create(2, 44_100.0f32.to_bits()).unwrap();
    let mut buf: Vec<f32> = vec![0.25, -0.5, 0.75, -1.0];
    let before = buf.clone();
    cageq_apo_process(Some(&mut h), &before, &mut buf, 2);
    assert_eq!(buf, before);
}

#[test]
fn implausible_formats_refuse_to_lock() {
    assert!(cageq_apo_create(0, 48_000.0f32.to_bits()).is_none());
    assert!(cageq_apo_create(64, 48_000.0f32.to_bits()).is_none());
    assert!(cageq_apo_create(2, 0.0f32.to_bits()).is_none());
    assert!(cageq_apo_create(2, f32::NAN.to_bits()).is_none());
    assert!(cageq_apo_create(2, (-1.0f32).to_bits()).is_none());
    assert!(cageq_apo_create(2, f32::INFINITY.to_bits()).is_none());
    assert!(cageq_apo_create(32, f32::MIN_POSITIVE.to_bits()).is_some());

    // Without an instance nothing happens.
    let mut output: Vec<f32> = vec![];
    cageq_apo_process(None, &[], &mut output, 128);
    assert_eq!(cageq_apo_frames_processed(None), 0);
    assert_eq!(f32::from_bits(cageq_apo_sample_rate(None)), 0.0);
}

#[test]
fn only_the_frames_asked_for_are_touched() {
    let mut h = cageq_apo_create(2, 44_100.0f32.to_bits()).unwrap();
    let mut out: Vec<u8> = vec![9; 6];
    cageq_apo_process(Some(&mut h), &[1, 2, 3, 4, 5, 6], &mut out, 2);
    assert_eq!(out, vec![1, 2, 3, 4, 9, 9]);
}

#[test]
fn unknown_design_codes_are_refused() {
    let (b, m) = biquad_design(1, d(100.0), d(3.0), d(0.7), 1).unwrap();
    assert_eq!((b.kind, m), (FilterKind::LowShelf, ResponseModel::AnalogMatched));
    assert_eq!(biquad_design(3, d(1.0), d(0.0), d(1.0), 0).unwrap().0.kind, FilterKind::Bandpass);
    assert_eq!(biquad_design(0, d(1.0), d(0.0), d(1.0), 0).unwrap().0.kind, FilterKind::Peaking);
    assert_eq!(biquad_design(2, d(1.0), d(0.0), d(1.0), 0).unwrap().0.kind, FilterKind::HighShelf);
    assert!(biquad_design(4, d(1.0), d(0.0), d(1.0), 0).is_none());
    assert!(biquad_design(0, d(1.0), d(0.0), d(1.0), 2).is_none());
}

#[test]
fn the_pregain_never_boosts() {
    let set = |db: f64| {
        let r = set_loudness(LoudnessSettings { base_pregain_db: d(db), mode: LoudnessMode::FinalVolume });
        assert_eq!(r.mode, LoudnessMode::FinalVolume);
        f64::from_bits(r.base_pregain_db.bits)
    };
    assert_eq!(set(-12.5), -12.5);
    assert_eq!(set(3.0), 0.0);
    assert_eq!(set(-100.0), -40.0);
    assert_eq!(set(-40.0), -40.0);
    assert_eq!(set(f64::NAN), -9.0);
    assert_eq!(set(f64::INFINITY), -9.0);
    assert_eq!(set(f64::NEG_INFINITY), -9.0);
}

#[test]
fn bad_settings_fall_back_to_the_defaults() {
    let fresh = load_settings_from(None);
    assert!(fresh.confirm_final_volume);
    assert_eq!(fresh.loudness, LoudnessSettings::default());
    assert_eq!(fresh.selection, Selection { headphone: None, target: None });
    let kept = AppSettings { last_hash: s("abc123"), confirm_final_volume: false, ..AppSettings::default() };
    let r = load_settings_from(Some(kept.clone()));
    assert_eq!(r, kept);
}

#[test]
fn a_change_of_loudness_keeps_the_selection() {
    let mut st = AppSettings::default();
    let chosen = Selection { headphone: s("h"), target: None };
    let quiet = LoudnessSettings { base_pregain_db: d(-20.0), mode: LoudnessMode::Comparison };
    update_settings(&mut st, SettingsEdit::Selection(chosen.clone()));
    update_settings(&mut st, SettingsEdit::Loudness(quiet));
    update_settings(&mut st, SettingsEdit::LastHash("abc123".to_string()));
    update_settings(&mut st, SettingsEdit::ConfirmFinalVolume(false));
    update_settings(&mut st, SettingsEdit::Resume("{}".to_string()));
    update_settings(&mut st, SettingsEdit::Library("[]".to_string()));
    assert_eq!(
        st,
        AppSettings {
            loudness: quiet,
            selection: chosen,
            last_hash: s("abc123"),
            confirm_final_volume: false,
            resume: s("{}"),
            library: s("[]"),
        }
    );
}

#[test]
fn places_are_found_in_order() {
    let t = || "T".to_string();
    assert_eq!(settings_path(s("x.json"), s("A"), t()), vec!["x.json"]);
    assert_eq!(settings_path(None, s("A"), t()), vec!["A", "CAGEq", "settings.json"]);
    assert_eq!(settings_path(None, None, t()), vec!["T", "CAGEq", "settings.json"]);
    assert_eq!(resolve_cache_dir(s("c"), s("L"), t()), vec!["c"]);
    assert_eq!(resolve_cache_dir(None, s("L"), t()), vec!["L", "CAGEq", "cache"]);
    assert_eq!(resolve_cache_dir(None, None, t()), vec!["T", "cageq-cache"]);
    assert_eq!(
        resolve_config_dir(s("o"), s("e"), t()),
        (vec!["o".to_string()], "override (CAGEQ_CONFIG_DIR)".to_string())
    );
    assert_eq!(
        resolve_config_dir(None, s("e"), t()),
        (vec!["e".to_string()], "Equalizer APO — e".to_string())
    );
    assert_eq!(
        resolve_config_dir(None, None, t()),
        (
            vec!["T".to_string(), "cageq-dev-config".to_string()],
            "dev temp (Equalizer APO not detected)".to_string()
        )
    );
    assert_eq!(resolve_python(Some(" C:\\py.exe \r\n")), "C:\\py.exe");
    assert_eq!(resolve_python(Some(" \n")), "python");
    assert_eq!(resolve_python(None), "python");
}

fn places() -> SidecarPlaces {
    SidecarPlaces {
        python_override: None,
        script_override: None,
        python: "py".to_string(),
        venv: "venv".to_string(),
        script: "dsp.py".to_string(),
        dev_ready: true,
        bundled: s("exe"),
        stub: "stub.py".to_string(),
        dev_build: true,
    }
}

fn python(p: &str, script: &str) -> SidecarSource {
    SidecarSource::Python { python: p.to_string(), script: script.to_string() }
}

#[test]
fn the_sidecar_is_chosen_by_build_and_by_what_is_there() {
    let label = |s: &str| s.to_string();
    assert_eq!(
        resolve_sidecar(places()),
        (python("venv", "dsp.py"), label("AutoEq DSP, dev venv (venv)"))
    );
    assert_eq!(
        resolve_sidecar(SidecarPlaces { dev_build: false, ..places() }),
        (SidecarSource::Frozen("exe".to_string()), label("AutoEq DSP, bundled (exe)"))
    );
    assert_eq!(
        resolve_sidecar(SidecarPlaces { dev_ready: false, ..places() }).1,
        "AutoEq DSP, bundled (exe)"
    );
    assert_eq!(
        resolve_sidecar(SidecarPlaces { dev_build: false, bundled: None, ..places() }).1,
        "AutoEq DSP, dev venv (venv)"
    );
    assert_eq!(
        resolve_sidecar(SidecarPlaces { dev_ready: false, bundled: None, ..places() }),
        (python("py", "stub.py"), label("stub (stub.py)"))
    );
    assert_eq!(
        resolve_sidecar(SidecarPlaces { script_override: s("mine.py"), ..places() }),
        (python("py", "mine.py"), label("AutoEq DSP, override (py)"))
    );
    assert_eq!(
        resolve_sidecar(SidecarPlaces { python_override: s("mypy"), ..places() }),
        (python("mypy", "dsp.py"), label("AutoEq DSP, override (mypy)"))
    );
}

#[test]
fn the_sound_settings_open_where_they_help() {
    let default = "ms-settings:sound-defaultoutputproperties";
    assert_eq!(open_output_settings(None, None), default);
    assert_eq!(open_output_settings(Some("{AB-cd}"), Some("prefix.{ab-CD}")), default);
    assert_eq!(open_output_settings(Some("{ab}"), Some("{cd}")), "ms-settings:sound-devices");
    assert_eq!(open_output_settings(Some("{ab}"), None), "ms-settings:sound-devices");
}

#[test]
fn the_shown_state_says_why_there_is_none() {
    let st = status(Err("no python".to_string()));
    assert_eq!(st.startup, "init failed: no python");
    assert_eq!((st.health.as_str(), st.health_kind.as_str(), st.recoveries), ("-", "-", 0));
    let st = status(Ok(Ready {
        startup: StartupDecision::SafeStateStillActive,
        health: Health::Recovering,
        health_detail: "Recovering { attempt: 1 }".to_string(),
        recoveries: 3,
        config_dir: "dir".to_string(),
        config_source: "src".to_string(),
        sidecar: "side".to_string(),
    }));
    assert_eq!(st.startup, "SafeStateStillActive");
    assert_eq!(st.health_kind, "Recovering");
    assert_eq!((st.recoveries, st.sidecar.as_str()), (3, "side"));
    assert_eq!(health_kind(Health::Running), "Running");
    assert_eq!(health_kind(Health::Terminal), "Terminal");
    assert_eq!(fit_inputs("h", Some("t")).len(), 2);
    assert_eq!(fit_inputs("h", None), vec![("headphone".to_string(), "h".to_string())]);
    assert_eq!(watchdog_cfg().restart_backoffs_ms, vec![2000, 5000, 10000]);
}

#[test]
fn a_quiet_view_is_not_sent_to_but_keeps_its_place() {
    let mut alive = Alive::new();
    let mut subs: Subscribers<u32> = Subscribers::new();
    alive.beat("main", 1000);
    subs.register("main", 1);
    alive.beat("scope", 1000);
    subs.register("scope", 2);

    assert_eq!(subs.due(&alive, 4000), vec![true, true]);
    alive.beat("main", 4000);
    assert_eq!(subs.due(&alive, 4001), vec![true, false]);
    subs.after_send(&vec![true, false], &vec![true, false]);
    assert_eq!(subs.count(), 2, "quiet, not gone");
    alive.beat("scope", 5000);
    assert_eq!(subs.due(&alive, 5000), vec![true, true]);
    // A clock that stands behind the beat is no silence.
    assert_eq!(subs.due(&alive, 0), vec![true, true]);

    // A failed send drops the channel; a fresh registration replaces an old one.
    subs.after_send(&vec![true, true], &vec![false, true]);
    assert_eq!(subs.count(), 1);
    assert_eq!(*subs.channel(0), 2);
    subs.register("scope", 7);
    assert_eq!(subs.count(), 1);
    assert_eq!(*subs.channel(0), 7);

    subs.drop_subs("scope");
    alive.forget("scope");
    assert_eq!(subs.count(), 0);
    assert!(!alive.draining("scope", 5000));
    assert!(alive.draining("main", 5000));
}

#[test]
fn viewers_never_underflow() {
    assert_eq!(set_scope_viewer(0, false), 0);
    assert_eq!(set_scope_viewer(0, true), 1);
    assert_eq!(set_scope_viewer(2, false), 1);
    assert_eq!(set_scope_viewer(usize::MAX, false), usize::MAX - 1);
}

#[test]
fn manual_filters_are_sent_only_where_there_are_any() {
    let filter = Filter { kind: FilterType::Peaking, freq_hz: d(1000.0), gain_db: d(3.0), q: d(1.0) };
    assert_eq!(request_keys(None, &vec![]), vec!["headphone"]);
    assert_eq!(request_keys(Some("t"), &vec![]), vec!["headphone", "target"]);
    assert_eq!(request_keys(None, &vec![filter]), vec!["headphone", "custom_filters"]);
    assert_eq!(
        request_keys(Some(""), &vec![filter, filter]),
        vec!["headphone", "target", "custom_filters"]
    );
}
