use std::collections::BTreeMap;
use std::path::PathBuf;

use cageq::apo_backend::{
    applied, is_safe_state, plan, publish_push, safe_state, strip_hash_line, to_apo_config,
    write_config, ApoBackendError, CageqApoBackend, Live, Push, PushOutcome, HASH_PREFIX,
};
use cageq::apo_config::{parse, ApoConfig};
use cageq::applied_files::{
    applied_hash, applied_text, config_files, corrected_endpoints, drives_endpoint, is_installed,
    plan_safe_state, startup_decision, ConfigFile,
};
use cageq::backend::{
    endpoint_has_apo, expand_tilts, list_render_devices, BackendError, Capabilities, DeviceConfig,
    EqBackend, Filter, FilterType, RenderEndpoint, StartupDecision,
};
use cageq::control::{
    sample_rate, set_sample_rate, try_read, ControlBlock, RawCoeffs, ReadOutcome, Snapshot,
};
use cageq::double::Double;
use cageq::dsp::{Band, FilterKind, MAX_BANDS};
use cageq::endpoint::config_file_name;
use cageq::fingerprint::hash_bytes;

const EP: &str = "{6cafe423-cde5-4ec1-a1e2-e3fcec778349}";
const EP2: &str = "{11112222-3333-4444-5555-666677778888}";
const EP_LIVE_REFUSED: &str = "{99990001-0001-0001-0001-000000000001}";
const EP_LIVE_OK: &str = "{99990002-0002-0002-0002-000000000002}";

fn d(x: f64) -> Double {
    Double { bits: x.to_bits() }
}

fn f(x: Double) -> f64 {
    f64::from_bits(x.bits)
}

fn filter(kind: FilterType, freq_hz: f64, gain_db: f64, q: f64) -> Filter {
    Filter { kind, freq_hz: d(freq_hz), gain_db: d(gain_db), q: d(q) }
}

fn device(id: &str, preamp: f64) -> DeviceConfig {
    DeviceConfig {
        device: id.to_string(),
        preamp_db: d(preamp),
        filters: vec![
            filter(FilterType::Peaking, 105.0, 6.0, 0.7),
            filter(FilterType::HighShelf, 8000.0, -3.0, 0.7),
        ],
    }
}

fn isolate(id: &str, freq_hz: f64) -> DeviceConfig {
    DeviceConfig {
        device: id.to_string(),
        preamp_db: d(0.0),
        filters: vec![filter(FilterType::Bandpass, freq_hz, 0.0, 8.0)],
    }
}

/// The Audio EQ Cookbook's filters.
fn coefficients(b: &Band, rate: f64) -> RawCoeffs {
    let a = 10f64.powf(f(b.gain_db) / 40.0);
    let w = 2.0 * std::f64::consts::PI * f(b.freq_hz) / rate;
    let (sin, cos) = w.sin_cos();
    let alpha = sin / (2.0 * f(b.q));
    let beta = 2.0 * a.sqrt() * alpha;
    let (b0, b1, b2, a0, a1, a2) = match b.kind {
        FilterKind::Peaking => {
            (1.0 + alpha * a, -2.0 * cos, 1.0 - alpha * a, 1.0 + alpha / a, -2.0 * cos, 1.0 - alpha / a)
        }
        FilterKind::LowShelf => (
            a * ((a + 1.0) - (a - 1.0) * cos + beta),
            2.0 * a * ((a - 1.0) - (a + 1.0) * cos),
            a * ((a + 1.0) - (a - 1.0) * cos - beta),
            (a + 1.0) + (a - 1.0) * cos + beta,
            -2.0 * ((a - 1.0) + (a + 1.0) * cos),
            (a + 1.0) + (a - 1.0) * cos - beta,
        ),
        FilterKind::HighShelf => (
            a * ((a + 1.0) + (a - 1.0) * cos + beta),
            -2.0 * a * ((a - 1.0) + (a + 1.0) * cos),
            a * ((a + 1.0) + (a - 1.0) * cos - beta),
            (a + 1.0) - (a - 1.0) * cos + beta,
            2.0 * ((a - 1.0) - (a + 1.0) * cos),
            (a + 1.0) - (a - 1.0) * cos - beta,
        ),
        FilterKind::Bandpass => (alpha, 0.0, -alpha, 1.0 + alpha, -2.0 * cos, 1.0 - alpha),
    };
    RawCoeffs { b0: d(b0 / a0), b1: d(b1 / a0), b2: d(b2 / a0), a1: d(a1 / a0), a2: d(a2 / a0) }
}

fn zeroed() -> ControlBlock {
    ControlBlock {
        magic: 0,
        version: 0,
        seq: 0,
        band_count: 0,
        preamp_db: d(0.0),
        crossfade: 0,
        coeffs: [RawCoeffs::default(); MAX_BANDS],
        heartbeat: 0,
        ack: 0,
        sample_rate: 0,
        build_stamp: 0,
    }
}

/// A backend whose directory and channels are in memory.
struct Machine {
    backend: CageqApoBackend,
    files: BTreeMap<String, String>,
    channels: BTreeMap<String, ControlBlock>,
}

fn temp_backend(tag: &str) -> Machine {
    Machine {
        backend: CageqApoBackend::new(PathBuf::from(tag)),
        files: BTreeMap::new(),
        channels: BTreeMap::new(),
    }
}

impl Machine {
    fn entries(&self) -> Vec<ConfigFile> {
        // Out of order, as a directory may well be listed.
        self.files
            .iter()
            .rev()
            .map(|(name, body)| ConfigFile {
                name: name.as_bytes().to_vec(),
                label: Some(name.clone()),
                body: Some(body.clone()),
            })
            .collect()
    }

    fn open_channel(&mut self, id: &str, rate: u32) {
        let mut block = zeroed();
        if rate != 0 {
            set_sample_rate(&mut block, rate);
        }
        self.channels.insert(id.to_string(), block);
    }

    fn live(&self, id: &str) -> Live {
        match self.channels.get(id) {
            None => Live::NoChannel,
            Some(b) => Live::Open(sample_rate(b)),
        }
    }

    fn push(&mut self, id: &str, config: &ApoConfig, allow_crossfade: bool) -> Result<PushOutcome, ApoBackendError> {
        let live = self.live(id);
        let push = self.backend.push_live(id, config, live, allow_crossfade)?;
        Ok(self.publish(id, config, push))
    }

    fn publish(&mut self, id: &str, config: &ApoConfig, push: Option<Push>) -> PushOutcome {
        let Some(push) = push else {
            return PushOutcome::NoChannel;
        };
        let coeffs: Vec<Option<RawCoeffs>> = push
            .bands
            .iter()
            .map(|b| b.as_ref().map(|b| coefficients(b, push.rate as f64)))
            .collect();
        let block = self.channels.get_mut(id).unwrap();
        publish_push(block, config.preamp_db, &coeffs, push.crossfade)
    }

    fn apply(&mut self, configs: &[DeviceConfig]) -> Result<String, ApoBackendError> {
        for c in configs {
            let p = plan(c)?;
            self.files.insert(p.file, p.text);
            let outcome = self.push(&p.id, &p.config, true)?;
            applied(&p.id, outcome)?;
        }
        Ok(applied_hash(self.entries()))
    }

    fn write_safe_state(&mut self) {
        for p in plan_safe_state(self.entries()) {
            self.files.insert(p.file, p.text);
            let live = self.live(&p.id);
            if let Ok(push) = self.backend.push_safe_state(&p.id, live) {
                self.publish(&p.id, &p.config, push);
            }
        }
    }

    fn read(&self, id: &str) -> &String {
        &self.files[&config_file_name(id)]
    }

    fn snapshot(&self, id: &str) -> Snapshot {
        let mut snap = Snapshot::default();
        assert!(matches!(try_read(&self.channels[id], &mut snap), ReadOutcome::Updated(_)));
        snap
    }
}

#[test]
fn what_the_backend_writes_the_apo_can_read_back() {
    let mut m = temp_backend("roundtrip");
    m.apply(&[device(EP, -9.5)]).unwrap();

    let parsed = parse(m.read(EP)).expect("the engine's own parser must accept it");
    assert_eq!(f(parsed.preamp_db), -9.5);
    assert_eq!(parsed.bands.len(), 2);
    assert_eq!(f(parsed.bands[0].freq_hz), 105.0);
    assert_eq!(f(parsed.bands[0].gain_db), 6.0);
    assert_eq!(parsed.bands[1].kind, FilterKind::HighShelf);

    // The first line is the digest of the rest.
    let text = m.read(EP);
    let rest = strip_hash_line(text);
    assert_eq!(*text, format!("{HASH_PREFIX}{}\n{rest}", hash_bytes(rest.as_bytes())));
}

#[test]
fn endpoint_ids_are_normalised_and_bad_ones_refused() {
    let mut m = temp_backend("ids");
    m.apply(&[device("6CAFE423-CDE5-4EC1-A1E2-E3FCEC778349", -3.0)]).unwrap();
    assert!(m.files.contains_key(&config_file_name(EP)), "should have normalised to {EP}");
    assert_eq!(config_files(m.entries()).len(), 1);

    assert!(m.apply(&[device("not-a-guid", 0.0)]).is_err());
    match plan(&device("not-a-guid", 0.0)) {
        Err(ApoBackendError::BadEndpointId(id)) => assert_eq!(id, "not-a-guid"),
        other => panic!("{other:?}"),
    }
}

#[test]
fn startup_decisions_reflect_what_is_actually_applied() {
    let mut m = temp_backend("startup");
    assert_eq!(startup_decision(m.entries(), None), StartupDecision::FirstRun);

    let hash = m.apply(&[device(EP, -6.0)]).unwrap();
    assert_eq!(startup_decision(m.entries(), Some(&hash)), StartupDecision::ResumeTrusted);

    // Something else changed the correction.
    assert_eq!(startup_decision(m.entries(), Some("deadbeef")), StartupDecision::ExternallyModified);

    // The watchdog silenced things and the app never got to write a resume hash.
    m.write_safe_state();
    assert_eq!(startup_decision(m.entries(), Some(&hash)), StartupDecision::SafeStateStillActive);
}

#[test]
fn the_safe_state_actively_silences_rather_than_removing_the_correction() {
    let mut m = temp_backend("safe");
    m.apply(&[device(EP, -6.0), device(EP2, -3.0)]).unwrap();
    m.write_safe_state();

    for id in [EP, EP2] {
        let parsed = parse(m.read(id)).expect("safe state must still parse");
        assert!(parsed.bands.is_empty(), "safe state should carry no filters");
        assert_eq!(f(parsed.preamp_db), -120.0, "safe state must silence, not neutralise");
        assert!(is_safe_state(&parsed));
    }
    assert_eq!(config_files(m.entries()).len(), 2, "every endpoint must be covered");
}

#[test]
fn write_safe_state_never_uses_the_crossfade_path() {
    let mut m = temp_backend("safe-no-crossfade");
    m.open_channel(EP_LIVE_OK, 48_000);

    // Put the endpoint into "last live push was isolate" state.
    m.apply(&[isolate(EP_LIVE_OK, 31.0)]).unwrap();
    assert!(m.snapshot(EP_LIVE_OK).crossfade, "sanity check: entering isolate itself must still crossfade");

    m.write_safe_state();
    let snap = m.snapshot(EP_LIVE_OK);
    assert!(!snap.crossfade, "the safe-state push must never route through the crossfade path");
    assert_eq!(snap.band_count, 0, "the safe state itself must still be exactly zero bands");
}

#[test]
fn isolate_boundary_crossings_cross_the_wire_as_a_crossfade() {
    const EP_ISOLATE_WIRE: &str = "{99990004-0004-0004-0004-000000000004}";
    let mut m = temp_backend("isolate-boundary-wire");
    m.open_channel(EP_ISOLATE_WIRE, 48_000);

    // Entering the audition crosses the boundary.
    m.apply(&[isolate(EP_ISOLATE_WIRE, 1000.0)]).unwrap();
    assert!(m.snapshot(EP_ISOLATE_WIRE).crossfade, "entering isolate must crossfade");

    // A continuation of the same drag (same slot, nearby frequency) must not.
    m.apply(&[isolate(EP_ISOLATE_WIRE, 1050.0)]).unwrap();
    assert!(!m.snapshot(EP_ISOLATE_WIRE).crossfade, "an in-drag continuation must not crossfade");

    // Leaving the audition crosses the boundary again.
    m.apply(&[device(EP_ISOLATE_WIRE, -6.0)]).unwrap();
    assert!(m.snapshot(EP_ISOLATE_WIRE).crossfade, "leaving isolate must crossfade");

    // An ordinary (non-isolate) edit must not.
    m.apply(&[device(EP_ISOLATE_WIRE, -3.0)]).unwrap();
    assert!(!m.snapshot(EP_ISOLATE_WIRE).crossfade, "an ordinary edit must not crossfade");
}

#[test]
fn the_hash_tracks_every_change_including_removals() {
    let mut m = temp_backend("hash");
    let one = m.apply(&[device(EP, -6.0)]).unwrap();
    let same = m.apply(&[device(EP, -6.0)]).unwrap();
    assert_eq!(one, same, "an unchanged correction must hash the same");

    let changed = m.apply(&[device(EP, -7.0)]).unwrap();
    assert_ne!(one, changed, "a changed preamp must change the hash");

    let two = m.apply(&[device(EP, -7.0), device(EP2, -7.0)]).unwrap();
    assert_ne!(changed, two, "adding a device must change the hash");

    // Removing a device's file must not read as unchanged.
    m.files.remove(&config_file_name(EP2));
    assert_ne!(two, applied_hash(m.entries()), "a removed device must change the hash");
}

#[test]
fn capabilities_hand_transitions_to_the_apo() {
    let m = temp_backend("caps");
    let caps = m.backend.capabilities();
    assert!(caps.owns_transitions, "the engine ramps coefficients itself");
    assert_eq!(caps.min_write_spacing_ms, 0, "no reload to collide with");
    assert!(!caps.manages_foreign_config, "nothing else writes these files");
    assert_eq!(*m.backend.config_dir(), PathBuf::from("caps"));
}

#[test]
fn a_flat_correction_is_not_the_safe_state() {
    let mut m = temp_backend("flat");
    let flat = DeviceConfig { device: EP.to_string(), preamp_db: d(0.0), filters: vec![] };
    let hash = m.apply(&[flat]).unwrap();
    assert_eq!(startup_decision(m.entries(), Some(&hash)), StartupDecision::ResumeTrusted);
    assert_eq!(startup_decision(m.entries(), Some("x")), StartupDecision::ExternallyModified);
}

#[test]
fn a_refused_live_push_is_reported_and_the_file_stands() {
    let mut m = temp_backend("live-refused");
    m.open_channel(EP_LIVE_REFUSED, 48_000);

    let too_many: Vec<Filter> = (0..MAX_BANDS + 1)
        .map(|i| filter(FilterType::Peaking, 100.0 + i as f64, 1.0, 1.0))
        .collect();
    let cfg = DeviceConfig { device: EP_LIVE_REFUSED.to_string(), preamp_db: d(-3.0), filters: too_many };

    match m.apply(&[cfg]) {
        Err(ApoBackendError::LivePushRefused(id)) => assert_eq!(id, EP_LIVE_REFUSED),
        other => panic!("{other:?}"),
    }
    // The file is still the durable record of what was asked for.
    let text = m.read(EP_LIVE_REFUSED);
    assert_eq!(text.matches("\nband PK ").count(), MAX_BANDS + 1);
    assert!(parse(text).is_err(), "and the engine refuses it too");
    // Nothing crossed the wire.
    assert_eq!(m.channels[EP_LIVE_REFUSED].magic, 0);
}

#[test]
fn apply_still_succeeds_live_when_the_channel_accepts_it() {
    let mut m = temp_backend("live-ok");
    m.open_channel(EP_LIVE_OK, 48_000);
    m.apply(&[device(EP_LIVE_OK, -6.0)]).expect("a safe, small correction must still apply");
    let snap = m.snapshot(EP_LIVE_OK);
    assert_eq!((f(snap.preamp_db), snap.band_count), (-6.0, 2));
}

#[test]
fn a_channel_without_a_rate_is_an_error() {
    let mut m = temp_backend("no-rate");
    m.open_channel(EP, 0);
    match m.apply(&[device(EP, -6.0)]) {
        Err(e @ ApoBackendError::NoSampleRate(_)) => assert_eq!(
            e.message(),
            format!("the APO on {EP} published no sample rate — try again shortly")
        ),
        other => panic!("{other:?}"),
    }
    assert!(m.files.contains_key(&config_file_name(EP)), "the file stands all the same");
}

#[test]
fn a_dropped_band_leaves_the_identity_filter_in_its_slot() {
    let mut m = temp_backend("gap");
    m.open_channel(EP, 48_000);
    m.apply(&[device(EP, -6.0)]).unwrap();
    let mut rest = device(EP, -6.0);
    rest.filters.remove(0);
    m.apply(&[rest]).unwrap();
    let snap = m.snapshot(EP);
    assert_eq!(snap.band_count, 2);
    assert_eq!((f(snap.coeffs[0].b0), f(snap.coeffs[0].a1)), (1.0, 0.0));
    assert_ne!(f(snap.coeffs[1].b0), 1.0);
}

#[test]
fn every_backend_error_has_its_words() {
    let io = std::io::Error::new(std::io::ErrorKind::Other, "disk full");
    assert_eq!(
        ApoBackendError::BadEndpointId("x".into()).message(),
        "'x' is not an endpoint GUID"
    );
    assert_eq!(
        ApoBackendError::Write { path: PathBuf::from("a.cfg"), source: io }.message(),
        "could not write a.cfg: disk full"
    );
    assert!(ApoBackendError::LivePushRefused("x".into()).message().starts_with(
        "the correction for x was refused by CAGEq's own engine (too many bands"
    ));
    assert!(applied("x", PushOutcome::NoChannel).is_ok());
    assert!(applied("x", PushOutcome::Published).is_ok());
    assert!(matches!(applied("x", PushOutcome::Refused), Err(ApoBackendError::LivePushRefused(_))));
}

#[test]
fn only_configuration_files_count_and_in_name_order() {
    let entry = |name: &str, body: Option<&str>| ConfigFile {
        name: name.as_bytes().to_vec(),
        label: Some(name.to_string()),
        body: body.map(|s| s.to_string()),
    };
    let all = || {
        vec![entry("b.cfg", Some("B")), entry("a.cfg.tmp", Some("x")), entry("a.cfg", Some("A")), entry(".cfg", None)]
    };
    let names: Vec<String> = config_files(all()).into_iter().map(|e| e.label.unwrap()).collect();
    assert_eq!(names, vec!["a.cfg", "b.cfg"]);
    assert_eq!(corrected_endpoints(all()), vec!["a", "b"]);
    assert_eq!(applied_hash(all()), hash_bytes(b"a.cfgA\nb.cfgB\n"));
    assert_eq!(applied_text(vec![]), "");
}

#[test]
fn a_tilt_is_written_as_its_two_shelves() {
    let cfg = DeviceConfig {
        device: EP.to_string(),
        preamp_db: d(0.0),
        filters: vec![filter(FilterType::Tilt, 500.0, 6.0, 0.9)],
    };
    let out = to_apo_config(&cfg);
    assert_eq!(out.bands.len(), 2);
    assert_eq!((out.bands[0].kind, f(out.bands[0].gain_db)), (FilterKind::LowShelf, -3.0));
    assert_eq!((out.bands[1].kind, f(out.bands[1].gain_db)), (FilterKind::HighShelf, 3.0));
}

#[test]
fn the_safe_state_is_told_from_a_quiet_correction() {
    let quiet = |db: f64| ApoConfig { preamp_db: d(db), bands: vec![] };
    assert!(is_safe_state(&quiet(-120.0)));
    assert!(is_safe_state(&quiet(-119.9)));
    assert!(!is_safe_state(&quiet(-119.89)));
    assert!(!is_safe_state(&quiet(f64::NAN)));
    let b = Band { kind: FilterKind::Peaking, freq_hz: d(1.0), gain_db: d(1.0), q: d(1.0) };
    assert!(!is_safe_state(&ApoConfig { preamp_db: d(-120.0), bands: vec![b] }));
}

#[test]
fn the_engine_is_found_by_its_id_in_a_chain() {
    let own = vec!["{530052e1-2cd4-400a-ac2b-0d19273ad5b7}".to_string()];
    let other = vec!["{EACD2258-FCAC-4FF4-B36D-419E924A6D79}".to_string()];
    assert!(drives_endpoint(Some(&own)));
    assert!(!drives_endpoint(Some(&other)));
    assert!(!drives_endpoint(None));
    assert!(is_installed(&vec![None, Some(other.clone()), Some(own)]));
    assert!(!is_installed(&vec![None, Some(other)]));
}

#[test]
fn list_render_devices_honours_its_contract() {
    let ep = |id: &str, state: Option<u32>, props: bool, desc: Option<&str>, iface: Option<&str>| RenderEndpoint {
        id: id.to_string(),
        state,
        has_properties: props,
        description: desc.map(|s| s.to_string()),
        interface: iface.map(|s| s.to_string()),
    };
    let devices = list_render_devices(&[
        ep("{a}", Some(1), true, Some("Speakers"), Some("USB DAC")),
        ep("{b}", Some(4), true, Some("Unplugged"), None),
        ep("{c}", None, true, None, None),
        ep("{d}", Some(1), false, None, None),
        ep("{e}", Some(1), true, None, None),
    ]);
    for d in &devices {
        assert!(!d.id.is_empty(), "device id should be non-empty");
    }
    assert_eq!(devices[0].id, "{a}");
    assert_eq!(devices[0].name, "Speakers (USB DAC)");
    assert!(devices.iter().all(|d| d.id != "{b}" && d.id != "{d}"));
    assert!(list_render_devices(&[]).is_empty());
}

#[test]
fn endpoint_probe_is_read_only_and_total() {
    assert!(!endpoint_has_apo(None, &[]));
    assert!(!endpoint_has_apo(None, &["DEADBEEF"]));
    assert!(!endpoint_has_apo(Some(&vec![]), &["DEADBEEF"]));
    assert!(!endpoint_has_apo(Some(&vec!["xdeadbeefx".to_string()]), &[]));
    assert!(endpoint_has_apo(Some(&vec!["".to_string(), "xdeadbeefx".to_string()]), &["1", "DEADBEEF"]));
}

#[test]
fn unsupported_names_the_missing_capability() {
    let e: BackendError<ApoBackendError> = BackendError::Unsupported("foreign-config disabling");
    assert!(e.message().unwrap().contains("foreign-config disabling"));
    let e = BackendError::backend(7u8);
    assert_eq!(e.message(), Err(&7u8));
}

/// A backend that has nothing but what every backend must have.
struct Bare;

impl EqBackend for Bare {
    type Failure = u8;

    fn capabilities(&self) -> Capabilities {
        Capabilities { min_write_spacing_ms: 250, owns_transitions: false, manages_foreign_config: true }
    }

    fn apply(&self, _configs: &[DeviceConfig]) -> Result<String, BackendError<u8>> {
        Err(BackendError::backend(1))
    }

    fn write_safe_state(&self) -> Result<(), BackendError<u8>> {
        Ok(())
    }

    fn startup_decision(&self, _expected_hash: Option<&str>) -> Result<StartupDecision, BackendError<u8>> {
        Ok(StartupDecision::FirstRun)
    }

    fn drives_endpoint(&self, _device_id: &str) -> bool {
        false
    }

    fn location(&self) -> String {
        "nowhere".to_string()
    }
}

#[test]
fn what_a_backend_does_not_offer_is_unsupported() {
    assert_eq!(Bare.applied_text(), None);
    let words = |e: BackendError<u8>| e.message().unwrap();
    assert_eq!(
        words(Bare.foreign_directives().unwrap_err()),
        "this backend does not support foreign-config inspection"
    );
    assert_eq!(
        words(Bare.disable_foreign_config().unwrap_err()),
        "this backend does not support foreign-config disabling"
    );
    assert_eq!(
        words(Bare.restore_foreign_config().unwrap_err()),
        "this backend does not support foreign-config restoring"
    );
}

#[test]
fn expand_tilts_passes_non_tilt_filters_through_unchanged() {
    let out = expand_tilts(&[filter(FilterType::Peaking, 1000.0, 3.0, 1.4)]);
    assert_eq!(out.len(), 1);
    assert_eq!(out[0].kind, FilterType::Peaking);
    assert_eq!(f(out[0].freq_hz), 1000.0);
    assert_eq!(f(out[0].gain_db), 3.0);
    assert_eq!(f(out[0].q), 1.4);
}

#[test]
fn expand_tilts_splits_into_complementary_shelves() {
    let out = expand_tilts(&[filter(FilterType::Tilt, 500.0, 6.0, 0.9)]);
    assert_eq!(out.len(), 2);
    assert_eq!(out[0].kind, FilterType::LowShelf);
    assert_eq!(f(out[0].freq_hz), 500.0);
    assert_eq!(f(out[0].gain_db), -3.0);
    assert_eq!(f(out[0].q), 0.9);
    assert_eq!(out[1].kind, FilterType::HighShelf);
    assert_eq!(f(out[1].freq_hz), 500.0);
    assert_eq!(f(out[1].gain_db), 3.0);
    assert_eq!(f(out[1].q), 0.9);
}

#[test]
fn expand_tilts_preserves_order_and_mixes_kinds() {
    let filters = [
        filter(FilterType::Peaking, 100.0, 1.0, 1.0),
        filter(FilterType::Tilt, 2000.0, -4.0, 0.7),
        filter(FilterType::Bandpass, 300.0, 0.0, 2.0),
    ];
    let out = expand_tilts(&filters);
    assert_eq!(out.len(), 4);
    assert_eq!(out[0].kind, FilterType::Peaking);
    assert_eq!(out[1].kind, FilterType::LowShelf);
    assert_eq!(f(out[1].gain_db), 2.0);
    assert_eq!(out[2].kind, FilterType::HighShelf);
    assert_eq!(f(out[2].gain_db), -2.0);
    assert_eq!(out[3].kind, FilterType::Bandpass);
}

#[test]
fn the_safe_state_is_planned_for_every_corrected_endpoint() {
    let mut m = temp_backend("safe-plan");
    m.apply(&[device(EP, -6.0), device(EP2, -3.0)]).unwrap();
    // Not a configuration file, so not an endpoint.
    m.files.insert("readme.txt".to_string(), "hands off".to_string());
    let names: Vec<String> = m.files.keys().cloned().collect();

    let plans = plan_safe_state(m.entries());
    let ids: Vec<&str> = plans.iter().map(|p| p.id.as_str()).collect();
    assert_eq!(ids, vec![EP2, EP], "in name order");
    for p in &plans {
        assert_eq!((p.file.clone(), p.text.clone()), write_config(&p.id, &safe_state()));
        assert!(is_safe_state(&p.config));
    }

    m.write_safe_state();
    assert_eq!(m.files.keys().cloned().collect::<Vec<String>>(), names, "no file comes and none goes");
    assert_eq!(m.files["readme.txt"], "hands off");
    assert_eq!(startup_decision(m.entries(), None), StartupDecision::SafeStateStillActive);
    assert!(plan_safe_state(vec![]).is_empty());
}

#[test]
fn a_safe_state_push_is_empty_and_forgets_the_slots() {
    let mut m = temp_backend("safe-push");
    m.apply(&[isolate(EP, 31.0)]).unwrap();
    assert!(m.backend.push_safe_state(EP, Live::NoChannel).unwrap().is_none());
    match m.backend.push_safe_state(EP, Live::Open(None)) {
        Err(ApoBackendError::NoSampleRate(id)) => assert_eq!(id, EP),
        other => panic!("{other:?}"),
    }
    let bands = to_apo_config(&isolate(EP, 31.0));
    let entering = m.backend.push_live(EP, &bands, Live::Open(Some(48_000)), true).unwrap().unwrap();
    assert!(entering.crossfade);
    let safe = m.backend.push_safe_state(EP, Live::Open(Some(44_100))).unwrap().unwrap();
    assert!(safe.bands.is_empty() && !safe.crossfade);
    assert_eq!(safe.rate, 44_100);
}

#[test]
fn applying_again_leaves_the_directory_as_it_is() {
    let mut m = temp_backend("again");
    m.files.insert("other.cfg".to_string(), "cageq-apo 1\n".to_string());
    let configs = [device(EP, -6.0), device(EP2, -3.0), device(EP, -7.0)];
    let first = m.apply(&configs).unwrap();
    let files = m.files.clone();
    assert_eq!(m.apply(&configs).unwrap(), first);
    assert_eq!(m.files, files);
    assert_eq!(f(parse(m.read(EP)).unwrap().preamp_db), -7.0, "the last of an endpoint stands");
    assert_eq!(m.files["other.cfg"], "cageq-apo 1\n");
    assert_eq!(startup_decision(m.entries(), Some(&first)), StartupDecision::ResumeTrusted);
}

#[test]
fn a_renamed_or_swapped_correction_changes_the_hash() {
    let mut m = temp_backend("told-apart");
    let first = m.apply(&[device(EP, -6.0), device(EP2, -3.0)]).unwrap();

    // The same two texts, the other way round.
    let mut swapped = temp_backend("swapped");
    let other = swapped.apply(&[device(EP, -3.0), device(EP2, -6.0)]).unwrap();
    assert_ne!(first, other);

    // The same text under another name.
    let text = m.files.remove(&config_file_name(EP2)).unwrap();
    m.files.insert(config_file_name(EP_LIVE_OK), text);
    assert_ne!(first, applied_hash(m.entries()));

    // A difference that does not show at four places is none.
    let mut near = temp_backend("near");
    let one = near.apply(&[device(EP, -6.0)]).unwrap();
    assert_eq!(near.apply(&[device(EP, -6.00001)]).unwrap(), one);
    assert_ne!(near.apply(&[device(EP, -6.0001)]).unwrap(), one);
}

#[test]
fn a_write_failure_names_the_path_then_the_cause() {
    let e = ApoBackendError::Write {
        path: PathBuf::from("a.cfg"),
        source: std::io::Error::other("disk full"),
    };
    assert_eq!(e.message(), "could not write a.cfg: disk full");
    assert_eq!(e.message_with("b.cfg", "denied"), "could not write b.cfg: denied");
    assert_eq!(
        ApoBackendError::BadEndpointId("x".into()).message_with("b.cfg", "denied"),
        "'x' is not an endpoint GUID"
    );
}

#[test]
fn each_tilt_costs_one_filter_more() {
    let peak = filter(FilterType::Peaking, 1000.0, 1.0, 1.0);
    let tilt = filter(FilterType::Tilt, 1000.0, 4.0, 0.7);
    assert_eq!(expand_tilts(&[tilt, peak, tilt]).len(), 5);
    assert_eq!(expand_tilts(&[peak]).len(), 1);
    assert_eq!(expand_tilts(&[]).len(), 0);
}
