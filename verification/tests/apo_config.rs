use cageq::apo_config::{load, load_from, parse, render, ApoConfig};
use cageq::double::Double;
use cageq::dsp::{Band, FilterKind, MAX_BANDS};
use cageq::endpoint::{
    config_file_name, config_path, is_valid_endpoint_id, normalize_endpoint_id, section_name,
};

const GOOD: &str = "cageq-apo 1\npreamp -6.5\nband PK 105 3.0 0.7\nband HSC 8000 -2.4 1.4\n";

fn d(x: f64) -> Double {
    Double { bits: x.to_bits() }
}

fn f(x: Double) -> f64 {
    f64::from_bits(x.bits)
}

#[test]
fn parses_a_well_formed_config() {
    let c = parse(GOOD).expect("should parse");
    assert_eq!(f(c.preamp_db), -6.5);
    assert_eq!(c.bands.len(), 2);
    assert_eq!(c.bands[0].kind, FilterKind::Peaking);
    assert_eq!(f(c.bands[0].freq_hz), 105.0);
    assert_eq!(c.bands[1].kind, FilterKind::HighShelf);
    assert_eq!(f(c.bands[1].gain_db), -2.4);
}

#[test]
fn tolerates_comments_blank_lines_and_crlf() {
    let text = "# CAGEq APO config\r\ncageq-apo 1\r\n\r\n# bass\r\nband PK 105 3.0 0.7\r\n";
    let c = parse(text).expect("should parse");
    assert_eq!(c.bands.len(), 1);
    assert_eq!(f(c.preamp_db), 0.0, "an omitted preamp is 0 dB, not an error");
}

#[test]
fn malformed_configs_are_rejected_whole() {
    let cases: &[(&str, &str)] = &[
        ("", "empty"),
        ("preamp -6\n", "no header"),
        ("cageq-apo 2\n", "future version"),
        ("cageq-apo x\n", "malformed version"),
        ("cageq-apo 1 extra\n", "trailing header tokens"),
        ("cageq-apo 1\nband XX 100 1 1\n", "unknown filter type"),
        ("cageq-apo 1\nband PK 100 1\n", "missing Q"),
        ("cageq-apo 1\nband PK 100 1 1 9\n", "trailing tokens"),
        ("cageq-apo 1\nband PK 0 1 1\n", "zero frequency"),
        ("cageq-apo 1\nband PK -100 1 1\n", "negative frequency"),
        ("cageq-apo 1\nband PK 100 1 0\n", "zero Q"),
        ("cageq-apo 1\nband PK 100 nan 1\n", "NaN gain"),
        ("cageq-apo 1\nband PK 100 inf 1\n", "infinite gain"),
        ("cageq-apo 1\npreamp\n", "preamp without a value"),
        ("cageq-apo 1\npreamp -3\npreamp -4\n", "duplicate preamp"),
        ("cageq-apo 1\nwobble 1\n", "unknown directive"),
    ];
    for (text, why) in cases {
        assert!(parse(text).is_err(), "should have rejected: {why}");
    }
}

#[test]
fn each_refusal_names_its_line_and_reason() {
    let cases: &[(&str, usize, &str)] = &[
        ("", 0, "empty or headerless file"),
        ("# only a comment\n", 0, "empty or headerless file"),
        ("preamp -6\n", 1, "expected a 'cageq-apo <version>' header"),
        ("\n\ncageq-apo 2\n", 3, "unsupported format version"),
        ("cageq-apo\n", 1, "malformed version"),
        ("cageq-apo 4294967296\n", 1, "malformed version"),
        ("cageq-apo 1 extra\n", 1, "trailing tokens after the header"),
        ("cageq-apo 1\nband XX 100 1 1\n", 2, "unknown filter type"),
        ("cageq-apo 1\nband PK 100 1\n", 2, "missing or malformed number"),
        ("cageq-apo 1\nband PK 100 1 1 9\n", 2, "trailing tokens"),
        ("cageq-apo 1\nband PK 0 1 1\n", 2, "frequency must be positive"),
        ("cageq-apo 1\nband PK 100 1 0\n", 2, "Q must be positive"),
        ("cageq-apo 1\nband PK 100 nan 1\n", 2, "value must be finite"),
        ("cageq-apo 1\npreamp -3\npreamp -4\n", 3, "duplicate preamp"),
        ("cageq-apo 1\nwobble 1\n", 2, "unknown directive"),
    ];
    for (text, line, reason) in cases {
        let e = parse(text).unwrap_err();
        assert_eq!((e.line, e.reason), (*line, *reason), "{text:?}");
    }
}

#[test]
fn more_than_max_bands_is_rejected() {
    let mut text = String::from("cageq-apo 1\n");
    for i in 0..=MAX_BANDS {
        text.push_str(&format!("band PK {} 1.0 1.0\n", 100 + i));
    }
    let err = parse(&text).expect_err("should reject");
    assert_eq!(err.reason, "too many bands");
}

#[test]
fn render_round_trips_through_parse() {
    let original = parse(GOOD).unwrap();
    let reparsed = parse(&render(&original)).expect("rendered config must parse");
    assert_eq!(reparsed.preamp_db, original.preamp_db);
    assert_eq!(reparsed.bands.len(), original.bands.len());
    for (a, b) in reparsed.bands.iter().zip(&original.bands) {
        assert_eq!(a.kind, b.kind);
        assert!((f(a.freq_hz) - f(b.freq_hz)).abs() < 1e-4);
        assert!((f(a.gain_db) - f(b.gain_db)).abs() < 1e-4);
        assert!((f(a.q) - f(b.q)).abs() < 1e-4);
    }
}

#[test]
fn rendering_writes_four_places() {
    let c = ApoConfig {
        preamp_db: d(-6.5),
        bands: vec![
            Band { kind: FilterKind::Peaking, freq_hz: d(105.0), gain_db: d(3.0), q: d(0.7) },
            Band { kind: FilterKind::Bandpass, freq_hz: d(31.25), gain_db: d(0.0), q: d(1.0 / 3.0) },
        ],
    };
    assert_eq!(
        render(&c),
        "cageq-apo 1\npreamp -6.5000\nband PK 105.0000 3.0000 0.7000\nband BP 31.2500 0.0000 0.3333\n"
    );
}

#[test]
fn a_frequency_that_vanishes_at_four_places_is_not_read_back() {
    let c = ApoConfig {
        preamp_db: d(0.0),
        bands: vec![Band { kind: FilterKind::Peaking, freq_hz: d(0.00001), gain_db: d(1.0), q: d(1.0) }],
    };
    assert_eq!(parse(&render(&c)).unwrap_err().reason, "frequency must be positive");
}

#[test]
fn an_absent_file_is_not_an_error() {
    assert_eq!(load_from(None), Ok(None));
    assert_eq!(load("{6cafe423-cde5-4ec1-a1e2-e3fcec778349}", None), Ok(None));
    let c = load("{6cafe423-cde5-4ec1-a1e2-e3fcec778349}", Some(GOOD)).unwrap().unwrap();
    assert_eq!(c.bands.len(), 2);
}

#[test]
fn endpoint_ids_that_could_escape_the_config_dir_are_refused() {
    assert!(is_valid_endpoint_id("{6cafe423-cde5-4ec1-a1e2-e3fcec778349}"));
    for bad in ["", "..", r"..\..\windows\system32", "a/b", "a\\b", "a:b", &"f".repeat(65)] {
        assert!(!is_valid_endpoint_id(bad), "should refuse {bad:?}");
    }
    let e = load("../escape", Some(GOOD)).unwrap_err();
    assert_eq!((e.line, e.reason), (0, "implausible endpoint id"));
}

#[test]
fn config_path_is_per_endpoint_under_programdata() {
    let p = config_path(None, "{6cafe423-cde5-4ec1-a1e2-e3fcec778349}");
    assert_eq!(p.last().unwrap(), "{6cafe423-cde5-4ec1-a1e2-e3fcec778349}.cfg");
    assert_eq!(p, vec!["C:\\ProgramData", "CAGEq", "apo", "{6cafe423-cde5-4ec1-a1e2-e3fcec778349}.cfg"]);
    let p = config_path(Some("D:\\Data".to_string()), "x");
    assert_eq!(p[0], "D:\\Data");
}

#[test]
fn implausible_endpoint_ids_do_not_become_section_names() {
    for bad in ["", "../escape", "a\\b", &"f".repeat(200)] {
        assert!(section_name(bad).is_none(), "accepted {bad:?}");
    }
    assert_eq!(section_name("{6cafe423}").unwrap(), "Global\\CAGEqApo_{6cafe423}");
}

#[test]
fn ids_come_to_one_form() {
    let want = Some("{6cafe423-cde5-4ec1-a1e2-e3fcec778349}".to_string());
    assert_eq!(normalize_endpoint_id("6CAFE423-CDE5-4EC1-A1E2-E3FCEC778349"), want);
    assert_eq!(normalize_endpoint_id("{6cafe423-cde5-4ec1-a1e2-e3fcec778349}"), want);
    assert_eq!(normalize_endpoint_id("not-a-guid"), None);
    assert_eq!(normalize_endpoint_id("{6cafe423-cde5-4ec1-a1e2-e3fcec77834}"), None);
    assert_eq!(config_file_name("{x}"), "{x}.cfg");
}

#[test]
fn what_was_read_back_is_written_the_same() {
    let c = ApoConfig {
        preamp_db: d(-6.123456789),
        bands: vec![
            Band { kind: FilterKind::Peaking, freq_hz: d(105.00005), gain_db: d(-0.00001), q: d(0.70715) },
            Band { kind: FilterKind::HighShelf, freq_hz: d(1e17), gain_db: d(1.0 / 3.0), q: d(0.00015) },
            // Half way between two neighbours at four places.
            Band { kind: FilterKind::LowShelf, freq_hz: d(0.03125), gain_db: d(-2.15625), q: d(5.0) },
        ],
    };
    let text = render(&c);
    let back = parse(&text).expect("rendered config must parse");
    assert_eq!(render(&back), text);
    for (a, b) in c.bands.iter().zip(&back.bands) {
        assert_eq!(a.kind, b.kind);
        for (x, y) in [(a.freq_hz, b.freq_hz), (a.gain_db, b.gain_db), (a.q, b.q)] {
            assert!((f(x) - f(y)).abs() < 1e-4);
        }
    }
    assert!((f(c.preamp_db) - f(back.preamp_db)).abs() < 1e-4);
}
