use cageq::config_writer::{
    block_body, block_state, parse_begin_hash, read_block_state, render_cage_block,
    splice_cage_block,
    write_managed_block, BlockState, Filter, FilterType, ReadFailure, WriteError,
};
use cageq::double::Double;
use cageq::fingerprint::{content_hash, file_hash, hash_bytes, short_hex};

const BEGIN_PREFIX: &str = "#CAGE:BEGIN";
const END_MARKER: &str = "#CAGE:END";

fn d(x: f64) -> Double {
    Double { bits: x.to_bits() }
}

fn sample() -> Vec<Filter> {
    vec![
        Filter { kind: FilterType::LowShelf, freq_hz: d(105.0), gain_db: d(3.0), q: d(0.7) },
        Filter { kind: FilterType::Peaking, freq_hz: d(2500.0), gain_db: d(-2.4), q: d(1.4) },
    ]
}

#[test]
fn hash_round_trips_through_a_rendered_block() {
    let (block, stored) = render_cage_block(d(-9.0), &sample());
    let chars: Vec<char> = block.chars().collect();
    let body: String = block_body(&chars).iter().collect();
    assert_eq!(content_hash(&body), stored);
}

#[test]
fn creates_a_section_in_an_empty_file() {
    let (block, _) = render_cage_block(d(-9.0), &sample());
    let out = splice_cage_block("", "USB DAC", &block);
    assert!(out.contains("Device: USB DAC"));
    assert!(out.contains(BEGIN_PREFIX) && out.contains(END_MARKER));
}

#[test]
fn leaves_a_foreign_device_block_untouched() {
    let foreign =
        "Device: Other Speakers\nPreamp: -3.0 dB\nFilter: ON PK Fc 1000 Hz Gain 2 dB Q 1\n";
    let (block, _) = render_cage_block(d(-9.0), &sample());
    let out = splice_cage_block(foreign, "USB DAC", &block);
    // The foreign section must survive verbatim as a substring.
    assert!(out.contains(foreign), "foreign content was altered");
}

#[test]
fn replaces_in_place_rather_than_duplicating() {
    let (b1, _) = render_cage_block(d(-9.0), &sample());
    let once = splice_cage_block("", "USB DAC", &b1);
    // A second write with different values must yield exactly one block.
    let (b2, _) = render_cage_block(d(-6.0), &sample());
    let twice = splice_cage_block(&once, "USB DAC", &b2);
    assert_eq!(twice.matches(BEGIN_PREFIX).count(), 1);
    assert!(twice.contains("Preamp: -6.0 dB"));
    assert!(!twice.contains("Preamp: -9.0 dB"));
}

#[test]
fn error_displays_a_message_and_chains_its_cause() {
    let e = WriteError::NotUtf8;
    assert!(e.message().contains("UTF-8"));
    assert!(e.source().is_none()); // originates here, no underlying cause

    // The Io variant should expose its wrapped error as the source.
    let io = std::io::Error::new(std::io::ErrorKind::PermissionDenied, "denied");
    let wrapped = WriteError::from(io);
    assert!(wrapped.source().is_some());
    assert!(wrapped.message().contains("denied"));
    assert_eq!(
        WriteError::NoParentDir.message(),
        "config.txt path has no parent directory for the temp file"
    );
}

#[test]
fn writes_a_fresh_file_then_reads_back_a_matching_hash() {
    // The file does not exist yet: the write must create it.
    let (text, hash) =
        write_managed_block(true, Err(ReadFailure::NotFound), "USB DAC", d(-9.0), &sample())
            .unwrap();

    assert!(text.contains("Device: USB DAC"));
    assert!(text.contains("#CAGE:BEGIN"));
    assert!(text.contains("Filter 1: ON LSC Fc 105 Hz Gain 3.0 dB Q 0.70"));
    assert!(text.contains("Filter 2: ON PK Fc 2500 Hz Gain -2.4 dB Q 1.40"));

    match read_block_state(Ok(text), "USB DAC").unwrap() {
        BlockState::Present { stored_hash, actual_hash } => {
            assert_eq!(stored_hash.as_deref(), Some(hash.as_str()));
            assert_eq!(actual_hash, hash);
        }
        BlockState::Absent => panic!("expected a present block right after writing it"),
    }
}

#[test]
fn a_foreign_device_block_survives_a_real_write() {
    let foreign = "Device: Other\nFilter: ON PK Fc 1000 Hz Gain 2 dB Q 1\n";
    let (text, _) =
        write_managed_block(true, Ok(foreign.to_string()), "USB DAC", d(-9.0), &sample()).unwrap();
    assert!(text.contains(foreign), "foreign device block was not preserved verbatim");
    assert!(text.contains("Device: USB DAC"));
}

#[test]
fn a_second_write_replaces_in_place_on_disk() {
    let (text, _) =
        write_managed_block(true, Err(ReadFailure::NotFound), "USB DAC", d(-9.0), &sample())
            .unwrap();
    let (text, _) = write_managed_block(true, Ok(text), "USB DAC", d(-6.0), &sample()).unwrap();

    assert_eq!(text.matches("#CAGE:BEGIN").count(), 1, "must not accumulate blocks");
    assert!(text.contains("Preamp: -6.0 dB"));
    assert!(!text.contains("Preamp: -9.0 dB"));
}

#[test]
fn state_is_absent_for_a_device_never_written() {
    let text = "Device: Someone Else\nPreamp: -3.0 dB\n";
    assert!(matches!(
        read_block_state(Ok(text.to_string()), "USB DAC").unwrap(),
        BlockState::Absent
    ));
    assert!(matches!(
        read_block_state(Err(ReadFailure::NotFound), "USB DAC").unwrap(),
        BlockState::Absent
    ));
}

#[test]
fn a_non_utf8_config_fails_loudly_with_notutf8() {
    let err = write_managed_block(true, Err(ReadFailure::InvalidData), "USB DAC", d(-9.0), &sample())
        .unwrap_err();
    assert!(matches!(err, WriteError::NotUtf8), "expected NotUtf8, got {err:?}");
    let err = read_block_state(Err(ReadFailure::InvalidData), "USB DAC").unwrap_err();
    assert!(matches!(err, WriteError::NotUtf8), "expected NotUtf8, got {err:?}");
}

#[test]
fn a_path_without_a_parent_and_a_failed_read_are_told_apart() {
    let err = write_managed_block(false, Err(ReadFailure::NotFound), "USB DAC", d(0.0), &sample())
        .unwrap_err();
    assert!(matches!(err, WriteError::NoParentDir));
    let io = std::io::Error::new(std::io::ErrorKind::PermissionDenied, "denied");
    let err =
        write_managed_block(true, Err(ReadFailure::Other(io)), "USB DAC", d(0.0), &sample())
            .unwrap_err();
    assert!(matches!(err, WriteError::Io(_)));
}

#[test]
fn a_tampered_body_no_longer_matches_its_hash() {
    let (text, hash) =
        write_managed_block(true, Err(ReadFailure::NotFound), "USB DAC", d(-9.0), &sample())
            .unwrap();
    let edited = text.replace("Preamp: -9.0 dB", "Preamp: -1.0 dB");
    match block_state(&edited, "USB DAC") {
        BlockState::Present { stored_hash, actual_hash } => {
            assert_eq!(stored_hash.as_deref(), Some(hash.as_str()));
            assert_ne!(actual_hash, hash);
        }
        BlockState::Absent => panic!("the block is still there"),
    }
}

#[test]
fn two_devices_keep_their_own_blocks() {
    let (text, _) =
        write_managed_block(true, Err(ReadFailure::NotFound), "USB DAC", d(-9.0), &sample())
            .unwrap();
    let (text, other) =
        write_managed_block(true, Ok(text), "Headset", d(-4.5), &[]).unwrap();
    assert_eq!(text.matches("#CAGE:BEGIN").count(), 2);
    match block_state(&text, "Headset") {
        BlockState::Present { stored_hash, actual_hash } => {
            assert_eq!(stored_hash, Some(other.clone()));
            assert_eq!(actual_hash, other);
        }
        BlockState::Absent => panic!("the second block is there"),
    }
    assert!(matches!(block_state(&text, "USB DAC"), BlockState::Present { .. }));
}

#[test]
fn the_digest_is_sha_256() {
    // The published digests of the empty text and of "abc".
    assert_eq!(content_hash(""), "e3b0c442");
    assert_eq!(content_hash("abc"), "ba7816bf");
    assert_eq!(hash_bytes(b"abc"), "ba7816bf");
    assert_eq!(short_hex(&[0x01, 0x0a, 0xf0, 0xff, 0x33]), "010af0ff");
    let whole = file_hash(Some(b"abc")).unwrap();
    assert_eq!(whole.len(), 32);
    assert_eq!(&whole[28..], &[0xf2, 0x00, 0x15, 0xad]);
}

#[test]
fn file_hash_distinguishes_content_not_missing_files() {
    let hash_a = file_hash(Some(b"CAGEqApo build 1")).expect("a real file must hash");
    assert_eq!(
        hash_a,
        file_hash(Some(b"CAGEqApo build 1")).unwrap(),
        "identical content must hash equal across paths"
    );
    assert_ne!(
        hash_a,
        file_hash(Some(b"CAGEqApo build 2")).unwrap(),
        "different content must hash different"
    );
    assert_eq!(file_hash(None), None, "a missing file is None, not an error");
}

fn hashes(text: &str, device: &str) -> Option<(Option<String>, String)> {
    match block_state(text, device) {
        BlockState::Present { stored_hash, actual_hash } => Some((stored_hash, actual_hash)),
        BlockState::Absent => None,
    }
}

#[test]
fn a_device_line_that_is_not_ended_is_ended_first() {
    let (text, hash) =
        write_managed_block(true, Ok("Device: d".to_string()), "d", d(-9.0), &sample()).unwrap();
    assert!(text.starts_with("Device: d\n#CAGE:BEGIN"), "{text}");
    assert_eq!(hashes(&text, "d"), Some((Some(hash.clone()), hash)));
    let (text, hash) = write_managed_block(true, Ok(text), "d", d(-3.0), &[]).unwrap();
    assert_eq!(text.matches("#CAGE:BEGIN").count(), 1);
    assert_eq!(hashes(&text, "d"), Some((Some(hash.clone()), hash)));
}

#[test]
fn a_foreign_line_that_is_not_ended_is_ended_first() {
    let (text, hash) =
        write_managed_block(true, Ok("Preamp: -1 dB".to_string()), "d", d(-9.0), &sample())
            .unwrap();
    assert!(text.starts_with("Preamp: -1 dB\n"), "{text}");
    assert!(text.contains("\nDevice: d\n#CAGE:BEGIN"), "{text}");
    assert_eq!(hashes(&text, "d"), Some((Some(hash.clone()), hash)));
}

#[test]
fn a_block_that_is_empty_claims_no_hash() {
    assert_eq!(parse_begin_hash(&[]), None);
    let chars: Vec<char> = "#CAGE:BEGIN hash=1234abcd\n#CAGE:END\n".chars().collect();
    assert_eq!(parse_begin_hash(&chars), Some("1234abcd".to_string()));
}

#[test]
fn writing_one_device_leaves_the_state_of_the_others() {
    let (text, _) =
        write_managed_block(true, Err(ReadFailure::NotFound), "USB DAC", d(-9.0), &sample())
            .unwrap();
    let before = hashes(&text, "USB DAC");
    assert!(before.is_some());
    let (text, _) = write_managed_block(true, Ok(text), "Headset", d(-4.5), &[]).unwrap();
    let (text, _) = write_managed_block(true, Ok(text), "Headset", d(-5.0), &sample()).unwrap();
    assert_eq!(hashes(&text, "USB DAC"), before);
    assert_eq!(hashes(&text, "Speakers"), None);
}

#[test]
fn a_block_at_the_very_end_keeps_its_state() {
    let (text, hash) =
        write_managed_block(true, Err(ReadFailure::NotFound), "USB DAC", d(-9.0), &sample())
            .unwrap();
    let cut = text.trim_end().to_string();
    assert!(cut.ends_with(END_MARKER));
    let state = Some((Some(hash.clone()), hash));
    assert_eq!(hashes(&cut, "USB DAC"), state);
    let (text, _) = write_managed_block(true, Ok(cut), "Headset", d(-4.5), &[]).unwrap();
    assert_eq!(hashes(&text, "USB DAC"), state);
    assert!(hashes(&text, "Headset").is_some());
}

#[test]
fn a_message_holds_its_cause() {
    let io = || WriteError::Io(std::io::Error::other("disk on fire"));
    assert_eq!(io().message(), "config.txt I/O error: disk on fire");
    assert_eq!(io().message_with("no room"), "config.txt I/O error: no room");
    assert_eq!(
        WriteError::NoParentDir.message_with("no room"),
        "config.txt path has no parent directory for the temp file"
    );
    assert_eq!(WriteError::NotUtf8.message_with("no room"), WriteError::NotUtf8.message());
}
