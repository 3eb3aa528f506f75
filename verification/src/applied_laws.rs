//! What is applied: what startup makes of it, how a correction is carried into the engine's terms, and
//! what is said when something goes wrong.
use crate::apo_backend;
use crate::apo_backend::{ApoBackendError, SlotMemory};
use crate::applied_files;
use crate::applied_files::FileView;
use crate::apo_config::ConfigView;
use crate::backend;
use crate::backend::{Filter, StartupDecision};
use crate::config_writer;
use crate::config_writer::WriteError;
use crate::control;
use crate::control::RawCoeffs;
use crate::decimal;
use crate::directory;
use crate::double;
use crate::double::Double;
use crate::dsp::Band;
use crate::endpoint;
use crate::setup;
use crate::setup::SetupError;
use crate::slots;
use crate::slots::SlotAssignment;
use crate::text;
use vstd::prelude::*;

verus! {

/// A configuration file is one whose name is something and then `.cfg`, byte for byte.
pub proof fn law_config_files_end_in_cfg(name: Seq<u8>)
    ensures
        applied_files::is_config(name) <==> name.len() > 4 && name[name.len() - 4] == 0x2e && name[
        name.len() - 3] == 0x63 && name[name.len() - 2] == 0x66 && name[name.len() - 1] == 0x67,
{
    let t = name.skip(name.len() - 4);
    let want = seq![0x2eu8, 0x63u8, 0x66u8, 0x67u8];
    if name.len() > 4 {
        assert(t[0] == name[name.len() - 4] && t[1] == name[name.len() - 3]);
        assert(t[2] == name[name.len() - 2] && t[3] == name[name.len() - 1]);
        if t[0] == 0x2e && t[1] == 0x63 && t[2] == 0x66 && t[3] == 0x67 {
            assert(t =~= want);
        }
    }
}

/// What startup decides. A first run exactly where there is no configuration file; trust exactly where
/// the remembered hash is that of what is applied; the safe state exactly where neither holds and every
/// configuration file silences; and a change from outside in every other case.
pub proof fn law_startup_verdict(es: Seq<FileView>, expected: Option<Seq<char>>)
    ensures
        ({
            let any = exists|i: int|
                0 <= i < es.len() && applied_files::is_config((#[trigger] es[i]).name);
            let known = expected == Some(applied_files::applied(es));
            let quiet = forall|i: int|
                0 <= i < es.len() && applied_files::is_config((#[trigger] es[i]).name)
                    ==> applied_files::holds_silence(es[i]);
            match applied_files::verdict(es, expected) {
                StartupDecision::FirstRun => !any,
                StartupDecision::ResumeTrusted => any && known,
                StartupDecision::SafeStateStillActive => any && !known && quiet,
                StartupDecision::ExternallyModified => any && !known && !quiet,
            }
        }),
{
    let fs = applied_files::listed(es);
    if fs.len() > 0 {
        let f = fs[0];
        assert(fs.contains(f));
        directory::lemma_listed_has(es, f);
        let k = choose|k: int| 0 <= k < es.len() && es[k] == f;
        assert(applied_files::is_config(es[k].name));
    }
    assert forall|i: int|
        0 <= i < es.len() && applied_files::is_config((#[trigger] es[i]).name) implies exists|k: int|
        0 <= k < fs.len() && #[trigger] fs[k] == es[i] by {
        assert(es.contains(es[i]));
        directory::lemma_listed_has(es, es[i]);
    }
    assert forall|i: int| 0 <= i < fs.len() implies exists|k: int|
        0 <= k < es.len() && es[k] == #[trigger] fs[i] && applied_files::is_config(es[k].name) by {
        assert(fs.contains(fs[i]));
        directory::lemma_listed_has(es, fs[i]);
        let k = choose|k: int| 0 <= k < es.len() && es[k] == fs[i];
        assert(es[k] == fs[i]);
    }
    if forall|i: int| 0 <= i < fs.len() ==> applied_files::holds_silence(#[trigger] fs[i]) {
        assert forall|i: int|
            0 <= i < es.len() && applied_files::is_config(
                (#[trigger] es[i]).name,
            ) implies applied_files::holds_silence(es[i]) by {
            let k = choose|k: int| 0 <= k < fs.len() && #[trigger] fs[k] == es[i];
            assert(applied_files::holds_silence(fs[k]));
        }
    } else {
        let i = choose|i: int|
            0 <= i < fs.len() && !applied_files::holds_silence(#[trigger] fs[i]);
        let k = choose|k: int|
            0 <= k < es.len() && es[k] == fs[i] && applied_files::is_config(es[k].name);
        assert(!applied_files::holds_silence(es[k]));
    }
}

/// Silence is no filters and a preamp of hardly more than minus 120 decibels; the safe state silences.
pub proof fn law_silence_is_deep(c: ConfigView)
    ensures
        apo_backend::silences(c) ==> c.bands.len() == 0 && double::at_most(
            c.preamp_db,
            Double { bits: 0xc05d_f999_9999_999a },
        ),
        c.bands.len() > 0 ==> !apo_backend::silences(c),
        double::less(Double { bits: 0xc05d_f999_9999_999a }, c.preamp_db)
            ==> !apo_backend::silences(c),
        c.bands.len() == 0 && double::at_most(c.preamp_db, Double { bits: 0xc05e_0000_0000_0000 })
            ==> apo_backend::silences(c),
        apo_backend::silences(apo_backend::silence()),
        apo_backend::silence().preamp_db == (Double { bits: 0xc05e_0000_0000_0000 }),
{
    assert(double::unsigned(Double { bits: 0xc05e_0000_0000_0000 }) == 0x405e_0000_0000_0000);
    assert(double::unsigned(Double { bits: 0xc05d_f999_9999_999a }) == 0x405d_f999_9999_999a);
    double::lemma_ordered(0x405d_f999_9999_999a, 0x405e_0000_0000_0000);
}

/// A filter is carried into the engine's terms as it is: its numbers are kept, and each kind stands for
/// itself.
pub proof fn law_filters_are_carried_over(f: Filter)
    ensures
        apo_backend::band_of(f).freq_hz == f.freq_hz,
        apo_backend::band_of(f).gain_db == f.gain_db,
        apo_backend::band_of(f).q == f.q,
        apo_backend::band_of(f).kind is Peaking <==> f.kind is Peaking,
        apo_backend::band_of(f).kind is LowShelf <==> f.kind is LowShelf,
        apo_backend::band_of(f).kind is HighShelf <==> f.kind is HighShelf,
{
}

/// A device's configuration keeps its preamp, and has a band for every filter that its own come to, in
/// order, each carried over by itself.
pub proof fn law_configuration_is_carried_over(preamp_db: Double, filters: Seq<Filter>, i: int)
    ensures
        ({
            let c = apo_backend::engine_config(preamp_db, filters);
            let fs = backend::expanded(filters);
            &&& c.preamp_db == preamp_db
            &&& c.bands.len() == fs.len()
            &&& 0 <= i < fs.len() ==> {
                &&& c.bands[i].freq_hz == fs[i].freq_hz
                &&& c.bands[i].gain_db == fs[i].gain_db
                &&& c.bands[i].q == fs[i].q
                &&& c.bands[i].kind is Peaking <==> fs[i].kind is Peaking
                &&& c.bands[i].kind is LowShelf <==> fs[i].kind is LowShelf
                &&& c.bands[i].kind is HighShelf <==> fs[i].kind is HighShelf
            }
        }),
{
}

/// What is remembered of an endpoint is what its first entry holds, whoever else has one; and nothing
/// where it has none.
pub proof fn law_endpoints_are_remembered_apart(
    entries: Seq<(String, SlotAssignment)>,
    id: Seq<char>,
    k: int,
)
    requires
        0 <= k <= entries.len(),
        forall|j: int| 0 <= j < k ==> (#[trigger] entries[j]).0@ != id,
        k < entries.len() ==> entries[k].0@ == id,
    ensures
        k < entries.len() ==> apo_backend::recalled(entries, id).slots == entries[k].1.slots@
            && apo_backend::recalled(entries, id).was_isolate == entries[k].1.was_isolate
            && apo_backend::recalled(entries, id).isolate_slot == entries[k].1.isolate_slot,
        k == entries.len() ==> apo_backend::recalled(entries, id).slots.len() == 0
            && !apo_backend::recalled(entries, id).was_isolate && apo_backend::recalled(
            entries,
            id,
        ).isolate_slot is None,
    decreases k,
{
    if k > 0 {
        let rest = entries.skip(1);
        assert forall|j: int| 0 <= j < k - 1 implies (#[trigger] rest[j]).0@ != id by {
            assert(rest[j] == entries[j + 1]);
        }
        assert(entries[0].0@ != id);
        law_endpoints_are_remembered_apart(rest, id, k - 1);
    }
}

/// A push sends each slot's own coefficients, in slot order, and lets a gap pass its input through.
pub proof fn law_slots_are_sent_in_order(coeffs: Seq<Option<RawCoeffs>>, i: int)
    requires
        0 <= i < coeffs.len(),
    ensures
        apo_backend::filled(coeffs).len() == coeffs.len(),
        coeffs[i] matches Some(c) ==> apo_backend::filled(coeffs)[i] == c,
        coeffs[i] is None ==> control::to_coeffs(apo_backend::filled(coeffs)[i])
            == control::passthrough(),
{
}

proof fn lemma_contained_in_front(a: Seq<char>, b: Seq<char>, p: Seq<char>)
    requires
        text::contains(a, p),
    ensures
        text::contains(a + b, p),
{
    let i = choose|i: int| text::stands_at(a, p, i);
    assert((a + b).subrange(i, i + p.len()) =~= a.subrange(i, i + p.len()));
    assert(text::stands_at(a + b, p, i));
}

proof fn lemma_contained_between(a: Seq<char>, p: Seq<char>, b: Seq<char>)
    ensures
        text::contains(a + p + b, p),
{
    let s = a + p + b;
    assert(s.subrange(a.len() as int, (a.len() + p.len()) as int) =~= p);
    assert(text::stands_at(s, p, a.len() as int));
}

/// What is shown leaves no file out: each stands there under its name, with all that it holds.
pub proof fn law_every_file_is_shown(fs: Seq<FileView>, i: int)
    requires
        0 <= i < fs.len(),
    ensures
        fs[i].label matches Some(name) ==> fs[i].body matches Some(body) ==> text::contains(
            applied_files::shown(fs),
            "# "@ + name + seq!['\n'] + body + seq!['\n'],
        ),
    decreases fs.len(),
{
    let last = fs.last();
    if fs[i].label is Some && fs[i].body is Some {
        let part = "# "@ + fs[i].label->0 + seq!['\n'] + fs[i].body->0 + seq!['\n'];
        let before = applied_files::shown(fs.drop_last());
        if i == fs.len() - 1 {
            assert(before + part + Seq::empty() =~= applied_files::shown(fs));
            lemma_contained_between(before, part, Seq::empty());
        } else {
            law_every_file_is_shown(fs.drop_last(), i);
            let name = match last.label {
                Some(s) => s,
                None => "?"@,
            };
            let body = match last.body {
                Some(s) => s,
                None => Seq::empty(),
            };
            let rest = "# "@ + name + seq!['\n'] + body + seq!['\n'];
            assert(before + rest =~= applied_files::shown(fs));
            lemma_contained_in_front(before, rest, part);
        }
    }
}

/// Every endpoint with a file is found: the endpoint of a file that is named for it is that endpoint.
pub proof fn law_every_corrected_endpoint_is_found(fs: Seq<FileView>, i: int, id: Seq<char>)
    requires
        0 <= i < fs.len(),
        fs[i].label == Some(endpoint::file_name(id)),
        id.len() > 0,
    ensures
        applied_files::endpoints_of(fs).contains(id),
    decreases fs.len(),
{
    reveal_strlit(".cfg");
    let s = endpoint::file_name(id);
    assert(s.take(s.len() - 4) =~= id);
    let all = applied_files::endpoints_of(fs);
    if i == fs.len() - 1 {
        assert(all.last() == id);
    } else {
        law_every_corrected_endpoint_is_found(fs.drop_last(), i, id);
        let before = applied_files::endpoints_of(fs.drop_last());
        let k = choose|k: int| 0 <= k < before.len() && before[k] == id;
        assert(all[k] == id);
    }
}

/// No endpoint is made up: each that is found has a file that is named for it, with an ending of four
/// characters.
pub proof fn law_no_endpoint_is_made_up(fs: Seq<FileView>, id: Seq<char>)
    requires
        applied_files::endpoints_of(fs).contains(id),
    ensures
        id.len() > 0,
        exists|i: int|
            0 <= i < fs.len() && ((#[trigger] fs[i]).label matches Some(s) && s.len() == id.len() + 4
                && s.take(id.len() as int) == id),
    decreases fs.len(),
{
    let all = applied_files::endpoints_of(fs);
    let k = choose|k: int| 0 <= k < all.len() && all[k] == id;
    let n = fs.len() - 1;
    let front = fs.drop_last();
    let before = applied_files::endpoints_of(front);
    if applied_files::endpoint_of(fs.last()) == Some(id) {
        assert(fs[n].label is Some);
    } else {
        assert(k < before.len());
        assert(before[k] == id);
        law_no_endpoint_is_made_up(front, id);
        let i = choose|i: int|
            0 <= i < front.len() && ((#[trigger] front[i]).label matches Some(s) && s.len()
                == id.len() + 4 && s.take(id.len() as int) == id);
        assert(fs[i] == front[i]);
    }
}

/// An error of the effect's backend names the endpoint that it is about, or the path and the cause.
pub proof fn law_backend_errors_name_their_subject(
    e: ApoBackendError,
    path: Seq<char>,
    cause: Seq<char>,
)
    ensures
        ({
            let m = apo_backend::message_of(e, path, cause);
            &&& e is BadEndpointId ==> text::contains(m, e->BadEndpointId_0@)
            &&& e is NoSampleRate ==> text::contains(m, e->NoSampleRate_0@)
            &&& e is LivePushRefused ==> text::contains(m, e->LivePushRefused_0@)
            &&& e is Write ==> text::contains(m, path) && text::contains(m, cause)
        }),
{
    match e {
        ApoBackendError::BadEndpointId(id) => {
            lemma_contained_between("'"@, id@, "' is not an endpoint GUID"@);
        },
        ApoBackendError::NoSampleRate(id) => {
            lemma_contained_between(
                "the APO on "@,
                id@,
                " published no sample rate — try again shortly"@,
            );
        },
        ApoBackendError::LivePushRefused(id) => {
            lemma_contained_between(
                "the correction for "@,
                id@,
                " was refused by CAGEq's own engine (too many bands, or an unsafe filter) — saved to disk, but not live"@,
            );
        },
        ApoBackendError::Write { path: _, source: _ } => {
            let m = "could not write "@ + path + ": "@ + cause;
            lemma_contained_between("could not write "@, path, ": "@ + cause);
            assert("could not write "@ + path + (": "@ + cause) =~= m);
            lemma_contained_between("could not write "@ + path + ": "@, cause, Seq::empty());
            assert("could not write "@ + path + ": "@ + cause + Seq::empty() =~= m);
        },
    }
}

/// An error of the setup names the endpoint, the call and its cause, or the code that it is about; and
/// what the helper said is passed on as it is.
pub proof fn law_setup_errors_name_their_subject(e: SetupError, cause: Seq<char>)
    ensures
        ({
            let m = setup::message_of(e, cause);
            &&& e is BadEndpointId ==> text::contains(m, e->BadEndpointId_0@)
            &&& e is NoSuchEndpoint ==> text::contains(m, e->NoSuchEndpoint_0@)
            &&& e is Win32 ==> text::starts_with(m, e->Win32_0@) && text::contains(m, cause)
            &&& e is HelperFailed ==> text::contains(
                m,
                decimal::signed_digits(e->HelperFailed_0 as int),
            )
            &&& e is HelperSaid ==> m == e->HelperSaid_0@
        }),
{
    match e {
        SetupError::BadEndpointId(id) => {
            lemma_contained_between("'"@, id@, "' is not an endpoint GUID"@);
        },
        SetupError::NoSuchEndpoint(id) => {
            lemma_contained_between("no endpoint "@, id@, " on this machine"@);
        },
        SetupError::Win32(what, _) => {
            let m = what@ + " failed: "@ + cause;
            assert(m.take(what@.len() as int) =~= what@);
            lemma_contained_between(what@ + " failed: "@, cause, Seq::empty());
            assert(what@ + " failed: "@ + cause + Seq::empty() =~= m);
        },
        SetupError::HelperFailed(code) => {
            let d = decimal::signed_digits(code as int);
            let head = "setup helper exited with code "@;
            lemma_contained_between(head, d, Seq::empty());
            assert(head + d + Seq::empty() =~= head + d);
        },
        _ => {},
    }
}

/// A failure to write the shared configuration is told apart from a place that it cannot be written to
/// and from text that cannot be read, and carries its cause.
pub proof fn law_write_errors_are_told_apart(e: WriteError, cause: Seq<char>)
    ensures
        ({
            let m = config_writer::message_of(e, cause);
            &&& e is Io <==> text::starts_with(m, "config.txt I/O error: "@)
            &&& e is NoParentDir <==> text::starts_with(m, "config.txt path"@)
            &&& e is NotUtf8 <==> text::starts_with(m, "config.txt is not"@)
            &&& e is Io ==> text::contains(m, cause)
        }),
{
    reveal_strlit("config.txt I/O error: ");
    reveal_strlit("config.txt path");
    reveal_strlit("config.txt is not");
    reveal_strlit("config.txt path has no parent directory for the temp file");
    reveal_strlit("config.txt is not valid UTF-8 (CAGE requires UTF-8; re-save it as UTF-8)");
    let m = config_writer::message_of(e, cause);
    let io = "config.txt I/O error: "@;
    let place = "config.txt path"@;
    let read = "config.txt is not"@;
    assert(io[11] == 'I' && place[11] == 'p' && read[11] == 'i');
    if text::starts_with(m, io) {
        assert(m.take(io.len() as int)[11] == m[11]);
    }
    if text::starts_with(m, place) {
        assert(m.take(place.len() as int)[11] == m[11]);
    }
    if text::starts_with(m, read) {
        assert(m.take(read.len() as int)[11] == m[11]);
    }
    match e {
        WriteError::Io(_) => {
            assert(m[11] == 'I');
            assert(m.take(io.len() as int) =~= io);
            lemma_contained_between(io, cause, Seq::empty());
            assert(io + cause + Seq::empty() =~= m);
        },
        WriteError::NoParentDir => {
            assert(m[11] == 'p');
            assert(m.take(place.len() as int) =~= place);
        },
        WriteError::NotUtf8 => {
            assert(m[11] == 'i');
            assert(m.take(read.len() as int) =~= read);
        },
    }
}

/// The marker is found however far it is indented, and only lines that begin with it, white space
/// aside, are taken out; every other line stays, in order.
pub proof fn law_only_marker_lines_are_taken_out(ls: Seq<Seq<char>>, l: Seq<char>, c: char)
    ensures
        text::is_space(c) ==> apo_backend::is_hash_line(seq![c] + l) == apo_backend::is_hash_line(l),
        l.len() > 0 && !text::is_space(l[0]) ==> (apo_backend::is_hash_line(l)
            <==> text::starts_with(l, "# cageq-hash="@)),
        apo_backend::other_lines(ls) == ls.filter(|x: Seq<char>| !apo_backend::is_hash_line(x)),
    decreases ls.len(),
{
    assert((seq![c] + l).skip(1) =~= l);
    reveal(Seq::filter);
    if ls.len() > 0 {
        law_only_marker_lines_are_taken_out(ls.drop_last(), l, c);
    }
}

/// A push is remembered: every slot's identity, whether it was the isolate audition, and where that
/// stood; an ordinary correction leaves no audition to come back to.
pub proof fn law_push_is_remembered(m: SlotMemory, bands: Seq<Band>, i: int)
    requires
        m.slots.len() < usize::MAX,
    ensures
        ({
            let r = apo_backend::remembering(m, bands);
            let out = apo_backend::slots_for(m, bands);
            let alone = bands.len() == 1 && bands[0].kind is Bandpass;
            &&& r.was_isolate <==> alone
            &&& r.isolate_slot is Some <==> alone
            &&& alone ==> (r.isolate_slot->0 as int) < out.len() && out[r.isolate_slot->0 as int]
                == Some(0int)
            &&& r.slots.len() == out.len()
            &&& 0 <= i < out.len() ==> (out[i] matches Some(j) ==> r.slots[i] == Some(
                slots::key_of(bands[j]),
            ))
            &&& 0 <= i < out.len() && i < m.slots.len() ==> (out[i] is None ==> r.slots[i]
                == m.slots[i])
        }),
{
    if bands.len() == 1 && bands[0].kind is Bandpass {
        slots::law_isolate_has_one_slot(m.slots, m.isolate_slot, bands[0]);
    }
}

/// A push crosses as a fade exactly where the audition begins, ends, or moves to another slot.
pub proof fn law_fades_follow_the_audition(m: SlotMemory, bands: Seq<Band>)
    ensures
        ({
            let alone = bands.len() == 1 && bands[0].kind is Bandpass;
            let moved = apo_backend::remembering(m, bands).isolate_slot != m.isolate_slot;
            &&& alone && !m.was_isolate ==> apo_backend::crosses(m, bands)
            &&& !alone && m.was_isolate ==> apo_backend::crosses(m, bands)
            &&& alone && m.was_isolate ==> (apo_backend::crosses(m, bands) <==> moved)
            &&& !alone && !m.was_isolate ==> !apo_backend::crosses(m, bands)
        }),
{
}

} // verus!
