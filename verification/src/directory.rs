//! What writing files does to the configuration directory, and what holds of it afterwards.
//!
//! A directory is its entries, no two of one name. Names are told apart exactly.
use crate::apo_backend;
use crate::apo_config;
use crate::apo_config::ConfigView;
use crate::applied_files;
use crate::applied_files::FileView;
use crate::backend::StartupDecision;
use crate::backend_laws;
use crate::decimal;
use crate::double;
use crate::dsp::{Band, MAX_BANDS};
use crate::endpoint;
use vstd::prelude::*;
use vstd::seq_lib::*;
use vstd::utf8::*;

verus! {

/// Entries of a directory: no two have one name, and a name that is text is that text's bytes.
pub open spec fn is_directory(es: Seq<FileView>) -> bool {
    &&& backend_laws::names_differ(es)
    &&& forall|i: int|
        0 <= i < es.len() ==> ((#[trigger] es[i]).label matches Some(s) ==> es[i].name
            == encode_utf8(s))
}

/// The entry of a file, by its name and text.
pub open spec fn entry_of(file: Seq<char>, text: Seq<char>) -> FileView {
    FileView { name: encode_utf8(file), label: Some(file), body: Some(text) }
}

/// Does an entry have this name?
pub open spec fn has_name(es: Seq<FileView>, name: Seq<u8>) -> bool {
    exists|i: int| 0 <= i < es.len() && (#[trigger] es[i]).name == name
}

/// Where the entry of this name is.
pub open spec fn place(es: Seq<FileView>, name: Seq<u8>) -> int {
    choose|i: int| 0 <= i < es.len() && (#[trigger] es[i]).name == name
}

/// A directory once a file has been written, in place of the one of its name.
pub open spec fn written(es: Seq<FileView>, file: Seq<char>, text: Seq<char>) -> Seq<FileView> {
    let f = entry_of(file, text);
    if has_name(es, f.name) {
        es.update(place(es, f.name), f)
    } else {
        es.push(f)
    }
}

/// A directory once some files have been written, one after the other.
pub open spec fn all_written(es: Seq<FileView>, fs: Seq<(Seq<char>, Seq<char>)>) -> Seq<FileView>
    decreases fs.len(),
{
    if fs.len() == 0 {
        es
    } else {
        written(all_written(es, fs.drop_last()), fs.last().0, fs.last().1)
    }
}

/// What becomes of an entry when some files are written: the last of its name, or itself.
spec fn last_of(fs: Seq<(Seq<char>, Seq<char>)>, x: FileView) -> FileView
    decreases fs.len(),
{
    if fs.len() == 0 {
        x
    } else if encode_utf8(fs.last().0) == x.name {
        entry_of(fs.last().0, fs.last().1)
    } else {
        last_of(fs.drop_last(), x)
    }
}

pub proof fn lemma_written(es: Seq<FileView>, file: Seq<char>, text: Seq<char>)
    requires
        is_directory(es),
    ensures
        ({
            let d = written(es, file, text);
            let f = entry_of(file, text);
            &&& is_directory(d)
            &&& has_name(d, f.name)
            &&& d.len() == (if has_name(es, f.name) {
                es.len()
            } else {
                es.len() + 1
            })
            &&& forall|i: int|
                0 <= i < es.len() ==> #[trigger] d[i] == (if es[i].name == f.name {
                    f
                } else {
                    es[i]
                })
            &&& !has_name(es, f.name) ==> d.last() == f
        }),
{
    let d = written(es, file, text);
    let f = entry_of(file, text);
    if has_name(es, f.name) {
        let p = place(es, f.name);
        assert(0 <= p < es.len() && es[p].name == f.name);
        assert(d[p] == f);
        assert forall|i: int| 0 <= i < es.len() implies #[trigger] d[i] == (if es[i].name
            == f.name {
            f
        } else {
            es[i]
        }) by {
            if es[i].name == f.name {
                assert(es[i].name == es[p].name);
            }
        }
        assert forall|i: int, k: int|
            0 <= i < d.len() && 0 <= k < d.len() && (#[trigger] d[i]).name == (
            #[trigger] d[k]).name implies i == k by {
            assert(es[i].name == d[i].name);
            assert(es[k].name == d[k].name);
        }
    } else {
        assert(d[es.len() as int] == f);
        assert forall|i: int, k: int|
            0 <= i < d.len() && 0 <= k < d.len() && (#[trigger] d[i]).name == (
            #[trigger] d[k]).name implies i == k by {
            if i < es.len() && k < es.len() {
                assert(es[i].name == es[k].name);
            } else if i < es.len() {
                assert(es[i].name == f.name);
            } else if k < es.len() {
                assert(es[k].name == f.name);
            }
        }
        assert forall|i: int| 0 <= i < es.len() implies #[trigger] d[i] == (if es[i].name
            == f.name {
            f
        } else {
            es[i]
        }) by {
            assert(d[i] == es[i]);
        }
    }
    assert forall|i: int| 0 <= i < d.len() implies ((#[trigger] d[i]).label matches Some(s)
        ==> d[i].name == encode_utf8(s)) by {
        if i < es.len() {
            assert(es[i].label matches Some(s) ==> es[i].name == encode_utf8(s));
        }
    }
}

proof fn lemma_all_written(es: Seq<FileView>, fs: Seq<(Seq<char>, Seq<char>)>)
    requires
        is_directory(es),
    ensures
        ({
            let d = all_written(es, fs);
            &&& is_directory(d)
            &&& es.len() <= d.len()
            &&& forall|i: int|
                0 <= i < es.len() ==> (#[trigger] d[i]).name == es[i].name && d[i] == last_of(
                    fs,
                    es[i],
                )
            &&& forall|i: int| 0 <= i < d.len() ==> last_of(fs, #[trigger] d[i]) == d[i]
            &&& forall|j: int| 0 <= j < fs.len() ==> has_name(d, encode_utf8((#[trigger] fs[j]).0))
            &&& (forall|j: int|
                0 <= j < fs.len() ==> has_name(es, encode_utf8((#[trigger] fs[j]).0))) ==> d.len()
                == es.len()
        }),
    decreases fs.len(),
{
    if fs.len() > 0 {
        let before = fs.drop_last();
        let (file, text) = fs.last();
        let c = all_written(es, before);
        let d = all_written(es, fs);
        let f = entry_of(file, text);
        lemma_all_written(es, before);
        lemma_written(c, file, text);
        assert forall|i: int| 0 <= i < es.len() implies (#[trigger] d[i]).name == es[i].name && d[i]
            == last_of(fs, es[i]) by {
            assert(c[i].name == es[i].name);
            assert(c[i] == last_of(before, es[i]));
        }
        assert forall|i: int| 0 <= i < d.len() implies last_of(fs, #[trigger] d[i]) == d[i] by {
            if d[i].name != f.name {
                assert(i < c.len());
                assert(d[i] == c[i]);
                assert(last_of(before, c[i]) == c[i]);
            } else if i < c.len() {
                assert(d[i] == f);
            } else {
                assert(d[i] == d.last());
            }
        }
        assert forall|j: int| 0 <= j < fs.len() implies has_name(
            d,
            encode_utf8((#[trigger] fs[j]).0),
        ) by {
            if j < before.len() {
                assert(before[j] == fs[j]);
                let name = encode_utf8(before[j].0);
                assert(has_name(c, name));
                let p = place(c, name);
                assert(c[p].name == name);
                assert(d[p].name == name);
            }
        }
        if forall|j: int| 0 <= j < fs.len() ==> has_name(es, encode_utf8((#[trigger] fs[j]).0)) {
            assert forall|j: int| 0 <= j < before.len() implies has_name(
                es,
                encode_utf8((#[trigger] before[j]).0),
            ) by {
                assert(fs[j] == before[j]);
            }
            assert(fs[fs.len() - 1] == fs.last());
            assert(has_name(es, f.name));
            let p = place(es, f.name);
            assert(es[p].name == f.name);
            assert(c[p].name == f.name);
        }
    }
}

/// What becomes of an entry is one of the files of its name, or itself where there is none.
proof fn lemma_last_of(fs: Seq<(Seq<char>, Seq<char>)>, x: FileView) -> (j: int)
    ensures
        -1 <= j < fs.len(),
        j >= 0 ==> encode_utf8(fs[j].0) == x.name && last_of(fs, x) == entry_of(fs[j].0, fs[j].1),
        j < 0 ==> last_of(fs, x) == x,
        forall|k: int| j < k < fs.len() ==> encode_utf8((#[trigger] fs[k]).0) != x.name,
    decreases fs.len(),
{
    if fs.len() == 0 {
        -1
    } else if encode_utf8(fs.last().0) == x.name {
        fs.len() - 1
    } else {
        let before = fs.drop_last();
        let j = lemma_last_of(before, x);
        assert forall|k: int| j < k < fs.len() implies encode_utf8((#[trigger] fs[k]).0)
            != x.name by {
            if k < before.len() {
                assert(before[k] == fs[k]);
            }
        }
        j
    }
}

/// Writing the same files again changes nothing.
pub proof fn law_writing_again_changes_nothing(
    es: Seq<FileView>,
    fs: Seq<(Seq<char>, Seq<char>)>,
)
    requires
        is_directory(es),
    ensures
        all_written(all_written(es, fs), fs) == all_written(es, fs),
{
    let d = all_written(es, fs);
    lemma_all_written(es, fs);
    lemma_all_written(d, fs);
    assert(all_written(d, fs) =~= d);
}

pub proof fn lemma_encoded_apart(a: Seq<char>, b: Seq<char>)
    ensures
        encode_utf8(a + b) == encode_utf8(a) + encode_utf8(b),
    decreases a.len(),
{
    if a.len() == 0 {
        assert(a + b =~= b);
        assert(encode_utf8(a) + encode_utf8(b) =~= encode_utf8(b));
    } else {
        assert((a + b).drop_first() =~= a.drop_first() + b);
        lemma_encoded_apart(a.drop_first(), b);
        let head = encode_scalar(a[0] as u32);
        assert(head + (encode_utf8(a.drop_first()) + encode_utf8(b)) =~= (head + encode_utf8(
            a.drop_first(),
        )) + encode_utf8(b));
    }
}

proof fn lemma_cfg_bytes()
    ensures
        encode_utf8(".cfg"@) == seq![0x2eu8, 0x63u8, 0x66u8, 0x67u8],
        ".cfg"@.len() == 4,
{
    reveal_strlit(".cfg");
    let s = ".cfg"@;
    assert(is_ascii_chars(s));
    is_ascii_chars_encode_utf8(s);
    let b = encode_utf8(s);
    assert(b[0] == s[0] as u8 && b[1] == s[1] as u8 && b[2] == s[2] as u8 && b[3] == s[3] as u8);
    assert(b =~= seq![0x2eu8, 0x63u8, 0x66u8, 0x67u8]);
}

/// An endpoint's file is a configuration file.
pub proof fn lemma_file_is_config(id: Seq<char>)
    requires
        id.len() > 0,
    ensures
        applied_files::is_config(encode_utf8(endpoint::file_name(id))),
{
    lemma_cfg_bytes();
    lemma_encoded_apart(id, ".cfg"@);
    let b = encode_utf8(endpoint::file_name(id));
    assert(encode_utf8(id).len() > 0);
    assert(b.skip(b.len() - 4) =~= encode_utf8(".cfg"@));
}

/// A configuration file whose name is text is an endpoint's: its name is something, then `.cfg`.
proof fn lemma_config_is_file(s: Seq<char>)
    requires
        applied_files::is_config(encode_utf8(s)),
    ensures
        s.len() > 4,
        endpoint::file_name(s.take(s.len() - 4)) == s,
{
    let b = encode_utf8(s);
    let k = b.len() - 4;
    lemma_cfg_bytes();
    encode_utf8_valid_utf8(s);
    encode_utf8_decode_utf8(s);
    encode_utf8_decode_utf8(".cfg"@);
    assert(b.skip(k)[0] == 0x2e);
    assert(b[k] == 0x2e);
    assert(!is_continuation_byte(b[k]));
    is_char_boundary_iff_not_is_continuation_byte(b, k);
    valid_utf8_split(b, k);
    decode_utf8_split(b, k);
    let head = decode_utf8(b.subrange(0, k));
    assert(b.subrange(k, b.len() as int) =~= b.skip(k));
    assert(s == head + ".cfg"@);
    assert(head.len() > 0);
    assert(s.take(s.len() - 4) =~= head);
}

/// Two endpoints' files have one name only where they are one endpoint.
proof fn lemma_files_apart(a: Seq<char>, b: Seq<char>)
    requires
        encode_utf8(endpoint::file_name(a)) == encode_utf8(endpoint::file_name(b)),
    ensures
        a == b,
{
    let x = endpoint::file_name(a);
    let y = endpoint::file_name(b);
    encode_utf8_decode_utf8(x);
    encode_utf8_decode_utf8(y);
    assert(x == y);
    lemma_cfg_bytes();
    assert(x.take(x.len() - 4) =~= a);
    assert(y.take(y.len() - 4) =~= b);
}

pub proof fn lemma_listed_has(es: Seq<FileView>, x: FileView)
    ensures
        applied_files::listed(es).contains(x) <==> es.contains(x) && applied_files::is_config(
            x.name,
        ),
{
    broadcast use group_to_multiset_ensures;

    backend_laws::lemma_listed_counts(es, x);
    assert(applied_files::listed(es).to_multiset().count(x) > 0 <==> applied_files::listed(
        es,
    ).contains(x));
    assert(es.to_multiset().count(x) > 0 <==> es.contains(x));
}

/// The files that applying corrections writes: each device's, by its endpoint and the engine's
/// configuration for it.
pub open spec fn correction_files(ds: Seq<(Seq<char>, ConfigView)>) -> Seq<(Seq<char>, Seq<char>)> {
    ds.map_values(
        |d: (Seq<char>, ConfigView)|
            (
                endpoint::file_name(endpoint::normal_id(d.0)->0),
                apo_backend::file_text(d.1),
            ),
    )
}

/// Can every one of these corrections be applied and read back: is each device an endpoint, and does
/// each configuration fit the engine?
pub open spec fn applicable(ds: Seq<(Seq<char>, ConfigView)>) -> bool {
    forall|j: int|
        0 <= j < ds.len() ==> {
            let (device, c) = #[trigger] ds[j];
            &&& endpoint::normal_id(device) is Some
            &&& c.bands.len() <= MAX_BANDS
            &&& double::is_finite(c.preamp_db)
            &&& forall|i: int|
                0 <= i < c.bands.len() ==> apo_config::writable_band(#[trigger] c.bands[i])
        }
}

/// Applying corrections, as a whole. Every device's file is there afterwards, the last where one
/// device comes twice, and the engine reads it back, each number as it stands at four places. A file
/// that belongs to none of the devices is untouched. Applying the same again leaves the same
/// directory, and so the same hash; and that hash is trusted at the next start.
pub proof fn law_applied_corrections_are_there(
    es: Seq<FileView>,
    ds: Seq<(Seq<char>, ConfigView)>,
)
    requires
        is_directory(es),
        applicable(ds),
    ensures
        ({
            let fs = correction_files(ds);
            let after = all_written(es, fs);
            &&& is_directory(after)
            &&& forall|j: int|
                0 <= j < ds.len() && (forall|k: int|
                    j < k < ds.len() ==> endpoint::normal_id((#[trigger] ds[k]).0)
                        != endpoint::normal_id(ds[j].0)) ==> {
                    let (device, c) = #[trigger] ds[j];
                    let file = endpoint::file_name(endpoint::normal_id(device)->0);
                    let text = apo_backend::file_text(c);
                    &&& after.contains(entry_of(file, text))
                    &&& apo_config::meaning(text) == Ok::<ConfigView, (nat, Seq<char>)>(
                        ConfigView {
                            preamp_db: decimal::at_places(c.preamp_db, 4),
                            bands: c.bands.map_values(|b: Band| apo_config::written_band(b)),
                        },
                    )
                }
            &&& forall|i: int|
                0 <= i < es.len() && (forall|j: int|
                    0 <= j < fs.len() ==> encode_utf8((#[trigger] fs[j]).0) != es[i].name)
                    ==> after.contains(#[trigger] es[i])
            &&& all_written(after, fs) == after
            &&& applied_files::applied(all_written(after, fs)) == applied_files::applied(after)
            &&& ds.len() > 0 ==> applied_files::verdict(after, Some(applied_files::applied(after)))
                == StartupDecision::ResumeTrusted
        }),
{
    let fs = correction_files(ds);
    let after = all_written(es, fs);
    lemma_all_written(es, fs);
    law_writing_again_changes_nothing(es, fs);
    assert forall|j: int|
        0 <= j < ds.len() && (forall|k: int|
            j < k < ds.len() ==> endpoint::normal_id((#[trigger] ds[k]).0) != endpoint::normal_id(
                ds[j].0,
            )) implies {
        let (device, c) = #[trigger] ds[j];
        let file = endpoint::file_name(endpoint::normal_id(device)->0);
        let text = apo_backend::file_text(c);
        &&& after.contains(entry_of(file, text))
        &&& apo_config::meaning(text) == Ok::<ConfigView, (nat, Seq<char>)>(
            ConfigView {
                preamp_db: decimal::at_places(c.preamp_db, 4),
                bands: c.bands.map_values(|b: Band| apo_config::written_band(b)),
            },
        )
    } by {
        let (device, c) = ds[j];
        backend_laws::law_written_file_parses(c);
        assert(fs[j] == (
            endpoint::file_name(endpoint::normal_id(device)->0),
            apo_backend::file_text(c),
        ));
        let name = encode_utf8(fs[j].0);
        assert(has_name(after, name));
        let p = place(after, name);
        assert(after[p].name == name);
        let m = lemma_last_of(fs, after[p]);
        assert(last_of(fs, after[p]) == after[p]);
        if m < j {
            assert(encode_utf8(fs[j].0) != name);
        } else if m > j {
            let other = endpoint::normal_id(ds[m].0)->0;
            assert(fs[m].0 == endpoint::file_name(other));
            lemma_files_apart(other, endpoint::normal_id(device)->0);
            assert(endpoint::normal_id(ds[m].0) != endpoint::normal_id(ds[j].0));
        }
        assert(m == j);
    }
    assert forall|i: int|
        0 <= i < es.len() && (forall|j: int|
            0 <= j < fs.len() ==> encode_utf8((#[trigger] fs[j]).0) != es[i].name) implies
        after.contains(#[trigger] es[i]) by {
        let m = lemma_last_of(fs, es[i]);
        assert(after[i] == es[i]);
    }
    if ds.len() > 0 {
        let id = endpoint::normal_id(ds[0].0)->0;
        assert(fs[0].0 == endpoint::file_name(id));
        let name = encode_utf8(fs[0].0);
        assert(has_name(after, name));
        let p = place(after, name);
        assert(after[p].name == name);
        endpoint::law_normal_id_is_normal(ds[0].0);
        lemma_file_is_config(id);
        lemma_listed_has(after, after[p]);
        backend_laws::law_own_state_is_trusted(after);
    }
}

/// The files that the safe state writes.
pub open spec fn safe_files(es: Seq<FileView>) -> Seq<(Seq<char>, Seq<char>)> {
    applied_files::endpoints_of(applied_files::listed(es)).map_values(
        |id: Seq<char>|
            (endpoint::file_name(id), apo_backend::file_text(apo_backend::silence())),
    )
}

/// A directory with every configuration file silenced, and nothing else changed.
pub open spec fn silenced(es: Seq<FileView>) -> Seq<FileView> {
    es.map_values(
        |f: FileView|
            if applied_files::is_config(f.name) {
                FileView {
                    body: Some(apo_backend::file_text(apo_backend::silence())),
                    ..f
                }
            } else {
                f
            },
    )
}

proof fn lemma_endpoints_of_files(fs: Seq<FileView>)
    requires
        forall|i: int|
            0 <= i < fs.len() ==> ((#[trigger] fs[i]).label matches Some(s) && s.len() > 4
                && endpoint::file_name(s.take(s.len() - 4)) == s),
    ensures
        applied_files::endpoints_of(fs).len() == fs.len(),
        forall|i: int|
            0 <= i < fs.len() ==> Some(
                endpoint::file_name(#[trigger] applied_files::endpoints_of(fs)[i]),
            ) == fs[i].label,
    decreases fs.len(),
{
    if fs.len() > 0 {
        let before = fs.drop_last();
        assert forall|i: int| 0 <= i < before.len() implies ((#[trigger] before[i]).label matches Some(
            s,
        ) && s.len() > 4 && endpoint::file_name(s.take(s.len() - 4)) == s) by {
            assert(before[i] == fs[i]);
        }
        lemma_endpoints_of_files(before);
        assert(fs[fs.len() - 1] == fs.last());
        let ids = applied_files::endpoints_of(fs);
        assert forall|i: int| 0 <= i < fs.len() implies Some(endpoint::file_name(#[trigger] ids[i]))
            == fs[i].label by {
            if i < before.len() {
                assert(ids[i] == applied_files::endpoints_of(before)[i]);
                assert(before[i] == fs[i]);
            }
        }
    }
}

/// The safe state, as a whole. Every configuration file is silenced and no other entry is touched: no
/// file comes and none goes. Each silenced file reads back as silence, and the next start says that
/// the safe state is still on, unless its own hash was remembered. A configuration file whose name is
/// not text names no endpoint, so none may be there.
pub proof fn law_safe_state_silences_every_file(es: Seq<FileView>, expected: Option<Seq<char>>)
    requires
        is_directory(es),
        forall|i: int|
            0 <= i < es.len() && applied_files::is_config((#[trigger] es[i]).name)
                ==> es[i].label is Some,
    ensures
        ({
            let after = all_written(es, safe_files(es));
            &&& after == silenced(es)
            &&& apo_config::meaning(apo_backend::file_text(apo_backend::silence())) == Ok::<
                ConfigView,
                (nat, Seq<char>),
            >(apo_backend::silence())
            &&& applied_files::listed(es).len() > 0 && expected != Some(
                applied_files::applied(after),
            ) ==> applied_files::verdict(after, expected) == StartupDecision::SafeStateStillActive
        }),
{
    let fs = safe_files(es);
    let after = all_written(es, fs);
    let files = applied_files::listed(es);
    let ids = applied_files::endpoints_of(files);
    let quiet = apo_backend::file_text(apo_backend::silence());
    backend_laws::law_safe_state_reads_back();
    assert forall|i: int| 0 <= i < files.len() implies ((#[trigger] files[i]).label matches Some(s)
        && s.len() > 4 && endpoint::file_name(s.take(s.len() - 4)) == s && files[i].name
        == encode_utf8(s) && has_name(es, files[i].name)) by {
        let f = files[i];
        assert(files.contains(f));
        lemma_listed_has(es, f);
        let k = choose|k: int| 0 <= k < es.len() && es[k] == f;
        assert(es[k].label is Some);
        lemma_config_is_file(f.label->0);
        assert(es[k].name == f.name);
    }
    lemma_endpoints_of_files(files);
    assert forall|j: int| 0 <= j < fs.len() implies has_name(es, encode_utf8((#[trigger] fs[j]).0))
        && Some(fs[j].0) == files[j].label && fs[j].1 == quiet by {
        assert(fs[j].0 == endpoint::file_name(ids[j]));
        assert(files[j].label is Some);
    }
    lemma_all_written(es, fs);
    assert forall|i: int| 0 <= i < es.len() implies #[trigger] after[i] == silenced(es)[i] by {
        let x = es[i];
        let m = lemma_last_of(fs, x);
        if applied_files::is_config(x.name) {
            assert(es.contains(x));
            lemma_listed_has(es, x);
            let j = choose|j: int| 0 <= j < files.len() && files[j] == x;
            assert(Some(fs[j].0) == files[j].label);
            assert(encode_utf8(fs[j].0) == x.name);
            assert(m >= 0);
            encode_utf8_decode_utf8(fs[m].0);
            encode_utf8_decode_utf8(fs[j].0);
            assert(fs[m].1 == quiet);
        } else if m >= 0 {
            assert(Some(fs[m].0) == files[m].label);
            assert(files.contains(files[m]));
            lemma_listed_has(es, files[m]);
        }
    }
    assert(after =~= silenced(es));
    if files.len() > 0 && expected != Some(applied_files::applied(after)) {
        let now = applied_files::listed(after);
        assert forall|i: int| 0 <= i < now.len() implies (#[trigger] now[i]).body == Some(quiet) by {
            let f = now[i];
            assert(now.contains(f));
            lemma_listed_has(after, f);
            let k = choose|k: int| 0 <= k < after.len() && after[k] == f;
            assert(after[k] == silenced(es)[k]);
        }
        let f = files[0];
        assert(files.contains(f));
        lemma_listed_has(es, f);
        let k = choose|k: int| 0 <= k < es.len() && es[k] == f;
        lemma_listed_has(after, after[k]);
        assert(after[k] == silenced(es)[k]);
        assert(after.contains(after[k]));
        assert(now.len() > 0);
        backend_laws::law_safe_state_is_recognised(after, expected);
    }
}

} // verus!
