//! The configuration files that are there: what is applied right now, its hash, and what that says at
//! startup.
use crate::apo_backend;
use crate::apo_backend::Planned;
use crate::apo_config;
use crate::apo_config::ApoConfig;
use crate::backend;
use crate::backend::StartupDecision;
use crate::endpoint;
use crate::fingerprint;
use crate::setup;
use crate::text;
use vstd::prelude::*;
use vstd::slice::*;
use vstd::utf8::*;

verus! {

/// An entry of the configuration directory.
#[derive(Debug, Clone)]
pub struct ConfigFile {
    /// The bytes of its name, as the platform orders names.
    pub name: Vec<u8>,
    /// Its name, where that is text.
    pub label: Option<String>,
    /// What it holds, where that could be read as text.
    pub body: Option<String>,
}

/// An entry of the configuration directory.
pub struct FileView {
    pub name: Seq<u8>,
    pub label: Option<Seq<char>>,
    pub body: Option<Seq<char>>,
}

impl View for ConfigFile {
    type V = FileView;

    open spec fn view(&self) -> FileView {
        FileView {
            name: self.name@,
            label: match self.label {
                Some(s) => Some(s@),
                None => None,
            },
            body: match self.body {
                Some(s) => Some(s@),
                None => None,
            },
        }
    }
}

/// Entries as views.
pub open spec fn views(v: Seq<ConfigFile>) -> Seq<FileView> {
    v.map_values(|f: ConfigFile| f@)
}

/// Is this the name of a configuration file: something, then `.cfg`?
pub open spec fn is_config(name: Seq<u8>) -> bool {
    name.len() > 4 && name.skip(name.len() - 4) == seq![0x2eu8, 0x63u8, 0x66u8, 0x67u8]
}

/// Files in name order with one more put in its place, after those of the same name.
pub open spec fn inserted(s: Seq<FileView>, x: FileView) -> Seq<FileView>
    decreases s.len(),
{
    if s.len() == 0 || text::bytes_le(s.last().name, x.name) {
        s.push(x)
    } else {
        inserted(s.drop_last(), x).push(s.last())
    }
}

/// The configuration files among the entries of a directory, in name order.
pub open spec fn listed(es: Seq<FileView>) -> Seq<FileView>
    decreases es.len(),
{
    if es.len() == 0 {
        Seq::empty()
    } else if is_config(es.last().name) {
        inserted(listed(es.drop_last()), es.last())
    } else {
        listed(es.drop_last())
    }
}

fn named_config(name: &Vec<u8>) -> (r: bool)
    ensures
        r == is_config(name@),
{
    let n: usize = name.len();
    if n <= 4 {
        return false;
    }
    let r: bool = name[n - 4] == 0x2e && name[n - 3] == 0x63 && name[n - 2] == 0x66 && name[n - 1]
        == 0x67;
    proof {
        let t = name@.skip(n - 4);
        let want = seq![0x2eu8, 0x63u8, 0x66u8, 0x67u8];
        if r {
            assert(t =~= want);
        } else if t == want {
            assert(t[0] == 0x2e && t[1] == 0x63 && t[2] == 0x66 && t[3] == 0x67);
        }
    }
    r
}

proof fn lemma_inserted_at(s: Seq<FileView>, x: FileView, p: int)
    requires
        0 <= p <= s.len(),
        p == 0 || text::bytes_le(s[p - 1].name, x.name),
        forall|k: int| p <= k < s.len() ==> !text::bytes_le((#[trigger] s[k]).name, x.name),
    ensures
        inserted(s, x) == s.insert(p, x),
    decreases s.len(),
{
    if p < s.len() {
        assert(!text::bytes_le(s[s.len() - 1].name, x.name));
        lemma_inserted_at(s.drop_last(), x, p);
        assert(s.drop_last().insert(p, x).push(s.last()) =~= s.insert(p, x));
    } else {
        assert(s.push(x) =~= s.insert(p, x));
    }
}

/// The configuration files among the entries of a directory, in name order: the aggregate hash must
/// not depend on how the file system happens to enumerate.
pub fn config_files(entries: Vec<ConfigFile>) -> (r: Vec<ConfigFile>)
    ensures
        views(r@) == listed(views(entries@)),
{
    let ghost all = views(entries@);
    let mut out: Vec<ConfigFile> = Vec::new();
    let mut i: usize = 0;
    assert(all.take(0) =~= Seq::empty());
    assert(views(out@) =~= Seq::empty());
    while i < entries.len()
        invariant
            i <= entries.len(),
            all == views(entries@),
            views(out@) == listed(all.take(i as int)),
        decreases entries.len() - i,
    {
        proof {
            assert(all.take(i + 1).drop_last() =~= all.take(i as int));
            assert(all.take(i + 1).last() == entries@[i as int]@);
        }
        if named_config(&entries[i].name) {
            let x: ConfigFile = copied(&entries[i]);
            let mut p: usize = out.len();
            while p > 0 && !text::is_le(out[p - 1].name.as_slice(), x.name.as_slice())
                invariant
                    p <= out.len(),
                    forall|k: int|
                        p <= k < out.len() ==> !text::bytes_le((#[trigger] out@[k])@.name, x@.name),
                decreases p,
            {
                p = p - 1;
            }
            proof {
                let s = views(out@);
                assert(p > 0 ==> s[p - 1] == out@[p - 1]@);
                assert forall|k: int| p <= k < s.len() implies !text::bytes_le(
                    (#[trigger] s[k]).name,
                    x@.name,
                ) by {
                    assert(s[k] == out@[k]@);
                }
                lemma_inserted_at(s, x@, p as int);
                assert(views(out@.insert(p as int, x)) =~= s.insert(p as int, x@));
            }
            out.insert(p, x);
        }
        i = i + 1;
    }
    assert(all.take(all.len() as int) =~= all);
    out
}

fn copied(f: &ConfigFile) -> (r: ConfigFile)
    ensures
        r@ == f@,
{
    let mut name: Vec<u8> = Vec::new();
    push_bytes(&mut name, f.name.as_slice());
    assert(name@ =~= f.name@);
    let label: Option<String> = match &f.label {
        Some(s) => Some(s.clone()),
        None => None,
    };
    let body: Option<String> = match &f.body {
        Some(s) => Some(s.clone()),
        None => None,
    };
    ConfigFile { name, label, body }
}

fn push_bytes(out: &mut Vec<u8>, bytes: &[u8])
    ensures
        final(out)@ == old(out)@ + bytes@,
{
    let mut i: usize = 0;
    assert(out@ =~= old(out)@ + bytes@.take(0));
    while i < bytes.len()
        invariant
            i <= bytes.len(),
            out@ == old(out)@ + bytes@.take(i as int),
        decreases bytes.len() - i,
    {
        out.push(bytes[i]);
        assert(out@ =~= old(out)@ + bytes@.take(i + 1));
        i = i + 1;
    }
    assert(bytes@.take(bytes@.len() as int) =~= bytes@);
}

/// The bytes of one file that the aggregate hash covers: its name and its text without the hash
/// marker, each where it can be had.
pub open spec fn hashed_part(f: FileView) -> Seq<u8> {
    (match f.label {
        Some(s) => encode_utf8(s),
        None => Seq::empty(),
    }) + match f.body {
        Some(s) => encode_utf8(apo_backend::stripped(s)),
        None => Seq::empty(),
    }
}

/// The bytes that the aggregate hash covers.
pub open spec fn hashed(fs: Seq<FileView>) -> Seq<u8>
    decreases fs.len(),
{
    if fs.len() == 0 {
        Seq::empty()
    } else {
        hashed(fs.drop_last()) + hashed_part(fs.last())
    }
}

/// One hash of everything applied, over the files in name order. It covers names as well as contents,
/// so that adding, removing or renaming a file shows in what is hashed, even where another holds the
/// same.
pub open spec fn applied(es: Seq<FileView>) -> Seq<char> {
    fingerprint::fingerprint(hashed(listed(es)))
}

fn hash_of(files: &Vec<ConfigFile>) -> (r: String)
    ensures
        r@ == fingerprint::fingerprint(hashed(views(files@))),
{
    let ghost all = views(files@);
    let mut data: Vec<u8> = Vec::new();
    let mut i: usize = 0;
    assert(all.take(0) =~= Seq::empty());
    while i < files.len()
        invariant
            i <= files.len(),
            all == views(files@),
            data@ == hashed(all.take(i as int)),
        decreases files.len() - i,
    {
        let ghost before = data@;
        proof {
            assert(all.take(i + 1).drop_last() =~= all.take(i as int));
            assert(all.take(i + 1).last() == files@[i as int]@);
        }
        match &files[i].label {
            Some(s) => {
                push_bytes(&mut data, s.as_str().as_bytes());
            },
            None => {},
        }
        match &files[i].body {
            Some(s) => {
                let t: String = apo_backend::strip_hash_line(s.as_str());
                push_bytes(&mut data, t.as_str().as_bytes());
            },
            None => {},
        }
        assert(data@ =~= before + hashed_part(files@[i as int]@));
        i = i + 1;
    }
    assert(all.take(all.len() as int) =~= all);
    fingerprint::hash_bytes(data.as_slice())
}

/// Hash of everything currently applied, from the entries of the configuration directory.
pub fn applied_hash(entries: Vec<ConfigFile>) -> (r: String)
    ensures
        r@ == applied(views(entries@)),
{
    let files: Vec<ConfigFile> = config_files(entries);
    hash_of(&files)
}

/// Does a file hold the safe state?
pub open spec fn holds_silence(f: FileView) -> bool {
    match f.body {
        Some(s) => match apo_config::meaning(apo_backend::stripped(s)) {
            Ok(c) => apo_backend::silences(c),
            Err(_) => false,
        },
        None => false,
    }
}

/// The verdict of the startup integrity check, from the entries of the configuration directory and
/// the hash remembered from the last write.
pub open spec fn verdict(es: Seq<FileView>, expected: Option<Seq<char>>) -> StartupDecision {
    let files = listed(es);
    if files.len() == 0 {
        StartupDecision::FirstRun
    } else if expected == Some(applied(es)) {
        StartupDecision::ResumeTrusted
    } else if forall|i: int| 0 <= i < files.len() ==> holds_silence(#[trigger] files[i]) {
        StartupDecision::SafeStateStillActive
    } else {
        StartupDecision::ExternallyModified
    }
}

fn is_silenced(f: &ConfigFile) -> (r: bool)
    ensures
        r == holds_silence(f@),
{
    match &f.body {
        Some(s) => {
            let t: String = apo_backend::strip_hash_line(s.as_str());
            match apo_config::parse(t.as_str()) {
                Ok(c) => apo_backend::is_safe_state(&c),
                Err(_) => false,
            }
        },
        None => false,
    }
}

/// The startup integrity verdict. Whether the safe state is on is seen by content rather than by a
/// remembered hash: the safe state is written without one.
pub fn startup_decision(entries: Vec<ConfigFile>, expected_hash: Option<&str>) -> (r:
    StartupDecision)
    ensures
        r == verdict(
            views(entries@),
            match expected_hash {
                Some(s) => Some(s@),
                None => None,
            },
        ),
{
    let ghost es = views(entries@);
    let files: Vec<ConfigFile> = config_files(entries);
    if files.len() == 0 {
        return StartupDecision::FirstRun;
    }
    let actual: String = hash_of(&files);
    match expected_hash {
        Some(want) => {
            let cs: Vec<char> = text::chars_of(want);
            if text::is_text(cs.as_slice(), actual.as_str()) {
                return StartupDecision::ResumeTrusted;
            }
        },
        None => {},
    }
    let ghost expected = match expected_hash {
        Some(s) => Some(s@),
        None => None,
    };
    assert(files@.len() == listed(es).len());
    let mut i: usize = 0;
    while i < files.len()
        invariant
            i <= files.len(),
            views(files@) == listed(es),
            es == views(entries@),
            expected == (match expected_hash {
                Some(s) => Some(s@),
                None => None,
            }),
            files.len() > 0,
            expected != Some(applied(es)),
            forall|k: int| 0 <= k < i ==> holds_silence(#[trigger] listed(es)[k]),
        decreases files.len() - i,
    {
        assert(listed(es)[i as int] == files@[i as int]@);
        if !is_silenced(&files[i]) {
            assert(!holds_silence(listed(es)[i as int]));
            return StartupDecision::ExternallyModified;
        }
        i = i + 1;
    }
    StartupDecision::SafeStateStillActive
}

/// What is applied, in readable form: each file under its name.
pub open spec fn shown(fs: Seq<FileView>) -> Seq<char>
    decreases fs.len(),
{
    if fs.len() == 0 {
        Seq::empty()
    } else {
        let f = fs.last();
        shown(fs.drop_last()) + "# "@ + (match f.label {
            Some(s) => s,
            None => "?"@,
        }) + seq!['\n'] + (match f.body {
            Some(s) => s,
            None => Seq::empty(),
        }) + seq!['\n']
    }
}

/// What is applied, in readable form, from the entries of the configuration directory.
pub fn applied_text(entries: Vec<ConfigFile>) -> (r: String)
    ensures
        r@ == shown(listed(views(entries@))),
{
    let files: Vec<ConfigFile> = config_files(entries);
    let ghost all = views(files@);
    let mut out: String = String::new();
    let mut i: usize = 0;
    assert(all.take(0) =~= Seq::empty());
    while i < files.len()
        invariant
            i <= files.len(),
            all == views(files@),
            out@ == shown(all.take(i as int)),
        decreases files.len() - i,
    {
        let ghost before = out@;
        proof {
            assert(all.take(i + 1).drop_last() =~= all.take(i as int));
            assert(all.take(i + 1).last() == files@[i as int]@);
        }
        out.append("# ");
        match &files[i].label {
            Some(s) => {
                out.append(s.as_str());
            },
            None => {
                out.append("?");
            },
        }
        out.push('\n');
        match &files[i].body {
            Some(s) => {
                out.append(s.as_str());
            },
            None => {},
        }
        out.push('\n');
        assert(out@ =~= shown(all.take(i + 1)));
        i = i + 1;
    }
    assert(all.take(all.len() as int) =~= all);
    out
}

/// The endpoint that a file belongs to: its name without `.cfg`.
pub open spec fn endpoint_of(f: FileView) -> Option<Seq<char>> {
    match f.label {
        Some(s) => if s.len() > 4 {
            Some(s.take(s.len() - 4))
        } else {
            None
        },
        None => None,
    }
}

/// The endpoints that files belong to, in order.
pub open spec fn endpoints_of(fs: Seq<FileView>) -> Seq<Seq<char>>
    decreases fs.len(),
{
    if fs.len() == 0 {
        Seq::empty()
    } else {
        let before = endpoints_of(fs.drop_last());
        match endpoint_of(fs.last()) {
            Some(id) => before.push(id),
            None => before,
        }
    }
}

/// The endpoints that have a correction, which are those that the safe state has to silence.
pub fn corrected_endpoints(entries: Vec<ConfigFile>) -> (r: Vec<String>)
    ensures
        setup::texts(r@) == endpoints_of(listed(views(entries@))),
{
    let files: Vec<ConfigFile> = config_files(entries);
    let ghost all = views(files@);
    let mut out: Vec<String> = Vec::new();
    let mut i: usize = 0;
    assert(all.take(0) =~= Seq::empty());
    assert(setup::texts(out@) =~= Seq::empty());
    while i < files.len()
        invariant
            i <= files.len(),
            all == views(files@),
            setup::texts(out@) =~= endpoints_of(all.take(i as int)),
        decreases files.len() - i,
    {
        proof {
            assert(all.take(i + 1).drop_last() =~= all.take(i as int));
            assert(all.take(i + 1).last() == files@[i as int]@);
        }
        match &files[i].label {
            Some(s) => {
                let cs: Vec<char> = text::chars_of(s.as_str());
                if cs.len() > 4 {
                    let id: String = text::string_of(
                        slice_subrange(cs.as_slice(), 0, cs.len() - 4),
                    );
                    assert(id@ =~= s@.take(s@.len() - 4));
                    assert(setup::texts(out@.push(id)) =~= setup::texts(out@).push(id@));
                    out.push(id);
                }
            },
            None => {},
        }
        i = i + 1;
    }
    assert(all.take(all.len() as int) =~= all);
    out
}

/// The safe state for an endpoint: nothing but silence, under the endpoint's own file name.
pub open spec fn silences_endpoint(p: Planned, id: Seq<char>) -> bool {
    &&& p.id@ == id
    &&& p.config@ == apo_backend::silence()
    &&& p.file@ == endpoint::file_name(id)
    &&& p.text@ == apo_backend::file_text(apo_backend::silence())
}

/// Plan the safe state, from the entries of the configuration directory: silence for every endpoint
/// that has a correction. That is exactly the set this project can affect, so no device needs to be
/// enumerated, which could fail.
pub fn plan_safe_state(entries: Vec<ConfigFile>) -> (r: Vec<Planned>)
    ensures
        r@.len() == endpoints_of(listed(views(entries@))).len(),
        forall|i: int|
            0 <= i < r@.len() ==> silences_endpoint(
                #[trigger] r@[i],
                endpoints_of(listed(views(entries@)))[i],
            ),
{
    let ids: Vec<String> = corrected_endpoints(entries);
    let ghost want = endpoints_of(listed(views(entries@)));
    let mut out: Vec<Planned> = Vec::new();
    let mut i: usize = 0;
    while i < ids.len()
        invariant
            i <= ids.len(),
            setup::texts(ids@) == want,
            out@.len() == i,
            forall|k: int| 0 <= k < i ==> silences_endpoint(#[trigger] out@[k], want[k]),
        decreases ids.len() - i,
    {
        assert(want[i as int] == ids@[i as int]@);
        let config: ApoConfig = apo_backend::safe_state();
        let (file, text) = apo_backend::write_config(ids[i].as_str(), &config);
        out.push(Planned { id: ids[i].clone(), config, file, text });
        i = i + 1;
    }
    out
}

/// Does the effect stand in an endpoint's chain? `chain` holds the chain's values, where it can be
/// opened.
pub fn drives_endpoint(chain: Option<&Vec<String>>) -> (r: bool)
    ensures
        r == (match chain {
            Some(values) => backend::chain_names(values@, seq![setup::CLSID]),
            None => false,
        }),
{
    let ids: [&'static str; 1] = [setup::CLSID];
    assert(ids@ =~= seq![setup::CLSID]);
    backend::endpoint_has_apo(chain, ids.as_slice())
}

/// Is the effect attached to any playback endpoint of this machine? Attached, not merely there: a
/// true here means that somebody chose it.
pub fn is_installed(chains: &Vec<Option<Vec<String>>>) -> (r: bool)
    ensures
        r == exists|i: int|
            0 <= i < chains@.len() && (#[trigger] chains@[i] matches Some(values)
                && backend::chain_names(values@, seq![setup::CLSID])),
{
    let mut i: usize = 0;
    while i < chains.len()
        invariant
            i <= chains.len(),
            forall|k: int|
                0 <= k < i ==> !(#[trigger] chains@[k] matches Some(values) && backend::chain_names(
                    values@,
                    seq![setup::CLSID],
                )),
        decreases chains.len() - i,
    {
        let chain: Option<&Vec<String>> = match &chains[i] {
            Some(v) => Some(v),
            None => None,
        };
        if drives_endpoint(chain) {
            assert(chains@[i as int] is Some);
            return true;
        }
        i = i + 1;
    }
    false
}

} // verus!
