//! What the aggregate hash covers: every change to what is applied changes the bytes it is taken over.
use crate::apo_backend;
use crate::apo_config;
use crate::apo_config::ConfigView;
use crate::applied_files;
use crate::applied_files::FileView;
use crate::backend_laws;
use crate::directory;
use crate::endpoint;
use crate::text;
use vstd::prelude::*;
use vstd::seq_lib::*;
use vstd::utf8::*;

verus! {

/// The bytes that the aggregate hash of a directory is taken over.
pub open spec fn covered(es: Seq<FileView>) -> Seq<u8> {
    applied_files::hashed(applied_files::listed(es))
}

proof fn lemma_hashed_apart(a: Seq<FileView>, b: Seq<FileView>)
    ensures
        applied_files::hashed(a + b) == applied_files::hashed(a) + applied_files::hashed(b),
    decreases b.len(),
{
    if b.len() == 0 {
        assert(a + b =~= a);
        assert(applied_files::hashed(a) + applied_files::hashed(b) =~= applied_files::hashed(a));
    } else {
        assert((a + b).drop_last() =~= a + b.drop_last());
        lemma_hashed_apart(a, b.drop_last());
        assert(applied_files::hashed(a + b) =~= applied_files::hashed(a) + applied_files::hashed(
            b,
        ));
    }
}

proof fn lemma_hashed_with(s: Seq<FileView>, k: int, x: FileView)
    requires
        0 <= k <= s.len(),
    ensures
        applied_files::hashed(s.insert(k, x)) == applied_files::hashed(s.take(k))
            + applied_files::hashed_part(x) + applied_files::hashed(s.skip(k)),
        applied_files::hashed(s) == applied_files::hashed(s.take(k)) + applied_files::hashed(
            s.skip(k),
        ),
{
    let a = s.take(k);
    let b = s.skip(k);
    assert(s =~= a + b);
    lemma_hashed_apart(a, b);
    assert(s.insert(k, x) =~= a.push(x) + b);
    lemma_hashed_apart(a.push(x), b);
    assert(a.push(x).drop_last() =~= a);
}

/// Where a file goes among files in name order depends on its name alone.
proof fn lemma_inserted_by_name(s: Seq<FileView>, x: FileView) -> (k: int)
    ensures
        0 <= k <= s.len(),
        forall|y: FileView|
            y.name == x.name ==> #[trigger] applied_files::inserted(s, y) == s.insert(k, y),
    decreases s.len(),
{
    if s.len() == 0 || text::bytes_le(s.last().name, x.name) {
        assert forall|y: FileView| y.name == x.name implies #[trigger] applied_files::inserted(s, y)
            == s.insert(s.len() as int, y) by {
            assert(s.insert(s.len() as int, y) =~= s.push(y));
        }
        s.len() as int
    } else {
        let t = s.drop_last();
        let k = lemma_inserted_by_name(t, x);
        assert forall|y: FileView| y.name == x.name implies #[trigger] applied_files::inserted(s, y)
            == s.insert(k, y) by {
            assert(applied_files::inserted(t, y) == t.insert(k, y));
            assert(s.insert(k, y) =~= t.insert(k, y).push(s.last()));
        }
        k
    }
}

/// A directory's files are those of the rest of it, with one put in its place.
proof fn lemma_listed_with(d: Seq<FileView>, p: int, y: FileView)
    requires
        backend_laws::names_differ(d),
        0 <= p < d.len(),
        y.name == d[p].name,
        applied_files::is_config(y.name),
    ensures
        applied_files::listed(d.update(p, y)) == applied_files::inserted(
            applied_files::listed(d.remove(p)),
            y,
        ),
{
    let u = d.update(p, y);
    let rest = d.remove(p);
    let v = rest.push(y);
    assert(u.remove(p) =~= rest);
    assert(u[p] == y);
    assert(u.to_multiset() == v.to_multiset()) by {
        broadcast use group_to_multiset_ensures;

        to_multiset_remove(u, p);
        assert(rest.to_multiset() =~= u.to_multiset().remove(y));
        assert(u.to_multiset().count(y) > 0) by {
            assert(u.contains(y)) by {
                assert(u[p] == y);
            }
        }
        assert(v.to_multiset() =~= u.to_multiset());
    }
    assert(backend_laws::names_differ(u)) by {
        assert forall|i: int, k: int|
            0 <= i < u.len() && 0 <= k < u.len() && (#[trigger] u[i]).name == (
            #[trigger] u[k]).name implies i == k by {
            assert(d[i].name == u[i].name);
            assert(d[k].name == u[k].name);
        }
    }
    backend_laws::law_enumeration_order_does_not_matter(u, v);
    assert(v.drop_last() =~= rest);
}

/// What one file adds to the covered bytes: its part, somewhere among the others', and at the same
/// place whatever it holds.
proof fn lemma_covered_with(d: Seq<FileView>, p: int) -> (r: (Seq<u8>, Seq<u8>))
    requires
        backend_laws::names_differ(d),
        0 <= p < d.len(),
        applied_files::is_config(d[p].name),
    ensures
        covered(d.remove(p)) == r.0 + r.1,
        forall|y: FileView|
            y.name == d[p].name ==> covered(#[trigger] d.update(p, y)) == r.0
                + applied_files::hashed_part(y) + r.1,
        covered(d) == r.0 + applied_files::hashed_part(d[p]) + r.1,
{
    let s = applied_files::listed(d.remove(p));
    let k = lemma_inserted_by_name(s, d[p]);
    let a = applied_files::hashed(s.take(k));
    let b = applied_files::hashed(s.skip(k));
    assert forall|y: FileView| y.name == d[p].name implies covered(#[trigger] d.update(p, y)) == a
        + applied_files::hashed_part(y) + b by {
        lemma_listed_with(d, p, y);
        assert(applied_files::inserted(s, y) == s.insert(k, y));
        lemma_hashed_with(s, k, y);
    }
    lemma_hashed_with(s, k, d[p]);
    assert(d.update(p, d[p]) =~= d);
    (a, b)
}

/// A file has something to cover where its name is text or its contents could be read.
proof fn lemma_part_is_something(x: FileView)
    requires
        applied_files::is_config(x.name),
        x.label matches Some(s) ==> x.name == encode_utf8(s),
        x.label is Some || x.body is Some,
    ensures
        applied_files::hashed_part(x).len() > 0,
{
    if x.label is None {
        let t = apo_backend::stripped(x.body->0);
        assert(t.last() == '\n');
        assert(encode_scalar(t[0] as u32).len() > 0);
        assert(encode_utf8(t).len() > 0);
    }
}

/// Removing a file shows: the covered bytes are others without it. It must have a name that is text,
/// or contents that could be read; of a file with neither, nothing is covered.
pub proof fn law_removed_file_shows(d: Seq<FileView>, p: int)
    requires
        directory::is_directory(d),
        0 <= p < d.len(),
        applied_files::is_config(d[p].name),
        d[p].label is Some || d[p].body is Some,
    ensures
        covered(d.remove(p)) != covered(d),
{
    let (a, b) = lemma_covered_with(d, p);
    lemma_part_is_something(d[p]);
    assert(covered(d).len() > covered(d.remove(p)).len());
}

/// Adding a correction shows: the covered bytes are others once an endpoint without a file has one.
pub proof fn law_added_correction_shows(d: Seq<FileView>, id: Seq<char>, text: Seq<char>)
    requires
        directory::is_directory(d),
        id.len() > 0,
        !directory::has_name(d, encode_utf8(endpoint::file_name(id))),
    ensures
        covered(directory::written(d, endpoint::file_name(id), text)) != covered(d),
{
    let file = endpoint::file_name(id);
    let e = directory::written(d, file, text);
    directory::lemma_written(d, file, text);
    directory::lemma_file_is_config(id);
    let p = d.len() as int;
    assert(e == d.push(directory::entry_of(file, text)));
    assert(e[p] == directory::entry_of(file, text));
    law_removed_file_shows(e, p);
    assert(e.remove(p) =~= d);
}

/// Changing a correction shows, and only changing it does: writing an endpoint's file anew leaves the
/// covered bytes as they are exactly where both corrections are written alike.
pub proof fn law_changed_correction_shows(
    d: Seq<FileView>,
    id: Seq<char>,
    before: ConfigView,
    after: ConfigView,
)
    requires
        directory::is_directory(d),
        id.len() > 0,
        d.contains(
            directory::entry_of(endpoint::file_name(id), apo_backend::file_text(before)),
        ),
    ensures
        covered(
            directory::written(d, endpoint::file_name(id), apo_backend::file_text(after)),
        ) == covered(d) <==> apo_config::configs_alike(before, after),
{
    let file = endpoint::file_name(id);
    let x = directory::entry_of(file, apo_backend::file_text(before));
    let y = directory::entry_of(file, apo_backend::file_text(after));
    let at = choose|i: int| 0 <= i < d.len() && d[i] == x;
    assert(directory::has_name(d, x.name));
    let p = directory::place(d, x.name);
    assert(0 <= p < d.len() && d[p].name == x.name);
    assert(p == at) by {
        assert(d[at].name == d[p].name);
    }
    directory::lemma_file_is_config(id);
    let (a, b) = lemma_covered_with(d, p);
    let e = directory::written(d, file, apo_backend::file_text(after));
    assert(e == d.update(p, y));
    backend_laws::law_hash_covers_the_rest(before);
    backend_laws::law_hash_covers_the_rest(after);
    apo_config::law_text_tells_configs_apart(before, after);
    let s = apo_config::rendered(before);
    let t = apo_config::rendered(after);
    let n = encode_utf8(file);
    if covered(e) == covered(d) {
        let m = a.len() + n.len();
        let u = encode_utf8(s);
        let v = encode_utf8(t);
        assert(a + (n + u) + b == a + (n + v) + b);
        assert(u.len() == v.len()) by {
            assert((a + (n + u) + b).len() == (a + (n + v) + b).len());
        }
        assert(u =~= (a + (n + u) + b).subrange(m as int, (m + u.len()) as int));
        assert(v =~= (a + (n + v) + b).subrange(m as int, (m + v.len()) as int));
        encode_utf8_decode_utf8(s);
        encode_utf8_decode_utf8(t);
        assert(s == t);
    }
}

/// Was a file written from a correction: is its name one line of text, and its contents a correction's?
pub open spec fn is_correction(f: FileView) -> bool {
    &&& f.label matches Some(s) && f.name == encode_utf8(s) && text::lacks(s, '\n')
    &&& exists|c: ConfigView| f.body == Some(#[trigger] apo_backend::file_text(c))
}

/// The correction that a file was written from.
spec fn correction_in(f: FileView) -> ConfigView {
    choose|c: ConfigView| f.body == Some(#[trigger] apo_backend::file_text(c))
}

/// The lines that a file adds to the covered text: its name runs into the header.
spec fn covered_lines(f: FileView) -> Seq<Seq<char>> {
    let ls = apo_config::config_lines(correction_in(f));
    seq![f.label->0 + ls[0]] + ls.skip(1)
}

/// The lines of the covered text.
spec fn all_lines(fs: Seq<FileView>) -> Seq<Seq<char>>
    decreases fs.len(),
{
    if fs.len() == 0 {
        Seq::empty()
    } else {
        all_lines(fs.drop_last()) + covered_lines(fs.last())
    }
}

/// The first of a file's lines ends in a lone character, and no other does.
proof fn lemma_covered_lines(f: FileView)
    requires
        is_correction(f),
    ensures
        ({
            let g = covered_lines(f);
            &&& g.len() > 0
            &&& forall|i: int| 0 <= i < g.len() ==> text::is_line(#[trigger] g[i])
            &&& forall|i: int| 0 <= i < g.len() ==> (apo_config::ends_alone(#[trigger] g[i]) <==> i
                == 0)
            &&& applied_files::hashed_part(f) == encode_utf8(text::unlines(g))
        }),
{
    let c = correction_in(f);
    let ls = apo_config::config_lines(c);
    let g = covered_lines(f);
    let s = f.label->0;
    apo_config::lemma_config_lines(c);
    apo_config::lemma_header_line(c);
    backend_laws::law_hash_covers_the_rest(c);
    let h = s + ls[0];
    assert(text::is_line(ls[0]));
    assert(h[h.len() - 2] == ls[0][ls[0].len() - 2]);
    assert forall|i: int| 0 <= i < h.len() implies #[trigger] h[i] != '\n' by {
        if i >= s.len() {
            assert(h[i] == ls[0][i - s.len()]);
        } else {
            assert(h[i] == s[i]);
        }
    }
    assert(h.last() == ls[0].last());
    assert forall|i: int| 0 <= i < g.len() implies text::is_line(#[trigger] g[i])
        && (apo_config::ends_alone(g[i]) <==> i == 0) by {
        if i > 0 {
            assert(g[i] == ls[i]);
        }
    }
    directory::lemma_encoded_apart(s, apo_config::rendered(c));
    assert(g.skip(1) =~= ls.skip(1));
    assert(text::unlines(g) =~= s + apo_config::rendered(c));
}

proof fn lemma_unlines_apart(a: Seq<Seq<char>>, b: Seq<Seq<char>>)
    ensures
        text::unlines(a + b) == text::unlines(a) + text::unlines(b),
    decreases a.len(),
{
    if a.len() == 0 {
        assert(a + b =~= b);
        assert(text::unlines(a) + text::unlines(b) =~= text::unlines(b));
    } else {
        assert((a + b).skip(1) =~= a.skip(1) + b);
        lemma_unlines_apart(a.skip(1), b);
        assert(text::unlines(a + b) =~= text::unlines(a) + text::unlines(b));
    }
}

proof fn lemma_covered_text(fs: Seq<FileView>)
    requires
        forall|i: int| 0 <= i < fs.len() ==> is_correction(#[trigger] fs[i]),
    ensures
        applied_files::hashed(fs) == encode_utf8(text::unlines(all_lines(fs))),
        forall|i: int| 0 <= i < all_lines(fs).len() ==> text::is_line(#[trigger] all_lines(fs)[i]),
    decreases fs.len(),
{
    if fs.len() > 0 {
        let before = fs.drop_last();
        let f = fs.last();
        assert forall|i: int| 0 <= i < before.len() implies is_correction(#[trigger] before[i]) by {
            assert(before[i] == fs[i]);
        }
        lemma_covered_text(before);
        assert(is_correction(fs[fs.len() - 1]));
        lemma_covered_lines(f);
        let a = all_lines(before);
        let g = covered_lines(f);
        lemma_unlines_apart(a, g);
        directory::lemma_encoded_apart(text::unlines(a), text::unlines(g));
        assert forall|i: int| 0 <= i < all_lines(fs).len() implies text::is_line(
            #[trigger] all_lines(fs)[i],
        ) by {
            if i < a.len() {
                assert(all_lines(fs)[i] == a[i]);
            } else {
                assert(all_lines(fs)[i] == g[i - a.len()]);
            }
        }
    }
}

/// A file is told by its lines.
proof fn lemma_lines_tell_file(f: FileView, g: FileView)
    requires
        is_correction(f),
        is_correction(g),
        covered_lines(f) == covered_lines(g),
    ensures
        f == g,
{
    let c = correction_in(f);
    let d = correction_in(g);
    let x = apo_config::config_lines(c);
    let y = apo_config::config_lines(d);
    let s = f.label->0;
    let t = g.label->0;
    let u = covered_lines(f);
    let v = covered_lines(g);
    assert(x[0] == y[0]);
    assert(u[0] == s + x[0]);
    assert(v[0] == t + y[0]);
    assert(s =~= (s + x[0]).take((s + x[0]).len() - x[0].len()));
    assert(t =~= (t + y[0]).take((t + y[0]).len() - y[0].len()));
    assert(x =~= y) by {
        assert(u.len() == x.len());
        assert(v.len() == y.len());
        assert forall|i: int| 0 <= i < x.len() implies x[i] == y[i] by {
            if i > 0 {
                assert(u[i] == x[i]);
                assert(v[i] == y[i]);
            }
        }
    }
    assert(apo_config::rendered(c) == apo_config::rendered(d));
    assert(apo_backend::file_text(c) == apo_backend::file_text(d));
}

/// The last line that ends in a lone character begins the last file.
proof fn lemma_last_lines_tell(
    x: Seq<Seq<char>>,
    g: Seq<Seq<char>>,
    y: Seq<Seq<char>>,
    h: Seq<Seq<char>>,
)
    requires
        x + g == y + h,
        g.len() > 0,
        h.len() > 0,
        forall|i: int| 0 <= i < g.len() ==> (apo_config::ends_alone(#[trigger] g[i]) <==> i == 0),
        forall|i: int| 0 <= i < h.len() ==> (apo_config::ends_alone(#[trigger] h[i]) <==> i == 0),
    ensures
        x == y,
        g == h,
{
    let ls = x + g;
    let n = x.len() as int;
    let m = y.len() as int;
    assert(ls.len() == n + g.len());
    assert(ls.len() == m + h.len());
    assert(ls[n] == g[0]);
    assert(ls[m] == h[0]);
    if n < m {
        assert(ls[m] == g[m - n]);
    } else if m < n {
        assert(ls[n] == h[n - m]);
    }
    assert(x =~= ls.take(n));
    assert(y =~= ls.take(m));
    assert(g =~= ls.skip(n));
    assert(h =~= ls.skip(m));
}

/// Files are told by their lines.
#[verifier::spinoff_prover]
#[verifier::rlimit(60)]
proof fn lemma_lines_tell_files(a: Seq<FileView>, b: Seq<FileView>)
    requires
        forall|i: int| 0 <= i < a.len() ==> is_correction(#[trigger] a[i]),
        forall|i: int| 0 <= i < b.len() ==> is_correction(#[trigger] b[i]),
        all_lines(a) == all_lines(b),
    ensures
        a == b,
    decreases a.len(),
{
    if a.len() > 0 {
        assert(is_correction(a[a.len() - 1]));
        lemma_covered_lines(a.last());
    }
    if b.len() > 0 {
        assert(is_correction(b[b.len() - 1]));
        lemma_covered_lines(b.last());
    }
    if a.len() == 0 || b.len() == 0 {
        assert(a =~= b);
    } else {
        let ra = a.drop_last();
        let rb = b.drop_last();
        let x = all_lines(ra);
        let y = all_lines(rb);
        let g = covered_lines(a.last());
        let h = covered_lines(b.last());
        lemma_last_lines_tell(x, g, y, h);
        assert forall|i: int| 0 <= i < ra.len() implies is_correction(#[trigger] ra[i]) by {
            assert(ra[i] == a[i]);
        }
        assert forall|i: int| 0 <= i < rb.len() implies is_correction(#[trigger] rb[i]) by {
            assert(rb[i] == b[i]);
        }
        lemma_lines_tell_files(ra, rb);
        lemma_lines_tell_file(a.last(), b.last());
        assert(ra.push(a.last()) =~= a);
        assert(rb.push(b.last()) =~= b);
    }
}

/// Was every configuration file of a directory written from a correction?
pub open spec fn holds_corrections(es: Seq<FileView>) -> bool {
    forall|i: int|
        0 <= i < es.len() && applied_files::is_config((#[trigger] es[i]).name) ==> is_correction(
            es[i],
        )
}

/// The covered bytes tell what is applied: where every configuration file was written from a
/// correction, two directories have the same covered bytes exactly where their configuration files are
/// the same, by name and by contents. So whatever is changed, added, removed or renamed, and however
/// much of it at once, shows.
pub proof fn law_covered_bytes_tell_what_is_applied(a: Seq<FileView>, b: Seq<FileView>)
    requires
        holds_corrections(a),
        holds_corrections(b),
    ensures
        covered(a) == covered(b) <==> applied_files::listed(a) == applied_files::listed(b),
{
    let la = applied_files::listed(a);
    let lb = applied_files::listed(b);
    assert forall|i: int| 0 <= i < la.len() implies is_correction(#[trigger] la[i]) by {
        let f = la[i];
        assert(la.contains(f));
        directory::lemma_listed_has(a, f);
        let k = choose|k: int| 0 <= k < a.len() && a[k] == f;
        assert(is_correction(a[k]));
    }
    assert forall|i: int| 0 <= i < lb.len() implies is_correction(#[trigger] lb[i]) by {
        let f = lb[i];
        assert(lb.contains(f));
        directory::lemma_listed_has(b, f);
        let k = choose|k: int| 0 <= k < b.len() && b[k] == f;
        assert(is_correction(b[k]));
    }
    lemma_covered_text(la);
    lemma_covered_text(lb);
    if covered(a) == covered(b) {
        let s = text::unlines(all_lines(la));
        let t = text::unlines(all_lines(lb));
        encode_utf8_decode_utf8(s);
        encode_utf8_decode_utf8(t);
        text::lemma_lines_of_unlines(all_lines(la));
        text::lemma_lines_of_unlines(all_lines(lb));
        lemma_lines_tell_files(la, lb);
    }
}

proof fn lemma_written_corrections(es: Seq<FileView>, fs: Seq<(Seq<char>, Seq<char>)>)
    requires
        directory::is_directory(es),
        holds_corrections(es),
        forall|j: int|
            0 <= j < fs.len() ==> is_correction(
                directory::entry_of((#[trigger] fs[j]).0, fs[j].1),
            ),
    ensures
        directory::is_directory(directory::all_written(es, fs)),
        holds_corrections(directory::all_written(es, fs)),
    decreases fs.len(),
{
    if fs.len() > 0 {
        let before = fs.drop_last();
        let (file, text) = fs.last();
        assert forall|j: int| 0 <= j < before.len() implies is_correction(
            directory::entry_of((#[trigger] before[j]).0, before[j].1),
        ) by {
            assert(before[j] == fs[j]);
        }
        lemma_written_corrections(es, before);
        let c = directory::all_written(es, before);
        let d = directory::all_written(es, fs);
        let f = directory::entry_of(file, text);
        directory::lemma_written(c, file, text);
        assert(fs[fs.len() - 1] == fs.last());
        assert(is_correction(f));
        assert forall|i: int|
            0 <= i < d.len() && applied_files::is_config((#[trigger] d[i]).name) implies
            is_correction(d[i]) by {
            if i < c.len() {
                assert(d[i] == (if c[i].name == f.name {
                    f
                } else {
                    c[i]
                }));
            } else {
                assert(d[i] == d.last());
            }
        }
    }
}

/// Applying leaves a directory of corrections, if it was one: each device's file is written from its
/// correction.
pub proof fn law_applying_leaves_corrections(
    es: Seq<FileView>,
    ds: Seq<(Seq<char>, ConfigView)>,
)
    requires
        directory::is_directory(es),
        holds_corrections(es),
        directory::applicable(ds),
    ensures
        holds_corrections(directory::all_written(es, directory::correction_files(ds))),
{
    let fs = directory::correction_files(ds);
    reveal_strlit(".cfg");
    assert forall|j: int| 0 <= j < fs.len() implies is_correction(
        directory::entry_of((#[trigger] fs[j]).0, fs[j].1),
    ) by {
        let (device, c) = ds[j];
        let id = endpoint::normal_id(device)->0;
        assert(fs[j] == (endpoint::file_name(id), apo_backend::file_text(c)));
        endpoint::law_normal_id_is_normal(device);
        let s = fs[j].0;
        assert forall|i: int| 0 <= i < s.len() implies #[trigger] s[i] != '\n' by {
            if i < id.len() {
                assert(endpoint::is_id_char(id[i]));
                assert(s[i] == id[i]);
            } else {
                assert(s[i] == ".cfg"@[i - id.len()]);
            }
        }
        let f = directory::entry_of(s, fs[j].1);
        assert(f.body == Some(apo_backend::file_text(c)));
    }
    lemma_written_corrections(es, fs);
}

/// What two applyings leave is told apart: from directories of corrections, the hash is taken over the
/// same bytes afterwards exactly where the same configuration files are there, by name and contents.
pub proof fn law_applied_states_are_told_apart(
    a: Seq<FileView>,
    ds: Seq<(Seq<char>, ConfigView)>,
    b: Seq<FileView>,
    es: Seq<(Seq<char>, ConfigView)>,
)
    requires
        directory::is_directory(a),
        directory::is_directory(b),
        holds_corrections(a),
        holds_corrections(b),
        directory::applicable(ds),
        directory::applicable(es),
    ensures
        ({
            let x = directory::all_written(a, directory::correction_files(ds));
            let y = directory::all_written(b, directory::correction_files(es));
            covered(x) == covered(y) <==> applied_files::listed(x) == applied_files::listed(y)
        }),
{
    law_applying_leaves_corrections(a, ds);
    law_applying_leaves_corrections(b, es);
    law_covered_bytes_tell_what_is_applied(
        directory::all_written(a, directory::correction_files(ds)),
        directory::all_written(b, directory::correction_files(es)),
    );
}

} // verus!
