//! What holds of applying corrections as a whole.
use crate::apo_backend;
use crate::apo_backend::SlotMemory;
use crate::apo_config;
use crate::apo_config::ConfigView;
use crate::applied_files;
use crate::applied_files::FileView;
use crate::backend::StartupDecision;
use crate::decimal;
use crate::double;
use crate::double::Double;
use crate::dsp::Band;
use crate::fingerprint;
use crate::slots;
use crate::text;
use vstd::arithmetic::power::*;
use vstd::arithmetic::power2::*;
use vstd::prelude::*;
use vstd::seq_lib::*;
use vstd::utf8::*;

verus! {

/// The line that carries the hash of some text.
spec fn marker(s: Seq<char>) -> Seq<char> {
    apo_backend::HASH_PREFIX@ + fingerprint::text_fingerprint(s)
}

proof fn lemma_marker(s: Seq<char>)
    ensures
        text::is_line(marker(s)),
        apo_backend::is_hash_line(marker(s)),
        text::trim(marker(s)).len() > 0,
        text::trim(marker(s))[0] == '#',
{
    reveal_strlit("# cageq-hash=");
    let p = apo_backend::HASH_PREFIX@;
    let m = marker(s);
    let h = fingerprint::text_fingerprint(s);
    let data = encode_utf8(s);
    assert forall|i: int| 0 <= i < 8 implies '0' <= #[trigger] h[i] <= '9' || 'a' <= h[i]
        <= 'f' by {
        fingerprint::law_fingerprint_is_eight_hex_digits(data, i);
    }
    fingerprint::law_fingerprint_is_eight_hex_digits(data, 0);
    assert(m[0] == '#');
    assert(m.take(p.len() as int) =~= p);
    assert(text::trim_start(m) == m);
    assert(m.last() == h[7]);
    assert(text::trim_end(m) == m);
    assert forall|i: int| 0 <= i < m.len() implies m[i] != '\n' && m[i] != '\r' by {
        if i >= p.len() {
            assert(m[i] == h[i - p.len()]);
        } else {
            assert(m[i] == p[i]);
        }
    }
}

proof fn lemma_file_lines(c: ConfigView)
    ensures
        text::lines(apo_backend::file_text(c)) == seq![marker(apo_config::rendered(c))]
            + apo_config::config_lines(c),
{
    let body = apo_config::rendered(c);
    let ls = apo_config::config_lines(c);
    let all = seq![marker(body)] + ls;
    lemma_marker(body);
    apo_config::lemma_config_lines(c);
    assert forall|i: int| 0 <= i < all.len() implies text::is_line(#[trigger] all[i]) by {
        if i > 0 {
            assert(all[i] == ls[i - 1]);
        }
    }
    text::lemma_lines_of_unlines(all);
    assert(all.skip(1) =~= ls);
    assert(text::unlines(all) =~= apo_backend::file_text(c));
}

proof fn lemma_marker_first(m: Seq<char>, ls: Seq<Seq<char>>)
    requires
        apo_backend::is_hash_line(m),
        forall|i: int| 0 <= i < ls.len() ==> !apo_backend::is_hash_line(#[trigger] ls[i]),
    ensures
        apo_backend::other_lines(seq![m] + ls) == ls,
    decreases ls.len(),
{
    let all = seq![m] + ls;
    if ls.len() == 0 {
        assert(all.drop_last() =~= Seq::empty());
        assert(all.last() == m);
        assert(apo_backend::other_lines(all.drop_last()) =~= ls);
    } else {
        assert(all.drop_last() =~= seq![m] + ls.drop_last());
        assert(all.last() == ls.last());
        assert(!apo_backend::is_hash_line(ls[ls.len() - 1]));
        lemma_marker_first(m, ls.drop_last());
        assert(ls.drop_last().push(ls.last()) =~= ls);
    }
}

proof fn lemma_joined_lines(ls: Seq<Seq<char>>)
    requires
        ls.len() > 0,
    ensures
        text::join(ls, '\n') + seq!['\n'] == text::unlines(ls),
    decreases ls.len(),
{
    if ls.len() == 1 {
        assert(ls.skip(1) =~= Seq::empty());
        assert(text::unlines(ls.skip(1)) =~= Seq::empty());
        assert(text::join(ls, '\n') + seq!['\n'] =~= text::unlines(ls));
    } else {
        lemma_joined_lines(ls.skip(1));
        assert(text::join(ls, '\n') + seq!['\n'] =~= ls[0] + seq!['\n'] + (text::join(
            ls.skip(1),
            '\n',
        ) + seq!['\n']));
        assert(text::join(ls, '\n') + seq!['\n'] =~= text::unlines(ls));
    }
}

/// The hash in a file is the hash of exactly what is left once its line is dropped.
pub proof fn law_hash_covers_the_rest(c: ConfigView)
    ensures
        apo_backend::stripped(apo_backend::file_text(c)) == apo_config::rendered(c),
        text::starts_with(
            apo_backend::file_text(c),
            apo_backend::HASH_PREFIX@ + fingerprint::text_fingerprint(
                apo_backend::stripped(apo_backend::file_text(c)),
            ),
        ),
{
    let body = apo_config::rendered(c);
    let ls = apo_config::config_lines(c);
    reveal_strlit("# cageq-hash=");
    lemma_file_lines(c);
    lemma_marker(body);
    apo_config::lemma_config_lines(c);
    assert forall|i: int| 0 <= i < ls.len() implies !apo_backend::is_hash_line(#[trigger] ls[i]) by {
        let l = ls[i];
        assert(text::trim_start(l) == l);
        assert(apo_backend::HASH_PREFIX@[0] == '#');
        if text::starts_with(l, apo_backend::HASH_PREFIX@) {
            assert(l.take(apo_backend::HASH_PREFIX@.len() as int)[0] == '#');
        }
    }
    lemma_marker_first(marker(body), ls);
    lemma_joined_lines(ls);
    let m = marker(body);
    assert(apo_backend::file_text(c).take(m.len() as int) =~= m);
}

/// What is written, the engine can read back: the file of every configuration that fits the engine is
/// accepted, with every band in place and each number as it stands at four places.
pub proof fn law_written_file_parses(c: ConfigView)
    requires
        c.bands.len() <= crate::dsp::MAX_BANDS,
        double::is_finite(c.preamp_db),
        forall|i: int| 0 <= i < c.bands.len() ==> apo_config::writable_band(#[trigger] c.bands[i]),
    ensures
        apo_config::meaning(apo_backend::file_text(c)) == Ok::<ConfigView, (nat, Seq<char>)>(
            ConfigView {
                preamp_db: decimal::at_places(c.preamp_db, 4),
                bands: c.bands.map_values(|b: Band| apo_config::written_band(b)),
            },
        ),
{
    let body = apo_config::rendered(c);
    let ls = apo_config::config_lines(c);
    apo_config::law_rendered_config_parses(c);
    apo_config::lemma_config_lines(c);
    text::lemma_lines_of_unlines(ls);
    lemma_file_lines(c);
    lemma_marker(body);
    apo_config::lemma_leading_comment(marker(body), ls, ls.len());
}

/// The safe state's preamp has no digits behind the point, so writing it loses nothing.
proof fn lemma_safe_preamp()
    ensures
        decimal::at_places(Double { bits: apo_backend::SAFE_PREAMP_DB }, 4) == (Double {
            bits: apo_backend::SAFE_PREAMP_DB,
        }),
        double::is_finite(Double { bits: apo_backend::SAFE_PREAMP_DB }),
        apo_backend::silences(apo_backend::silence()),
{
    let x = Double { bits: apo_backend::SAFE_PREAMP_DB };
    let limit = Double { bits: apo_backend::SAFE_PREAMP_LIMIT_DB };
    let m = double::unsigned(x);
    let l = double::unsigned(limit);
    assert(m == 0x405e_0000_0000_0000);
    assert(l == 0x405d_f999_9999_999a);
    assert(double::scale(m) == 1028);
    assert(double::significand(m) == 0x1e_0000_0000_0000);
    lemma2_to64();
    lemma_pow2_adds(1028, 46);
    let p = pow2(1028) as int;
    let q = pow2(46) as int;
    assert(q == 0x4000_0000_0000) by {
        lemma_pow2_adds(32, 14);
    }
    assert(double::magnitude(m) == 0x1e_0000_0000_0000 * p);
    assert(pow2(1074) == p * q);
    assert(pow(10, 4) == 10000) by {
        reveal_with_fuel(pow, 5);
    }
    assert(0x1e_0000_0000_0000 * p * 10000 == 1200000 * (p * 0x4000_0000_0000)) by (
    nonlinear_arith);
    decimal::law_short_number_reads_back_exactly(x, 4, 1200000);
    double::lemma_ordered(l, m);
}

/// The safe state survives being written: its file reads back as the safe state itself.
pub proof fn law_safe_state_reads_back()
    ensures
        apo_config::meaning(apo_backend::file_text(apo_backend::silence())) == Ok::<
            ConfigView,
            (nat, Seq<char>),
        >(apo_backend::silence()),
        apo_backend::silences(apo_backend::silence()),
{
    let c = apo_backend::silence();
    lemma_safe_preamp();
    law_written_file_parses(c);
    assert(c.bands.map_values(|b: Band| apo_config::written_band(b)) =~= Seq::empty());
}

/// What was applied is trusted at the next start: the hash that applying returned, over unchanged
/// files, resumes.
pub proof fn law_own_state_is_trusted(es: Seq<FileView>)
    requires
        applied_files::listed(es).len() > 0,
    ensures
        applied_files::verdict(es, Some(applied_files::applied(es)))
            == StartupDecision::ResumeTrusted,
{
}

/// Where the safe state was written to every endpoint, the next start says so, unless its own hash
/// was remembered.
pub proof fn law_safe_state_is_recognised(es: Seq<FileView>, expected: Option<Seq<char>>)
    requires
        applied_files::listed(es).len() > 0,
        forall|i: int|
            0 <= i < applied_files::listed(es).len() ==> (#[trigger] applied_files::listed(
                es,
            )[i]).body == Some(apo_backend::file_text(apo_backend::silence())),
        expected != Some(applied_files::applied(es)),
    ensures
        applied_files::verdict(es, expected) == StartupDecision::SafeStateStillActive,
{
    let c = apo_backend::silence();
    law_safe_state_reads_back();
    law_hash_covers_the_rest(c);
    lemma_safe_preamp();
    apo_config::law_rendered_config_parses(c);
    assert(c.bands.map_values(|b: Band| apo_config::written_band(b)) =~= Seq::empty());
    assert forall|i: int| 0 <= i < applied_files::listed(es).len() implies
        applied_files::holds_silence(#[trigger] applied_files::listed(es)[i]) by {}
}

proof fn lemma_inserted_counts(s: Seq<FileView>, x: FileView)
    ensures
        applied_files::inserted(s, x).to_multiset() == s.to_multiset().insert(x),
    decreases s.len(),
{
    broadcast use group_to_multiset_ensures;

    if s.len() > 0 && !text::bytes_le(s.last().name, x.name) {
        lemma_inserted_counts(s.drop_last(), x);
        let t = applied_files::inserted(s.drop_last(), x);
        assert(s.drop_last().push(s.last()) =~= s);
        assert(t.push(s.last()).to_multiset() =~= s.to_multiset().insert(x));
    }
}

pub proof fn lemma_listed_counts(es: Seq<FileView>, x: FileView)
    ensures
        applied_files::listed(es).to_multiset().count(x) == (if applied_files::is_config(x.name) {
            es.to_multiset().count(x)
        } else {
            0
        }),
    decreases es.len(),
{
    broadcast use group_to_multiset_ensures;

    if es.len() > 0 {
        lemma_listed_counts(es.drop_last(), x);
        assert(es.drop_last().push(es.last()) =~= es);
        if applied_files::is_config(es.last().name) {
            lemma_inserted_counts(applied_files::listed(es.drop_last()), es.last());
        }
    }
}

/// Are files in name order?
pub open spec fn by_name(s: Seq<FileView>) -> bool {
    forall|i: int, k: int|
        0 <= i <= k < s.len() ==> text::bytes_le((#[trigger] s[i]).name, (#[trigger] s[k]).name)
}

proof fn lemma_inserted_ordered(s: Seq<FileView>, x: FileView)
    requires
        by_name(s),
    ensures
        by_name(applied_files::inserted(s, x)),
        applied_files::inserted(s, x).len() == s.len() + 1,
        forall|n: Seq<u8>|
            text::bytes_le(x.name, n) && (forall|i: int|
                0 <= i < s.len() ==> text::bytes_le((#[trigger] s[i]).name, n)) ==> forall|i: int|
                0 <= i < applied_files::inserted(s, x).len() ==> #[trigger] text::bytes_le(
                    applied_files::inserted(s, x)[i].name,
                    n,
                ),
    decreases s.len(),
{
    let t = applied_files::inserted(s, x);
    text::lemma_bytes_le_total(x.name, x.name);
    if s.len() == 0 || text::bytes_le(s.last().name, x.name) {
        assert forall|i: int, k: int| 0 <= i <= k < t.len() implies text::bytes_le(
            (#[trigger] t[i]).name,
            (#[trigger] t[k]).name,
        ) by {
            if k == s.len() && i < k {
                assert(text::bytes_le(s[i].name, s[s.len() - 1].name));
                text::lemma_bytes_le_transitive(s[i].name, s.last().name, x.name);
            } else if i < s.len() {
                assert(text::bytes_le(s[i].name, s[k].name));
            }
        }
    } else {
        let r = s.drop_last();
        assert forall|i: int, k: int| 0 <= i <= k < r.len() implies text::bytes_le(
            (#[trigger] r[i]).name,
            (#[trigger] r[k]).name,
        ) by {
            assert(text::bytes_le(s[i].name, s[k].name));
        }
        lemma_inserted_ordered(r, x);
        text::lemma_bytes_le_total(s.last().name, x.name);
        text::lemma_bytes_le_total(s.last().name, s.last().name);
        let u = applied_files::inserted(r, x);
        let top = s.last().name;
        assert forall|i: int| 0 <= i < r.len() implies text::bytes_le((#[trigger] r[i]).name, top) by {
            assert(text::bytes_le(s[i].name, s[s.len() - 1].name));
        }
        assert(forall|i: int| 0 <= i < u.len() ==> #[trigger] text::bytes_le(u[i].name, top));
        assert forall|i: int, k: int| 0 <= i <= k < t.len() implies text::bytes_le(
            (#[trigger] t[i]).name,
            (#[trigger] t[k]).name,
        ) by {
            if k == u.len() {
                if i < k {
                    assert(text::bytes_le(u[i].name, top));
                }
            } else {
                assert(text::bytes_le(u[i].name, u[k].name));
            }
        }
        assert forall|n: Seq<u8>|
            text::bytes_le(x.name, n) && (forall|i: int|
                0 <= i < s.len() ==> text::bytes_le(
                    (#[trigger] s[i]).name,
                    n,
                )) implies forall|i: int| 0 <= i < t.len() ==> #[trigger] text::bytes_le(
            t[i].name,
            n,
        ) by {
            assert forall|i: int| 0 <= i < r.len() implies text::bytes_le(
                (#[trigger] r[i]).name,
                n,
            ) by {
                assert(text::bytes_le(s[i].name, n));
            }
            assert forall|i: int| 0 <= i < t.len() implies #[trigger] text::bytes_le(
                t[i].name,
                n,
            ) by {
                if i < u.len() {
                    assert(text::bytes_le(u[i].name, n));
                } else {
                    assert(text::bytes_le(s[s.len() - 1].name, n));
                }
            }
        }
    }
}

/// The files of a directory come in name order.
pub proof fn law_files_are_in_name_order(es: Seq<FileView>)
    ensures
        by_name(applied_files::listed(es)),
    decreases es.len(),
{
    if es.len() > 0 {
        law_files_are_in_name_order(es.drop_last());
        if applied_files::is_config(es.last().name) {
            lemma_inserted_ordered(applied_files::listed(es.drop_last()), es.last());
        }
    }
}

/// Do no two of these files have the same name?
pub open spec fn names_differ(s: Seq<FileView>) -> bool {
    forall|i: int, k: int|
        0 <= i < s.len() && 0 <= k < s.len() && (#[trigger] s[i]).name == (#[trigger] s[k]).name
            ==> i == k
}

proof fn lemma_same_order(a: Seq<FileView>, b: Seq<FileView>)
    requires
        by_name(a),
        by_name(b),
        a.to_multiset() == b.to_multiset(),
        forall|x: FileView, y: FileView|
            #![trigger a.contains(x), a.contains(y)]
            a.contains(x) && a.contains(y) && x.name == y.name ==> x == y,
    ensures
        a == b,
    decreases a.len(),
{
    broadcast use group_to_multiset_ensures;

    assert(a.len() == a.to_multiset().len());
    assert(b.len() == b.to_multiset().len());
    if a.len() > 0 {
        let x = a.last();
        let y = b.last();
        assert(a.contains(x)) by {
            assert(a[a.len() - 1] == x);
        }
        assert(b.contains(y)) by {
            assert(b[b.len() - 1] == y);
        }
        assert(a.to_multiset().count(x) > 0);
        assert(b.to_multiset().count(y) > 0);
        assert(b.contains(x));
        assert(a.contains(y));
        let i = choose|i: int| 0 <= i < a.len() && a[i] == y;
        let k = choose|k: int| 0 <= k < b.len() && b[k] == x;
        assert(text::bytes_le(a[i].name, a[a.len() - 1].name));
        assert(text::bytes_le(b[k].name, b[b.len() - 1].name));
        text::lemma_bytes_le_antisymmetric(x.name, y.name);
        assert(x == y);
        let ra = a.drop_last();
        let rb = b.drop_last();
        assert(ra.push(x) =~= a);
        assert(rb.push(x) =~= b);
        assert(ra.to_multiset() =~= a.to_multiset().remove(x));
        assert(rb.to_multiset() =~= b.to_multiset().remove(x));
        assert forall|i: int, k: int| 0 <= i <= k < ra.len() implies text::bytes_le(
            (#[trigger] ra[i]).name,
            (#[trigger] ra[k]).name,
        ) by {
            assert(text::bytes_le(a[i].name, a[k].name));
        }
        assert forall|i: int, k: int| 0 <= i <= k < rb.len() implies text::bytes_le(
            (#[trigger] rb[i]).name,
            (#[trigger] rb[k]).name,
        ) by {
            assert(text::bytes_le(b[i].name, b[k].name));
        }
        assert forall|p: FileView, q: FileView|
            #![trigger ra.contains(p), ra.contains(q)]
            ra.contains(p) && ra.contains(q) && p.name == q.name implies p == q by {
            let i = choose|i: int| 0 <= i < ra.len() && ra[i] == p;
            let k = choose|k: int| 0 <= k < ra.len() && ra[k] == q;
            assert(a[i] == p && a[k] == q);
            assert(a.contains(p) && a.contains(q));
        }
        lemma_same_order(ra, rb);
    } else {
        assert(a =~= b);
    }
}

/// Neither what is applied nor its hash depends on how the file system happens to enumerate: two
/// listings of the same entries come to the same, no two entries of a directory having one name.
pub proof fn law_enumeration_order_does_not_matter(a: Seq<FileView>, b: Seq<FileView>)
    requires
        a.to_multiset() == b.to_multiset(),
        names_differ(a),
    ensures
        applied_files::listed(a) == applied_files::listed(b),
        applied_files::applied(a) == applied_files::applied(b),
{
    broadcast use group_to_multiset_ensures;

    let la = applied_files::listed(a);
    let lb = applied_files::listed(b);
    law_files_are_in_name_order(a);
    law_files_are_in_name_order(b);
    assert forall|x: FileView| la.to_multiset().count(x) == lb.to_multiset().count(x) by {
        lemma_listed_counts(a, x);
        lemma_listed_counts(b, x);
    }
    assert(la.to_multiset() =~= lb.to_multiset());
    assert forall|x: FileView, y: FileView|
        #![trigger la.contains(x), la.contains(y)]
        la.contains(x) && la.contains(y) && x.name == y.name implies x == y by {
        lemma_listed_counts(a, x);
        lemma_listed_counts(a, y);
        assert(la.to_multiset().count(x) > 0);
        assert(la.to_multiset().count(y) > 0);
        assert(a.contains(x));
        assert(a.contains(y));
        let i = choose|i: int| 0 <= i < a.len() && a[i] == x;
        let k = choose|k: int| 0 <= k < a.len() && a[k] == y;
        assert(a[i].name == a[k].name);
    }
    lemma_same_order(la, lb);
}

/// An edit outside the isolate audition is never a boundary, whatever slots it opens.
pub proof fn law_ordinary_edit_is_no_boundary(m: SlotMemory, bands: Seq<Band>)
    requires
        !m.was_isolate,
        !slots::is_isolate(bands),
    ensures
        !apo_backend::crosses(m, bands),
        !apo_backend::remembering(m, bands).was_isolate,
{
}

/// Beginning and ending the isolate audition is always a boundary.
pub proof fn law_entering_and_leaving_is_a_boundary(m: SlotMemory, bands: Seq<Band>)
    requires
        m.was_isolate != slots::is_isolate(bands),
    ensures
        apo_backend::crosses(m, bands),
        apo_backend::remembering(m, bands).was_isolate == slots::is_isolate(bands),
{
}

/// Within the isolate audition a push is a boundary exactly where its slot was not close to it: a
/// drag that stays close retunes in place, and a jump is a crossfade onto a fresh slot.
pub proof fn law_drag_is_a_boundary_only_when_it_jumps(m: SlotMemory, band: Band, i: usize)
    requires
        m.was_isolate,
        m.isolate_slot == Some(i),
        i < m.slots.len(),
        m.slots.len() < usize::MAX,
        slots::is_isolate(seq![band]),
    ensures
        apo_backend::crosses(m, seq![band]) <==> !slots::reusable(m.slots[i as int], band),
{
    slots::law_isolate_has_one_slot(m.slots, m.isolate_slot, band);
}

} // verus!
