//! What holds of the shared `config.txt` across a write and a read.
use crate::config_writer;
use crate::config_writer::Filter;
use crate::decimal;
use crate::double;
use crate::double::Double;
use crate::fingerprint;
use crate::text;
use vstd::prelude::*;

verus! {

/// Is `p` a line with at most its own ending: not empty, and no line feed but at the end?
pub open spec fn is_piece(p: Seq<char>) -> bool {
    p.len() > 0 && forall|i: int| 0 <= i < p.len() - 1 ==> #[trigger] p[i] != '\n'
}

/// Does `p` end with a line feed?
pub open spec fn is_ended(p: Seq<char>) -> bool {
    p.len() > 0 && p.last() == '\n'
}

/// Are these the pieces of some text: each a line, and all but the last one ended?
pub open spec fn are_pieces(ps: Seq<Seq<char>>) -> bool {
    &&& forall|i: int| 0 <= i < ps.len() ==> is_piece(#[trigger] ps[i])
    &&& forall|i: int| 0 <= i < ps.len() - 1 ==> is_ended(#[trigger] ps[i])
}

proof fn lemma_are_pieces(s: Seq<char>)
    ensures
        are_pieces(text::pieces(s)),
        config_writer::joined(text::pieces(s)) == s,
        s.len() > 0 ==> text::pieces(s).len() > 0 && text::pieces(s).last().last() == s.last(),
    decreases s.len(),
{
    let ps = text::pieces(s);
    if s.len() > 0 {
        let i = text::index_of(s, '\n');
        text::lemma_index_of(s, '\n');
        if i >= s.len() {
            assert(ps.skip(1) =~= Seq::empty());
            assert(config_writer::joined(ps.skip(1)) =~= Seq::empty());
            assert(config_writer::joined(ps) =~= s);
        } else {
            let rest = s.skip(i + 1);
            lemma_are_pieces(rest);
            let tail = text::pieces(rest);
            assert(ps.skip(1) =~= tail);
            assert(s.take(i + 1) + rest =~= s);
            assert forall|k: int| 0 <= k < ps.len() implies is_piece(#[trigger] ps[k]) by {
                if k > 0 {
                    assert(ps[k] == tail[k - 1]);
                }
            }
            assert forall|k: int| 0 <= k < ps.len() - 1 implies is_ended(#[trigger] ps[k]) by {
                if k > 0 {
                    assert(ps[k] == tail[k - 1]);
                }
            }
            if rest.len() > 0 {
                assert(ps.last() == tail.last());
                assert(s.last() == rest.last());
            } else {
                assert(tail.len() == 0);
                assert(ps.last() == s.take(i + 1));
            }
        }
    } else {
        assert(config_writer::joined(ps) =~= s);
    }
}

/// Pieces put together are found again.
proof fn lemma_pieces_of_joined(ps: Seq<Seq<char>>)
    requires
        are_pieces(ps),
    ensures
        text::pieces(config_writer::joined(ps)) == ps,
    decreases ps.len(),
{
    let s = config_writer::joined(ps);
    if ps.len() == 0 {
        assert(text::pieces(s) =~= ps);
    } else {
        let rest = ps.skip(1);
        let tail = config_writer::joined(rest);
        let p = ps[0];
        assert(is_piece(p));
        assert(are_pieces(rest)) by {
            assert forall|i: int| 0 <= i < rest.len() implies is_piece(#[trigger] rest[i]) by {
                assert(is_piece(ps[i + 1]));
            }
            assert forall|i: int| 0 <= i < rest.len() - 1 implies is_ended(#[trigger] rest[i]) by {
                assert(is_ended(ps[i + 1]));
            }
        }
        lemma_pieces_of_joined(rest);
        let n = p.len() as int;
        if p.last() == '\n' {
            assert forall|i: int| 0 <= i < n - 1 implies s[i] != '\n' by {
                assert(s[i] == p[i]);
            }
            assert(s[n - 1] == '\n');
            text::lemma_index_of_is(s, '\n', n - 1);
            assert(s.take(n) =~= p);
            assert(s.skip(n) =~= tail);
            assert(text::pieces(s) =~= seq![p] + rest);
            assert(seq![p] + rest =~= ps);
        } else {
            assert(ps.len() == 1) by {
                if ps.len() > 1 {
                    assert(is_ended(ps[0]));
                }
            }
            assert(rest =~= Seq::empty());
            assert(tail =~= Seq::empty());
            assert(s =~= p);
            text::lemma_index_of(s, '\n');
            if text::index_of(s, '\n') < s.len() {
                let k = text::index_of(s, '\n');
                assert(p[k] == '\n');
                if k < n - 1 {
                    assert(p[k] != '\n');
                }
            }
            assert(text::pieces(s) =~= ps);
        }
    }
}

proof fn lemma_joined_concat(a: Seq<Seq<char>>, b: Seq<Seq<char>>)
    ensures
        config_writer::joined(a + b) == config_writer::joined(a) + config_writer::joined(b),
    decreases a.len(),
{
    if a.len() == 0 {
        assert(a + b =~= b);
        assert(config_writer::joined(a) + config_writer::joined(b) =~= config_writer::joined(b));
    } else {
        lemma_joined_concat(a.skip(1), b);
        assert((a + b).skip(1) =~= a.skip(1) + b);
        assert(config_writer::joined(a + b) =~= config_writer::joined(a) + config_writer::joined(
            b,
        ));
    }
}

/// The lines of a managed block.
pub open spec fn block_lines(preamp_db: Double, filters: Seq<Filter>) -> Seq<Seq<char>> {
    let hash = fingerprint::text_fingerprint(config_writer::body_text(preamp_db, filters));
    seq!["#CAGE:BEGIN hash="@ + hash] + config_writer::body_lines(preamp_db, filters) + seq![
        "#CAGE:END"@,
    ]
}

/// Each line with its ending.
pub open spec fn ended(ls: Seq<Seq<char>>) -> Seq<Seq<char>> {
    ls.map_values(|l: Seq<char>| l.push('\n'))
}

proof fn lemma_unlines_is_joined(ls: Seq<Seq<char>>)
    ensures
        text::unlines(ls) == config_writer::joined(ended(ls)),
    decreases ls.len(),
{
    if ls.len() > 0 {
        lemma_unlines_is_joined(ls.skip(1));
        assert(ended(ls).skip(1) =~= ended(ls.skip(1)));
        assert(ls[0] + seq!['\n'] =~= ls[0].push('\n'));
    } else {
        assert(text::unlines(ls) =~= config_writer::joined(ended(ls)));
    }
}

proof fn lemma_unlines_concat(a: Seq<Seq<char>>, b: Seq<Seq<char>>)
    ensures
        text::unlines(a + b) == text::unlines(a) + text::unlines(b),
{
    lemma_unlines_is_joined(a);
    lemma_unlines_is_joined(b);
    lemma_unlines_is_joined(a + b);
    lemma_joined_concat(ended(a), ended(b));
    assert(ended(a + b) =~= ended(a) + ended(b));
}

/// A block is its lines.
proof fn lemma_block_is_its_lines(preamp_db: Double, filters: Seq<Filter>)
    ensures
        config_writer::block_text(preamp_db, filters) == text::unlines(
            block_lines(preamp_db, filters),
        ),
{
    let body = config_writer::body_text(preamp_db, filters);
    let hash = fingerprint::text_fingerprint(body);
    let bl = config_writer::body_lines(preamp_db, filters);
    let head = seq!["#CAGE:BEGIN hash="@ + hash];
    let foot = seq!["#CAGE:END"@];
    lemma_unlines_concat(head + bl, foot);
    lemma_unlines_concat(head, bl);
    reveal_with_fuel(text::unlines, 2);
    assert(head.skip(1) =~= Seq::empty());
    assert(foot.skip(1) =~= Seq::empty());
    assert("#CAGE:END\n"@ =~= "#CAGE:END"@ + seq!['\n']) by {
        reveal_strlit("#CAGE:END\n");
        reveal_strlit("#CAGE:END");
    }
    assert(text::unlines(head) =~= "#CAGE:BEGIN hash="@ + hash + seq!['\n']);
    assert(text::unlines(foot) =~= "#CAGE:END\n"@);
    assert(config_writer::block_text(preamp_db, filters) =~= text::unlines(
        block_lines(preamp_db, filters),
    ));
}

/// A number never holds a line feed, whatever it is.
proof fn lemma_fixed_has_no_feed(x: Double, places: nat)
    ensures
        forall|i: int|
            0 <= i < decimal::fixed(x, places).len() ==> #[trigger] decimal::fixed(x, places)[i]
                != '\n',
{
    let s = decimal::fixed(x, places);
    if double::is_finite(x) {
        decimal::lemma_fixed_is_token(x, places);
        assert forall|i: int| 0 <= i < s.len() implies #[trigger] s[i] != '\n' by {
            assert(!text::is_space(s[i]));
        }
    } else {
        reveal_strlit("NaN");
        reveal_strlit("inf");
    }
}

/// Is `s` free of line feeds?
pub open spec fn no_feed(s: Seq<char>) -> bool {
    forall|i: int| 0 <= i < s.len() ==> #[trigger] s[i] != '\n'
}

proof fn lemma_no_feed_concat(a: Seq<char>, b: Seq<char>)
    requires
        no_feed(a),
        no_feed(b),
    ensures
        no_feed(a + b),
{
    assert forall|i: int| 0 <= i < (a + b).len() implies #[trigger] (a + b)[i] != '\n' by {
        if i < a.len() {
            assert(a[i] != '\n');
        } else {
            assert(b[i - a.len()] != '\n');
        }
    }
}

proof fn lemma_filter_line(n: nat, f: Filter)
    ensures
        no_feed(config_writer::filter_line(n, f)),
        config_writer::filter_line(n, f).len() > 0,
        config_writer::filter_line(n, f)[0] == 'F',
{
    reveal_strlit("Filter ");
    reveal_strlit(": ON ");
    reveal_strlit(" Fc ");
    reveal_strlit(" Hz Gain ");
    reveal_strlit(" dB Q ");
    reveal_strlit("PK");
    reveal_strlit("LSC");
    reveal_strlit("HSC");
    decimal::lemma_digits_shape(n);
    let d = decimal::digits(n);
    assert(no_feed(d)) by {
        assert forall|i: int| 0 <= i < d.len() implies #[trigger] d[i] != '\n' by {
            assert(decimal::is_digit(d[i]));
        }
    }
    lemma_fixed_has_no_feed(f.freq_hz, 0);
    lemma_fixed_has_no_feed(f.gain_db, 1);
    lemma_fixed_has_no_feed(f.q, 2);
    let t = config_writer::token_of(f.kind);
    let a = "Filter "@ + d;
    lemma_no_feed_concat("Filter "@, d);
    let b = a + ": ON "@;
    lemma_no_feed_concat(a, ": ON "@);
    let c = b + t;
    lemma_no_feed_concat(b, t);
    let e = c + " Fc "@;
    lemma_no_feed_concat(c, " Fc "@);
    let g = e + decimal::fixed(f.freq_hz, 0);
    lemma_no_feed_concat(e, decimal::fixed(f.freq_hz, 0));
    let h = g + " Hz Gain "@;
    lemma_no_feed_concat(g, " Hz Gain "@);
    let k = h + decimal::fixed(f.gain_db, 1);
    lemma_no_feed_concat(h, decimal::fixed(f.gain_db, 1));
    let l = k + " dB Q "@;
    lemma_no_feed_concat(k, " dB Q "@);
    lemma_no_feed_concat(l, decimal::fixed(f.q, 2));
    assert(config_writer::filter_line(n, f)[0] == "Filter "@[0]);
}

proof fn lemma_preamp_line(p: Double)
    ensures
        no_feed(config_writer::preamp_line(p)),
        config_writer::preamp_line(p).len() > 0,
        config_writer::preamp_line(p)[0] == 'P',
{
    reveal_strlit("Preamp: ");
    reveal_strlit(" dB");
    lemma_fixed_has_no_feed(p, 1);
    lemma_no_feed_concat("Preamp: "@, decimal::fixed(p, 1));
    lemma_no_feed_concat("Preamp: "@ + decimal::fixed(p, 1), " dB"@);
    assert(config_writer::preamp_line(p)[0] == "Preamp: "@[0]);
}

proof fn lemma_hash_is_token(data: Seq<char>)
    ensures
        fingerprint::text_fingerprint(data).len() == 8,
        forall|i: int|
            0 <= i < 8 ==> !text::is_space(#[trigger] fingerprint::text_fingerprint(data)[i]),
        no_feed(fingerprint::text_fingerprint(data)),
{
    let h = fingerprint::text_fingerprint(data);
    let bytes = vstd::utf8::encode_utf8(data);
    fingerprint::law_fingerprint_is_eight_hex_digits(bytes, 0);
    assert forall|i: int| 0 <= i < 8 implies !text::is_space(#[trigger] h[i]) by {
        fingerprint::law_fingerprint_is_eight_hex_digits(bytes, i);
    }
    assert forall|i: int| 0 <= i < h.len() implies #[trigger] h[i] != '\n' by {
        assert(!text::is_space(h[i]));
    }
}

/// What the lines of a block look like.
proof fn lemma_block_lines(preamp_db: Double, filters: Seq<Filter>)
    ensures
        ({
            let ls = block_lines(preamp_db, filters);
            &&& ls.len() == filters.len() + 3
            &&& forall|i: int|
                0 <= i < ls.len() ==> no_feed(#[trigger] ls[i]) && ls[i].len() > 0 && (ls[i][0]
                    == '#' || ls[i][0] == 'P' || ls[i][0] == 'F')
            &&& text::starts_with(ls[0].push('\n'), "#CAGE:BEGIN"@)
            &&& text::starts_with(ls.last().push('\n'), "#CAGE:END"@)
            &&& forall|i: int|
                0 <= i < ls.len() - 1 ==> !text::starts_with(
                    (#[trigger] ls[i]).push('\n'),
                    "#CAGE:END"@,
                )
        }),
{
    let ls = block_lines(preamp_db, filters);
    let body = config_writer::body_text(preamp_db, filters);
    let hash = fingerprint::text_fingerprint(body);
    let bl = config_writer::body_lines(preamp_db, filters);
    lemma_hash_is_token(body);
    reveal_strlit("#CAGE:BEGIN hash=");
    reveal_strlit("#CAGE:BEGIN");
    reveal_strlit("#CAGE:END");
    lemma_no_feed_concat("#CAGE:BEGIN hash="@, hash);
    let head = "#CAGE:BEGIN hash="@ + hash;
    assert(head[0] == '#' && head[6] == 'B');
    assert(head.push('\n').take(11) =~= "#CAGE:BEGIN"@);
    assert("#CAGE:END"@.push('\n').take(9) =~= "#CAGE:END"@);
    assert(ls.last() == "#CAGE:END"@);
    lemma_preamp_line(preamp_db);
    assert forall|i: int| 0 <= i < ls.len() implies no_feed(#[trigger] ls[i]) && ls[i].len() > 0
        && (ls[i][0] == '#' || ls[i][0] == 'P' || ls[i][0] == 'F') by {
        if 1 < i && i < ls.len() - 1 {
            lemma_filter_line((i - 2 + 1) as nat, filters[i - 2]);
            assert(ls[i] == bl[i - 1]);
        }
        if i == 1 {
            assert(ls[i] == bl[0]);
        }
    }
    assert forall|i: int| 0 <= i < ls.len() - 1 implies !text::starts_with(
        (#[trigger] ls[i]).push('\n'),
        "#CAGE:END"@,
    ) by {
        let l = ls[i].push('\n');
        if text::starts_with(l, "#CAGE:END"@) {
            assert(l[0] == l.take(9)[0]);
            assert(l[6] == l.take(9)[6]);
            if i == 0 {
                assert(l[6] == head[6]);
            } else if i == 1 {
                assert(ls[i] == bl[0]);
            } else {
                lemma_filter_line((i - 2 + 1) as nat, filters[i - 2]);
                assert(ls[i] == bl[i - 1]);
            }
        }
    }
}

proof fn lemma_without_eol(s: Seq<char>)
    ensures
        config_writer::without_eol(s).len() <= s.len(),
        config_writer::without_eol(s) == s.take(config_writer::without_eol(s).len() as int),
        s.len() > 0 && s[0] != '\r' && s[0] != '\n' ==> config_writer::without_eol(s).len() > 0,
        config_writer::without_eol(s.push('\n')) == config_writer::without_eol(s),
    decreases s.len(),
{
    assert(s.push('\n').drop_last() =~= s);
    if s.len() > 0 && (s.last() == '\r' || s.last() == '\n') {
        let t = s.drop_last();
        lemma_without_eol(t);
        let n = config_writer::without_eol(s).len() as int;
        assert(t.take(n) =~= s.take(n));
        if s[0] != '\r' && s[0] != '\n' {
            assert(t[0] == s[0]);
        }
    } else {
        assert(s.take(s.len() as int) =~= s);
    }
}

/// A line that begins with neither white space nor a D opens no section.
proof fn lemma_opens_nothing(l: Seq<char>)
    requires
        l.len() > 0,
        !text::is_space(l[0]),
        l[0] != 'D',
    ensures
        !config_writer::opens_any(l),
{
    lemma_without_eol(l);
    reveal_strlit("Device:");
    let t = config_writer::without_eol(l);
    assert(t[0] == l[0]);
    assert(text::trim_start(t) == t);
    if text::starts_with(t, "Device:"@) {
        assert(t.take(7)[0] == t[0]);
    }
}

proof fn lemma_opening(ps: Seq<Seq<char>>, device: Seq<char>, from: int)
    requires
        0 <= from <= ps.len(),
    ensures
        ({
            let a = config_writer::opening(ps, device, from);
            &&& from <= a <= ps.len()
            &&& a < ps.len() ==> config_writer::opens(ps[a], device)
            &&& forall|k: int| from <= k < a ==> !config_writer::opens(#[trigger] ps[k], device)
        }),
    decreases ps.len() - from,
{
    if from < ps.len() && !config_writer::opens(ps[from], device) {
        lemma_opening(ps, device, from + 1);
    }
}

proof fn lemma_opening_is(ps: Seq<Seq<char>>, device: Seq<char>, a: int)
    requires
        0 <= a < ps.len(),
        config_writer::opens(ps[a], device),
        forall|k: int| 0 <= k < a ==> !config_writer::opens(#[trigger] ps[k], device),
    ensures
        config_writer::opening(ps, device, 0) == a,
{
    lemma_opening(ps, device, 0);
}

proof fn lemma_section_end(ps: Seq<Seq<char>>, from: int)
    requires
        0 <= from <= ps.len(),
    ensures
        ({
            let b = config_writer::section_end(ps, from);
            &&& from <= b <= ps.len()
            &&& forall|k: int| from <= k < b ==> !config_writer::opens_any(#[trigger] ps[k])
            &&& b < ps.len() ==> config_writer::opens_any(ps[b])
        }),
    decreases ps.len() - from,
{
    if from < ps.len() && !config_writer::opens_any(ps[from]) {
        lemma_section_end(ps, from + 1);
    }
}

proof fn lemma_marked(ps: Seq<Seq<char>>, mark: Seq<char>, from: int, to: int)
    requires
        0 <= from <= to <= ps.len(),
    ensures
        ({
            let m = config_writer::marked(ps, mark, from, to);
            &&& from <= m <= to
            &&& m < to ==> text::starts_with(ps[m], mark)
            &&& forall|k: int| from <= k < m ==> !text::starts_with(#[trigger] ps[k], mark)
        }),
    decreases to - from,
{
    if from < to && !text::starts_with(ps[from], mark) {
        lemma_marked(ps, mark, from + 1, to);
    }
}

/// A whole block: a line that begins with the first marker, then lines that begin with no second
/// marker and open no section, then one that begins with the second marker. Every line is ended.
pub open spec fn is_whole_block(block: Seq<char>) -> bool {
    let b = text::pieces(block);
    &&& b.len() > 1
    &&& text::starts_with(b[0], "#CAGE:BEGIN"@)
    &&& text::starts_with(b.last(), "#CAGE:END"@)
    &&& forall|i: int| 0 <= i < b.len() ==> is_ended(#[trigger] b[i])
    &&& forall|i: int| 0 <= i < b.len() ==> !config_writer::opens_any(#[trigger] b[i])
    &&& forall|i: int|
        0 <= i < b.len() - 1 ==> !text::starts_with(#[trigger] b[i], "#CAGE:END"@)
}

/// A rendered block is a whole one.
pub proof fn law_rendered_block_is_whole(preamp_db: Double, filters: Seq<Filter>)
    ensures
        is_whole_block(config_writer::block_text(preamp_db, filters)),
{
    let ls = block_lines(preamp_db, filters);
    let b = ended(ls);
    lemma_block_lines(preamp_db, filters);
    lemma_block_is_its_lines(preamp_db, filters);
    lemma_unlines_is_joined(ls);
    assert forall|i: int| 0 <= i < b.len() implies is_piece(#[trigger] b[i]) && is_ended(b[i])
        && !config_writer::opens_any(b[i]) by {
        assert(b[i] == ls[i].push('\n'));
        assert(no_feed(ls[i]));
        lemma_opens_nothing(b[i]);
    }
    lemma_pieces_of_joined(b);
    assert(b[0] == ls[0].push('\n'));
    assert(b.last() == ls.last().push('\n'));
    assert forall|i: int| 0 <= i < b.len() - 1 implies !text::starts_with(
        #[trigger] b[i],
        "#CAGE:END"@,
    ) by {
        assert(b[i] == ls[i].push('\n'));
    }
}

/// A block that stands in a device's section, before any other, is the one that is found.
proof fn lemma_found(
    a: Seq<Seq<char>>,
    block: Seq<char>,
    c: Seq<Seq<char>>,
    device: Seq<char>,
    at: int,
)
    requires
        is_whole_block(block),
        0 <= at < a.len(),
        config_writer::opens(a[at], device),
        forall|k: int| 0 <= k < at ==> !config_writer::opens(#[trigger] a[k], device),
        forall|k: int| at < k < a.len() ==> !config_writer::opens_any(#[trigger] a[k]),
        forall|k: int|
            at < k < a.len() ==> !text::starts_with(#[trigger] a[k], "#CAGE:BEGIN"@),
    ensures
        ({
            let b = text::pieces(block);
            let ps = a + b + c;
            &&& config_writer::section(ps, device) matches Some((from, to)) && from == at + 1
                && config_writer::block_range(ps, from, to) == Some(
                (a.len() as int, (a.len() + b.len()) as int),
            )
        }),
{
    let b = text::pieces(block);
    let ps = a + b + c;
    let n = a.len() as int;
    let m = b.len() as int;
    assert(ps[at] == a[at]);
    assert forall|k: int| 0 <= k < at implies !config_writer::opens(#[trigger] ps[k], device) by {
        assert(ps[k] == a[k]);
    }
    lemma_opening_is(ps, device, at);
    let to = config_writer::section_end(ps, at + 1);
    lemma_section_end(ps, at + 1);
    assert forall|k: int| at < k < n + m implies !config_writer::opens_any(#[trigger] ps[k]) by {
        if k < n {
            assert(ps[k] == a[k]);
        } else {
            assert(ps[k] == b[k - n]);
        }
    }
    assert(to >= n + m);
    let p = config_writer::marked(ps, "#CAGE:BEGIN"@, at + 1, to);
    lemma_marked(ps, "#CAGE:BEGIN"@, at + 1, to);
    assert(ps[n] == b[0]);
    assert forall|k: int| at < k < n implies !text::starts_with(
        #[trigger] ps[k],
        "#CAGE:BEGIN"@,
    ) by {
        assert(ps[k] == a[k]);
    }
    assert(p == n);
    let q = config_writer::marked(ps, "#CAGE:END"@, p, to);
    lemma_marked(ps, "#CAGE:END"@, p, to);
    assert(ps[n + m - 1] == b[m - 1]);
    assert forall|k: int| n <= k < n + m - 1 implies !text::starts_with(
        #[trigger] ps[k],
        "#CAGE:END"@,
    ) by {
        assert(ps[k] == b[k - n]);
    }
    assert(q == n + m - 1);
}

/// A device's name as it can stand on a line: no white space around it, no line feed in it.
pub open spec fn is_name(device: Seq<char>) -> bool {
    text::trim(device) == device && no_feed(device)
}

/// Pieces with the last one ended.
pub open spec fn closed(ps: Seq<Seq<char>>) -> Seq<Seq<char>> {
    if ps.len() > 0 {
        ps.drop_last().push(ps.last() + config_writer::gap_after(ps.last()))
    } else {
        ps
    }
}

/// Where a block goes: the pieces before it and the pieces after it.
pub open spec fn around(current: Seq<char>, device: Seq<char>) -> (Seq<Seq<char>>, Seq<Seq<char>>) {
    let ps = text::pieces(current);
    match config_writer::section(ps, device) {
        Some((from, to)) => match config_writer::block_range(ps, from, to) {
            Some((p, q)) => (ps.take(p), ps.skip(q)),
            None => (closed(ps.take(from)), ps.skip(from)),
        },
        None => (closed(ps).push("Device: "@ + device + seq!['\n']), Seq::empty()),
    }
}

/// Ending the last piece adds what was missing, and changes nothing about what it opens.
proof fn lemma_closed(ps: Seq<Seq<char>>)
    requires
        are_pieces(ps),
    ensures
        closed(ps).len() == ps.len(),
        forall|k: int|
            0 <= k < ps.len() ==> is_piece(#[trigger] closed(ps)[k]) && is_ended(closed(ps)[k]),
        forall|k: int| 0 <= k < ps.len() - 1 ==> #[trigger] closed(ps)[k] == ps[k],
        forall|k: int, d: Seq<char>|
            0 <= k < ps.len() ==> #[trigger] config_writer::opens(closed(ps)[k], d)
                == config_writer::opens(ps[k], d),
        ps.len() > 0 ==> config_writer::joined(closed(ps)) == config_writer::joined(ps)
            + config_writer::gap_after(ps.last()),
        ps.len() == 0 ==> closed(ps) == ps,
        (ps.len() > 0 ==> is_ended(ps.last())) ==> closed(ps) == ps,
{
    if ps.len() > 0 {
        let l = ps.last();
        let gap = config_writer::gap_after(l);
        assert(is_piece(l));
        lemma_without_eol(l);
        assert(l + seq!['\n'] =~= l.push('\n'));
        assert(l + Seq::empty() =~= l);
        config_writer::lemma_joined_push(ps.drop_last(), l + gap);
        config_writer::lemma_joined_push(ps.drop_last(), l);
        assert(ps.drop_last().push(l) =~= ps);
        assert(config_writer::joined(closed(ps)) =~= config_writer::joined(ps) + gap);
        assert forall|k: int| 0 <= k < ps.len() implies is_piece(#[trigger] closed(ps)[k])
            && is_ended(closed(ps)[k]) by {
            assert(is_piece(ps[k]));
            if k < ps.len() - 1 {
                assert(is_ended(ps[k]));
            } else if l.last() != '\n' {
                assert forall|i: int| 0 <= i < l.len() implies #[trigger] l[i] != '\n' by {
                    if i == l.len() - 1 {
                        assert(l[i] == l.last());
                    }
                }
            }
        }
        if is_ended(l) {
            assert(closed(ps) =~= ps);
        }
    }
}

proof fn lemma_trim_start_of_trimmed(d: Seq<char>)
    requires
        text::trim(d) == d,
    ensures
        text::trim_start(d) == d,
        d.len() > 0 ==> !text::is_space(d.last()),
{
    lemma_trim_start_is_suffix(d);
    lemma_trim_end_shrinks(text::trim_start(d));
    assert(d.skip(0) =~= d);
}

proof fn lemma_trim_start_is_suffix(d: Seq<char>)
    ensures
        text::trim_start(d).len() <= d.len(),
        text::trim_start(d) == d.skip(d.len() - text::trim_start(d).len()),
    decreases d.len(),
{
    if d.len() > 0 && text::is_space(d[0]) {
        lemma_trim_start_is_suffix(d.skip(1));
        let k = d.len() - text::trim_start(d).len();
        assert(d.skip(1).skip(k - 1) =~= d.skip(k));
    } else {
        assert(d.skip(0) =~= d);
    }
}

proof fn lemma_trim_end_shrinks(d: Seq<char>)
    ensures
        text::trim_end(d).len() <= d.len(),
        text::trim_end(d).len() > 0 ==> !text::is_space(text::trim_end(d).last()),
    decreases d.len(),
{
    if d.len() > 0 && text::is_space(d.last()) {
        lemma_trim_end_shrinks(d.drop_last());
    }
}

/// The line written for a device opens that device's section.
proof fn lemma_device_line_opens(device: Seq<char>)
    requires
        is_name(device),
    ensures
        config_writer::opens("Device: "@ + device + seq!['\n'], device),
        is_piece("Device: "@ + device + seq!['\n']),
        is_ended("Device: "@ + device + seq!['\n']),
{
    let bare = "Device: "@ + device;
    let line = "Device: "@ + device + seq!['\n'];
    reveal_strlit("Device: ");
    reveal_strlit("Device:");
    lemma_trim_start_of_trimmed(device);
    lemma_without_eol(bare);
    assert(line =~= bare.push('\n'));
    assert(bare.last() != '\r' && bare.last() != '\n') by {
        if device.len() > 0 {
            assert(bare.last() == device.last());
        } else {
            assert(bare.last() == ' ');
        }
    }
    assert(config_writer::without_eol(line) == bare);
    assert(bare.take(7) =~= "Device:"@);
    let rest = bare.skip(7);
    assert(rest =~= seq![' '] + device);
    assert(rest.skip(1) =~= device);
    assert(text::trim_start(rest) == text::trim_start(device));
    lemma_no_feed_concat("Device: "@, device);
    assert forall|i: int| 0 <= i < line.len() - 1 implies #[trigger] line[i] != '\n' by {
        assert(bare[i] != '\n');
    }
}

/// Where a block goes, and what is known of the pieces before it; `at` is the line that opens the
/// device's section.
proof fn lemma_around(current: Seq<char>, device: Seq<char>) -> (at: int)
    requires
        is_name(device),
    ensures
        ({
            let (a, c) = around(current, device);
            &&& 0 <= at < a.len()
            &&& config_writer::opens(a[at], device)
            &&& forall|k: int| 0 <= k < at ==> !config_writer::opens(#[trigger] a[k], device)
            &&& forall|k: int| at < k < a.len() ==> !config_writer::opens_any(#[trigger] a[k])
            &&& forall|k: int|
                at < k < a.len() ==> !text::starts_with(#[trigger] a[k], "#CAGE:BEGIN"@)
            &&& forall|k: int| 0 <= k < a.len() ==> is_piece(#[trigger] a[k]) && is_ended(a[k])
            &&& are_pieces(c)
            &&& forall|x: Seq<char>| #[trigger]
                config_writer::spliced(current, device, x) == config_writer::joined(a) + x
                    + config_writer::joined(c)
        }),
{
    let ps = text::pieces(current);
    let (a, c) = around(current, device);
    lemma_are_pieces(current);
    lemma_opening(ps, device, 0);
    let first = config_writer::opening(ps, device, 0);
    match config_writer::section(ps, device) {
        Some((from, to)) => {
            lemma_section_end(ps, from);
            lemma_marked(ps, "#CAGE:BEGIN"@, from, to);
            let p = config_writer::marked(ps, "#CAGE:BEGIN"@, from, to);
            lemma_marked(ps, "#CAGE:END"@, p, to);
            let range = config_writer::block_range(ps, from, to);
            let x = a.len() as int;
            let head = ps.take(x);
            assert(are_pieces(head)) by {
                assert forall|k: int| 0 <= k < head.len() implies is_piece(#[trigger] head[k]) by {
                    assert(head[k] == ps[k]);
                }
                assert forall|k: int| 0 <= k < head.len() - 1 implies is_ended(
                    #[trigger] head[k],
                ) by {
                    assert(head[k] == ps[k]);
                }
            }
            lemma_closed(head);
            if range is Some {
                assert(is_ended(ps[x - 1])) by {
                    assert(x - 1 < ps.len() - 1);
                }
                assert(a == closed(head));
            } else {
                assert(head.last() == ps[from - 1]);
                assert(a == closed(head));
            }
            let y = ps.len() - c.len();
            assert forall|k: int| 0 <= k < c.len() implies is_piece(#[trigger] c[k]) by {
                assert(c[k] == ps[k + y]);
            }
            assert forall|k: int| 0 <= k < c.len() - 1 implies is_ended(#[trigger] c[k]) by {
                assert(c[k] == ps[k + y]);
                assert(is_ended(ps[k + y]));
            }
            assert(head[first] == ps[first]);
            assert(config_writer::opens(a[first], device));
            assert forall|k: int| 0 <= k < first implies !config_writer::opens(
                #[trigger] a[k],
                device,
            ) by {
                assert(head[k] == ps[k]);
            }
            assert forall|k: int| first < k < a.len() implies !config_writer::opens_any(
                #[trigger] a[k],
            ) && !text::starts_with(a[k], "#CAGE:BEGIN"@) by {
                assert(range is Some);
                assert(closed(head) == head);
                assert(a[k] == ps[k]);
            }
            assert forall|z: Seq<char>| #[trigger]
                config_writer::spliced(current, device, z) == config_writer::joined(a) + z
                    + config_writer::joined(c) by {
                if range is Some {
                    assert(closed(head) == head);
                }
            }
            first
        },
        None => {
            let line = "Device: "@ + device + seq!['\n'];
            lemma_device_line_opens(device);
            lemma_closed(ps);
            let before = closed(ps);
            assert(a =~= before.push(line));
            assert forall|k: int| 0 <= k < a.len() - 1 implies !config_writer::opens(
                #[trigger] a[k],
                device,
            ) by {
                assert(a[k] == before[k]);
                assert(!config_writer::opens(ps[k], device));
            }
            assert forall|k: int| 0 <= k < a.len() implies is_piece(#[trigger] a[k]) && is_ended(
                a[k],
            ) by {
                if k < a.len() - 1 {
                    assert(a[k] == before[k]);
                }
            }
            config_writer::lemma_joined_push(before, line);
            assert(config_writer::joined(before) =~= current + config_writer::gap_after(current));
            assert forall|x: Seq<char>| #[trigger]
                config_writer::spliced(current, device, x) == config_writer::joined(a) + x
                    + config_writer::joined(c) by {
                assert(config_writer::spliced(current, device, x) =~= config_writer::joined(a) + x
                    + config_writer::joined(c));
            }
            a.len() - 1
        },
    }
}

/// The pieces of a text with a block in it.
proof fn lemma_spliced_pieces(current: Seq<char>, device: Seq<char>, block: Seq<char>)
    requires
        is_name(device),
        is_whole_block(block),
    ensures
        ({
            let (a, c) = around(current, device);
            let b = text::pieces(block);
            let out = config_writer::spliced(current, device, block);
            &&& text::pieces(out) == a + b + c
            &&& config_writer::joined(b) == block
            &&& config_writer::section(a + b + c, device) matches Some((from, to))
                && config_writer::block_range(a + b + c, from, to) == Some(
                (a.len() as int, (a.len() + b.len()) as int),
            )
        }),
{
    let (a, c) = around(current, device);
    let b = text::pieces(block);
    let out = config_writer::spliced(current, device, block);
    let at = lemma_around(current, device);
    lemma_are_pieces(block);
    let ps = a + b + c;
    assert forall|k: int| 0 <= k < ps.len() implies is_piece(#[trigger] ps[k]) by {
        if k < a.len() {
            assert(ps[k] == a[k]);
        } else if k < a.len() + b.len() {
            assert(ps[k] == b[k - a.len()]);
        } else {
            assert(ps[k] == c[k - a.len() - b.len()]);
        }
    }
    assert forall|k: int| 0 <= k < ps.len() - 1 implies is_ended(#[trigger] ps[k]) by {
        if k < a.len() {
            assert(ps[k] == a[k]);
        } else if k < a.len() + b.len() {
            assert(ps[k] == b[k - a.len()]);
        } else {
            assert(ps[k] == c[k - a.len() - b.len()]);
        }
    }
    lemma_pieces_of_joined(ps);
    lemma_joined_concat(a + b, c);
    lemma_joined_concat(a, b);
    lemma_found(a, block, c, device, at);
}

/// A block that is written is found again, whole.
pub proof fn law_written_block_is_found(current: Seq<char>, device: Seq<char>, block: Seq<char>)
    requires
        is_name(device),
        is_whole_block(block),
    ensures
        config_writer::block_in(config_writer::spliced(current, device, block), device) == Some(
            block,
        ),
{
    let (a, c) = around(current, device);
    let b = text::pieces(block);
    lemma_spliced_pieces(current, device, block);
    assert((a + b + c).subrange(a.len() as int, (a.len() + b.len()) as int) =~= b);
}

/// A second write replaces the first in place: it comes to the same as if the first had never been.
/// Writing the same block twice is writing it once.
pub proof fn law_second_write_replaces_the_first(
    current: Seq<char>,
    device: Seq<char>,
    first: Seq<char>,
    second: Seq<char>,
)
    requires
        is_name(device),
        is_whole_block(first),
    ensures
        config_writer::spliced(
            config_writer::spliced(current, device, first),
            device,
            second,
        ) == config_writer::spliced(current, device, second),
{
    let (a, c) = around(current, device);
    let b = text::pieces(first);
    lemma_spliced_pieces(current, device, first);
    let ps = a + b + c;
    assert(ps.take(a.len() as int) =~= a);
    assert(ps.skip((a.len() + b.len()) as int) =~= c);
    let at = lemma_around(current, device);
}

/// The managed block of a device among the lines of a text.
spec fn found(ps: Seq<Seq<char>>, device: Seq<char>) -> Option<Seq<char>> {
    match config_writer::section(ps, device) {
        Some((from, to)) => match config_writer::block_range(ps, from, to) {
            Some((p, q)) => Some(config_writer::joined(ps.subrange(p, q))),
            None => None,
        },
        None => None,
    }
}

proof fn lemma_marked_moves(
    ps: Seq<Seq<char>>,
    qs: Seq<Seq<char>>,
    mark: Seq<char>,
    from: int,
    to: int,
    shift: int,
)
    requires
        forall|k: int| from <= k < to ==> #[trigger] qs[k + shift] == ps[k],
    ensures
        config_writer::marked(qs, mark, from + shift, to + shift) == config_writer::marked(
            ps,
            mark,
            from,
            to,
        ) + shift,
    decreases to - from,
{
    if from < to {
        assert(qs[from + shift] == ps[from]);
        lemma_marked_moves(ps, qs, mark, from + 1, to, shift);
    }
}

/// A section that only moved holds what it held.
proof fn lemma_section_moves(
    ps: Seq<Seq<char>>,
    qs: Seq<Seq<char>>,
    device: Seq<char>,
    at: int,
    end: int,
    shift: int,
)
    requires
        0 <= at < end <= ps.len(),
        0 <= at + shift,
        end + shift <= qs.len(),
        config_writer::section(ps, device) == Some((at + 1, end)),
        config_writer::section(qs, device) == Some((at + shift + 1, end + shift)),
        forall|k: int| at < k < end ==> #[trigger] qs[k + shift] == ps[k],
    ensures
        found(qs, device) == found(ps, device),
{
    let from = at + 1;
    lemma_marked_moves(ps, qs, "#CAGE:BEGIN"@, from, end, shift);
    let p = config_writer::marked(ps, "#CAGE:BEGIN"@, from, end);
    lemma_marked(ps, "#CAGE:BEGIN"@, from, end);
    lemma_marked_moves(ps, qs, "#CAGE:END"@, p, end, shift);
    let q = config_writer::marked(ps, "#CAGE:END"@, p, end);
    lemma_marked(ps, "#CAGE:END"@, p, end);
    if p < end && q < end {
        let one = ps.subrange(p, q + 1);
        let two = qs.subrange(p + shift, q + shift + 1);
        assert forall|k: int| 0 <= k < one.len() implies #[trigger] two[k] == one[k] by {
            assert(qs[p + k + shift] == ps[p + k]);
        }
        assert(two =~= one);
    }
}

proof fn lemma_section_end_is(ps: Seq<Seq<char>>, from: int, end: int)
    requires
        0 <= from <= end <= ps.len(),
        forall|k: int| from <= k < end ==> !config_writer::opens_any(#[trigger] ps[k]),
        end < ps.len() ==> config_writer::opens_any(ps[end]),
    ensures
        config_writer::section_end(ps, from) == end,
{
    lemma_section_end(ps, from);
}

/// A line that opens a device's section opens a section, and no other device's.
proof fn lemma_opens(line: Seq<char>, device: Seq<char>)
    requires
        config_writer::opens(line, device),
    ensures
        config_writer::opens_any(line),
        forall|d: Seq<char>| #[trigger] config_writer::opens(line, d) ==> d == device,
{
    reveal_strlit("Device:");
    let t = config_writer::without_eol(line);
    assert(t.take(7)[0] == t[0]);
    assert(text::trim_start(t) == t);
}

/// A write for one device leaves every other device's block as it was, letter for letter. The text may
/// not end in the middle of a line, since that line is ended first.
#[verifier::spinoff_prover]
#[verifier::rlimit(60)]
pub proof fn law_other_devices_keep_their_blocks(
    current: Seq<char>,
    device: Seq<char>,
    block: Seq<char>,
    other: Seq<char>,
)
    requires
        is_name(device),
        is_whole_block(block),
        current.len() > 0 ==> current.last() == '\n',
        other != device,
    ensures
        ({
            let out = config_writer::spliced(current, device, block);
            &&& config_writer::block_in(out, other) == config_writer::block_in(current, other)
            &&& forall|s: config_writer::BlockState| #[trigger]
                config_writer::state_is(s, out, other) == config_writer::state_is(
                    s,
                    current,
                    other,
                )
        }),
{
    let ps = text::pieces(current);
    let (a, c) = around(current, device);
    let b = text::pieces(block);
    let qs = a + b + c;
    let own = lemma_around(current, device);
    lemma_are_pieces(current);
    lemma_spliced_pieces(current, device, block);
    lemma_opening(ps, device, 0);
    lemma_opening(ps, other, 0);
    let o = config_writer::opening(ps, other, 0);
    let n = a.len() as int;
    let m = b.len() as int;
    let y = ps.len() - c.len();
    // What stands before the block is what stood there, but for a section that was added.
    let kept = if config_writer::section(ps, device) is Some {
        n
    } else {
        n - 1
    };
    lemma_section_bounds(ps, device);
    assert(forall|k: int| 0 <= k < kept ==> #[trigger] qs[k] == ps[k]) by {
        lemma_ended_throughout(current);
        let range = config_writer::section(ps, device);
        if range is Some {
            let head = ps.take(n);
            assert(head.len() == n);
            let (from, to) = range->0;
            if config_writer::block_range(ps, from, to) is None {
                assert(head.last() == ps[n - 1]);
                assert(head.drop_last().push(head.last() + Seq::empty()) =~= head) by {
                    assert(head.last() + Seq::empty() =~= head.last());
                }
            }
            assert(a =~= head);
        } else {
            if ps.len() > 0 {
                assert(ps.last() + Seq::empty() =~= ps.last());
                assert(ps.drop_last().push(ps.last()) =~= ps);
            }
            assert(closed(ps) =~= ps);
            assert(a.drop_last() =~= ps);
        }
    }
    assert forall|k: int| y <= k < ps.len() implies #[trigger] qs[k + (n + m - y)] == ps[k] by {
        assert(c[k - y] == ps[k]);
        assert(qs[k + (n + m - y)] == c[k - y]);
    }
    assert forall|k: int| own < k < n + m implies !config_writer::opens_any(#[trigger] qs[k]) by {
        if k < n {
            assert(qs[k] == a[k]);
        } else {
            assert(qs[k] == b[k - n]);
        }
    }
    assert(qs[own] == a[own]);
    lemma_opens(qs[own], device);
    assert forall|k: int| own <= k < n + m implies !config_writer::opens(#[trigger] qs[k], other) by {
        if config_writer::opens(qs[k], other) {
            lemma_opens(qs[k], other);
        }
    }
    assert forall|k: int| 0 <= k < ps.len() && own <= k < y implies !config_writer::opens(
        #[trigger] ps[k],
        other,
    ) by {
        if config_writer::opens(ps[k], other) {
            lemma_opens(ps[k], other);
        }
    }
    lemma_opening(qs, other, 0);
    let r = config_writer::opening(qs, other, 0);
    if o >= ps.len() {
        assert forall|k: int| 0 <= k < qs.len() implies !config_writer::opens(
            #[trigger] qs[k],
            other,
        ) by {
            if k < own {
                assert(qs[k] == ps[k]);
            } else if k >= n + m {
                let j = k - (n + m - y);
                assert(qs[j + (n + m - y)] == ps[j]);
            }
        }
        assert(r == qs.len());
        assert(found(qs, other) == found(ps, other));
    } else if o < own {
        assert(qs[o] == ps[o]);
        assert forall|k: int| 0 <= k < o implies !config_writer::opens(#[trigger] qs[k], other) by {
            assert(qs[k] == ps[k]);
        }
        lemma_opening_is(qs, other, o);
        let end = config_writer::section_end(ps, o + 1);
        lemma_section_end(ps, o + 1);
        assert(end <= own) by {
            if end > own {
                assert(own < ps.len());
                assert(qs[own] == ps[own]);
                assert(!config_writer::opens_any(ps[own]));
            }
        }
        assert forall|k: int| o + 1 <= k < end implies !config_writer::opens_any(#[trigger] qs[k]) by {
            assert(qs[k] == ps[k]);
        }
        if end < own {
            assert(qs[end] == ps[end]);
        }
        lemma_section_end_is(qs, o + 1, end);
        assert forall|k: int| o < k < end implies #[trigger] qs[k + 0] == ps[k] by {
            assert(qs[k] == ps[k]);
        }
        lemma_section_moves(ps, qs, other, o, end, 0);
    } else {
        let shift = n + m - y;
        assert(o >= y);
        assert(qs[o + shift] == ps[o]);
        assert forall|k: int| 0 <= k < o + shift implies !config_writer::opens(
            #[trigger] qs[k],
            other,
        ) by {
            if k < own {
                assert(qs[k] == ps[k]);
            } else if k >= n + m {
                let j = k - shift;
                assert(qs[j + shift] == ps[j]);
            }
        }
        lemma_opening_is(qs, other, o + shift);
        let end = config_writer::section_end(ps, o + 1);
        lemma_section_end(ps, o + 1);
        assert forall|k: int| o + shift + 1 <= k < end + shift implies !config_writer::opens_any(
            #[trigger] qs[k],
        ) by {
            let j = k - shift;
            assert(qs[j + shift] == ps[j]);
        }
        if end < ps.len() {
            assert(qs[end + shift] == ps[end]);
        }
        lemma_section_end_is(qs, o + shift + 1, end + shift);
        lemma_section_moves(ps, qs, other, o, end, shift);
    }
    assert(config_writer::block_in(current, other) == found(ps, other));
    let out = config_writer::spliced(current, device, block);
    assert(config_writer::block_in(out, other) == found(qs, other));
}

/// Ending the last piece moves neither a section nor a block.
proof fn lemma_closed_ranges(ps: Seq<Seq<char>>, device: Seq<char>)
    requires
        are_pieces(ps),
    ensures
        config_writer::section(closed(ps), device) == config_writer::section(ps, device),
        config_writer::section(ps, device) matches Some((from, to)) ==> config_writer::block_range(
            closed(ps),
            from,
            to,
        ) == config_writer::block_range(ps, from, to),
{
    let qs = closed(ps);
    lemma_closed(ps);
    assert forall|k: int| 0 <= k < ps.len() implies config_writer::opens_any(qs[k])
        == config_writer::opens_any(#[trigger] ps[k]) by {
        if k == ps.len() - 1 {
            let l = ps[k];
            lemma_without_eol(l);
            assert(l + seq!['\n'] =~= l.push('\n'));
            assert(l + Seq::empty() =~= l);
        } else {
            assert(qs[k] == ps[k]);
        }
    }
    lemma_opening(ps, device, 0);
    lemma_opening(qs, device, 0);
    let a = config_writer::opening(ps, device, 0);
    let b = config_writer::opening(qs, device, 0);
    assert(a == b) by {
        if a < b {
            assert(config_writer::opens(qs[a], device) == config_writer::opens(ps[a], device));
        } else if b < a {
            assert(config_writer::opens(qs[b], device) == config_writer::opens(ps[b], device));
        }
    }
    if a < ps.len() {
        lemma_section_end(ps, a + 1);
        lemma_section_end(qs, a + 1);
        let to = config_writer::section_end(ps, a + 1);
        let other = config_writer::section_end(qs, a + 1);
        assert(to == other) by {
            if to < other {
                assert(config_writer::opens_any(qs[to]) == config_writer::opens_any(ps[to]));
            } else if other < to {
                assert(config_writer::opens_any(qs[other]) == config_writer::opens_any(ps[other]));
            }
        }
        reveal_strlit("#CAGE:BEGIN");
        reveal_strlit("#CAGE:END");
        lemma_marked_closed(ps, "#CAGE:BEGIN"@, a + 1, to);
        let p = config_writer::marked(ps, "#CAGE:BEGIN"@, a + 1, to);
        lemma_marked(ps, "#CAGE:BEGIN"@, a + 1, to);
        lemma_marked_closed(ps, "#CAGE:END"@, p, to);
    }
}

proof fn lemma_marked_closed(ps: Seq<Seq<char>>, mark: Seq<char>, from: int, to: int)
    requires
        are_pieces(ps),
        0 <= from <= to <= ps.len(),
        mark.len() > 0,
        mark.last() != '\n',
    ensures
        config_writer::marked(closed(ps), mark, from, to) == config_writer::marked(
            ps,
            mark,
            from,
            to,
        ),
    decreases to - from,
{
    if from < to {
        let qs = closed(ps);
        lemma_closed(ps);
        let l = ps[from];
        let n = mark.len() as int;
        assert(text::starts_with(qs[from], mark) == text::starts_with(l, mark)) by {
            if from == ps.len() - 1 {
                let m = qs[from];
                assert(m == l + config_writer::gap_after(l));
                if n <= l.len() {
                    assert(m.take(n) =~= l.take(n));
                } else if n <= m.len() {
                    assert(m.take(n)[n - 1] == '\n');
                }
            } else {
                assert(qs[from] == l);
            }
        }
        lemma_marked_closed(ps, mark, from + 1, to);
    }
}

/// Where a text stands at all, it stands somewhere for the last time.
proof fn lemma_stands_last(s: Seq<char>, p: Seq<char>, i: int) -> (k: int)
    requires
        text::stands_at(s, p, i),
    ensures
        config_writer::stands_last(s, p, k),
    decreases s.len() - i,
{
    if exists|k: int| k > i && text::stands_at(s, p, k) {
        let k = choose|k: int| k > i && text::stands_at(s, p, k);
        lemma_stands_last(s, p, k)
    } else {
        i
    }
}

/// A line feed behind a block's last line changes neither its body nor what its first line claims.
proof fn lemma_block_ends(x: Seq<char>, n: int, i: int)
    requires
        0 <= n < x.len(),
        x[n] == '\n',
        forall|k: int| 0 <= k < n ==> x[k] != '\n',
        text::stands_at(x.skip(n + 1), "#CAGE:END"@, i),
    ensures
        config_writer::body_of(x.push('\n')) == config_writer::body_of(x),
        config_writer::claim_of(x.push('\n')) == config_writer::claim_of(x),
{
    let y = x.push('\n');
    let mark = "#CAGE:END"@;
    reveal_strlit("#CAGE:END");
    text::lemma_index_of_is(x, '\n', n);
    text::lemma_index_of_is(y, '\n', n);
    let a = x.skip(n + 1);
    let b = y.skip(n + 1);
    assert(b =~= a.push('\n'));
    assert forall|k: int| text::stands_at(b, mark, k) == text::stands_at(a, mark, k) by {
        if 0 <= k && k + 9 <= a.len() {
            assert(b.subrange(k, k + 9) =~= a.subrange(k, k + 9));
        } else if 0 <= k && k + 9 <= b.len() {
            assert(b.subrange(k, k + 9)[8] == '\n');
        }
    }
    let m = lemma_stands_last(a, mark, i);
    assert(config_writer::stands_last(b, mark, m));
    let c = choose|c: int| config_writer::stands_last(a, mark, c);
    let d = choose|c: int| config_writer::stands_last(b, mark, c);
    assert(c == m) by {
        if c < m {
            assert(!text::stands_at(a, mark, m));
        }
    }
    assert(d == m) by {
        if d < m {
            assert(!text::stands_at(b, mark, m));
        } else if d > m {
            assert(!text::stands_at(b, mark, d));
        }
    }
    assert(text::contains(b, mark));
    assert(b.take(m) =~= a.take(m));
    assert(text::pieces(x)[0] == x.take(n + 1));
    assert(text::pieces(y)[0] == y.take(n + 1));
    assert(y.take(n + 1) =~= x.take(n + 1));
    assert(text::lines(x)[0] == text::lines(y)[0]);
}

/// Ending the last line of a text changes nothing about the state of any block in it.
proof fn lemma_state_of_ended(t: Seq<char>, device: Seq<char>)
    requires
        t.len() > 0,
        t.last() != '\n',
    ensures
        forall|s: config_writer::BlockState| #[trigger]
            config_writer::state_is(s, t.push('\n'), device) == config_writer::state_is(
                s,
                t,
                device,
            ),
{
    let ps = text::pieces(t);
    let qs = closed(ps);
    lemma_are_pieces(t);
    lemma_closed(ps);
    assert(t + seq!['\n'] =~= t.push('\n'));
    assert(are_pieces(qs));
    lemma_pieces_of_joined(qs);
    assert(text::pieces(t.push('\n')) == qs);
    lemma_closed_ranges(ps, device);
    lemma_section_bounds(ps, device);
    let range = config_writer::section(ps, device);
    if range is Some {
        let (from, to) = range->0;
        let lines = config_writer::block_range(ps, from, to);
        if lines is Some {
            let (p, q) = lines->0;
            let one = ps.subrange(p, q);
            let two = qs.subrange(p, q);
            if q < ps.len() {
                assert(two =~= one);
            } else {
                reveal_strlit("#CAGE:BEGIN");
                reveal_strlit("#CAGE:END");
                let mark = "#CAGE:END"@;
                lemma_marked(ps, "#CAGE:BEGIN"@, from, to);
                lemma_marked(ps, mark, p, to);
                assert(p < q - 1) by {
                    if p == q - 1 {
                        assert(ps[p].take(11)[6] == 'B');
                        assert(ps[p].take(9)[6] == 'E');
                    }
                }
                let l = one.last();
                assert(l == ps[q - 1]);
                assert(one.drop_last().push(l) =~= one);
                assert(two =~= one.drop_last().push(l + seq!['\n']));
                config_writer::lemma_joined_push(one.drop_last(), l);
                config_writer::lemma_joined_push(one.drop_last(), l + seq!['\n']);
                let x = config_writer::joined(one);
                assert(config_writer::joined(two) =~= x.push('\n'));
                let head = ps[p];
                assert(is_piece(head) && is_ended(head));
                let n = head.len() - 1;
                let rest = one.skip(1);
                assert(x == head + config_writer::joined(rest));
                assert forall|k: int| 0 <= k < n implies x[k] != '\n' by {
                    assert(x[k] == head[k]);
                }
                assert(x[n] == head.last());
                assert(rest.drop_last().push(l) =~= rest);
                config_writer::lemma_joined_push(rest.drop_last(), l);
                let after = config_writer::joined(rest);
                assert(x.skip(n + 1) =~= after);
                let i = config_writer::joined(rest.drop_last()).len() as int;
                assert(text::starts_with(l, mark));
                assert(after.subrange(i, i + 9) =~= l.take(9));
                assert(text::stands_at(after, mark, i));
                lemma_block_ends(x, n, i);
            }
        }
    }
}

/// Ending the last line of a text first changes what a write leaves by that line feed at most.
proof fn lemma_spliced_of_ended(current: Seq<char>, device: Seq<char>, block: Seq<char>)
    requires
        current.len() > 0,
        current.last() != '\n',
    ensures
        ({
            let out = config_writer::spliced(current, device, block);
            let two = config_writer::spliced(current.push('\n'), device, block);
            two == out || (out.len() > 0 && out.last() != '\n' && two == out.push('\n'))
        }),
{
    let ps = text::pieces(current);
    let qs = closed(ps);
    lemma_are_pieces(current);
    lemma_closed(ps);
    let more = current.push('\n');
    assert(current + seq!['\n'] =~= more);
    assert(are_pieces(qs));
    lemma_pieces_of_joined(qs);
    assert(text::pieces(more) == qs);
    lemma_closed_ranges(ps, device);
    lemma_section_bounds(ps, device);
    let out = config_writer::spliced(current, device, block);
    let two = config_writer::spliced(more, device, block);
    let range = config_writer::section(ps, device);
    if range is Some {
        let (from, to) = range->0;
        let lines = config_writer::block_range(ps, from, to);
        let (x, y) = if lines is Some {
            lines->0
        } else {
            (from, from)
        };
        if y < ps.len() {
            assert(qs.take(x) =~= ps.take(x));
            let tail = ps.skip(y);
            let l = tail.last();
            assert(l == ps.last());
            assert(tail.drop_last().push(l) =~= tail);
            assert(qs.skip(y) =~= tail.drop_last().push(l + seq!['\n']));
            config_writer::lemma_joined_push(tail.drop_last(), l);
            config_writer::lemma_joined_push(tail.drop_last(), l + seq!['\n']);
            let end = config_writer::joined(tail);
            assert(end.last() == l.last());
            assert(out.last() == end.last());
            assert(config_writer::joined(qs.skip(y)) =~= end.push('\n'));
            assert(two =~= out.push('\n'));
        } else {
            assert(qs.skip(y) =~= ps.skip(y));
            if lines is Some {
                assert(qs.take(x) =~= ps.take(x));
            } else {
                assert(qs.take(from) =~= qs);
                assert(ps.take(from) =~= ps);
                assert(qs[from - 1] == ps.last() + seq!['\n']);
                assert(config_writer::gap_after(qs[from - 1]) =~= Seq::empty());
                assert(two =~= out);
            }
        }
    } else {
        assert(two =~= out);
    }
}

/// A write for one device leaves what is read of every other device's block as it was, whatever the
/// text: its state is the same before and after, and a device without a block has none afterwards
/// either.
pub proof fn law_other_devices_keep_their_state(
    current: Seq<char>,
    device: Seq<char>,
    block: Seq<char>,
    other: Seq<char>,
)
    requires
        is_name(device),
        is_whole_block(block),
        other != device,
    ensures
        forall|s: config_writer::BlockState| #[trigger]
            config_writer::state_is(
                s,
                config_writer::spliced(current, device, block),
                other,
            ) == config_writer::state_is(s, current, other),
{
    if current.len() > 0 && current.last() != '\n' {
        let out = config_writer::spliced(current, device, block);
        let more = current.push('\n');
        law_other_devices_keep_their_blocks(more, device, block, other);
        lemma_state_of_ended(current, other);
        lemma_spliced_of_ended(current, device, block);
        let two = config_writer::spliced(more, device, block);
        if two != out {
            lemma_state_of_ended(out, other);
        }
        assert forall|s: config_writer::BlockState| #[trigger]
            config_writer::state_is(s, out, other) == config_writer::state_is(
                s,
                current,
                other,
            ) by {
            assert(config_writer::state_is(s, two, other) == config_writer::state_is(
                s,
                more,
                other,
            ));
            assert(config_writer::state_is(s, more, other) == config_writer::state_is(
                s,
                current,
                other,
            ));
        }
    } else {
        law_other_devices_keep_their_blocks(current, device, block, other);
    }
}

/// The pieces of a text that ends in a line feed are all ended.
proof fn lemma_ended_throughout(s: Seq<char>)
    requires
        s.len() > 0 ==> s.last() == '\n',
    ensures
        forall|k: int| 0 <= k < text::pieces(s).len() ==> is_ended(#[trigger] text::pieces(s)[k]),
{
    let ps = text::pieces(s);
    lemma_are_pieces(s);
    assert forall|k: int| 0 <= k < ps.len() implies is_ended(#[trigger] ps[k]) by {
        if k == ps.len() - 1 {
            assert(is_piece(ps[k]));
            assert(s.len() > 0);
        }
    }
}

/// Where a device's section and its block lie.
proof fn lemma_section_bounds(ps: Seq<Seq<char>>, device: Seq<char>)
    ensures
        config_writer::section(ps, device) matches Some((from, to)) ==> {
            &&& 0 < from <= to <= ps.len()
            &&& forall|k: int| from <= k < to ==> !config_writer::opens_any(#[trigger] ps[k])
            &&& config_writer::block_range(ps, from, to) matches Some((p, q)) ==> from <= p < q
                <= to
        },
{
    lemma_opening(ps, device, 0);
    let a = config_writer::opening(ps, device, 0);
    if a < ps.len() {
        lemma_section_end(ps, a + 1);
        let to = config_writer::section_end(ps, a + 1);
        lemma_marked(ps, "#CAGE:BEGIN"@, a + 1, to);
        let p = config_writer::marked(ps, "#CAGE:BEGIN"@, a + 1, to);
        lemma_marked(ps, "#CAGE:END"@, p, to);
    }
}

/// The body of a rendered block is exactly what went into it, and its first line claims exactly the
/// fingerprint of that body.
pub proof fn law_rendered_block_gives_back_its_body(preamp_db: Double, filters: Seq<Filter>)
    ensures
        ({
            let block = config_writer::block_text(preamp_db, filters);
            let body = config_writer::body_text(preamp_db, filters);
            &&& config_writer::body_of(block) == body
            &&& config_writer::claim_of(block) == Some(fingerprint::text_fingerprint(body))
        }),
{
    let block = config_writer::block_text(preamp_db, filters);
    let body = config_writer::body_text(preamp_db, filters);
    let hash = fingerprint::text_fingerprint(body);
    let head = "#CAGE:BEGIN hash="@ + hash;
    let mark = "#CAGE:END"@;
    lemma_hash_is_token(body);
    reveal_strlit("#CAGE:BEGIN hash=");
    reveal_strlit("#CAGE:BEGIN");
    reveal_strlit("#CAGE:END");
    reveal_strlit("#CAGE:END\n");
    reveal_strlit("hash=");
    lemma_no_feed_concat("#CAGE:BEGIN hash="@, hash);
    let n = head.len() as int;
    assert(block =~= head + seq!['\n'] + body + "#CAGE:END\n"@);
    assert forall|i: int| 0 <= i < n implies block[i] != '\n' by {
        assert(block[i] == head[i]);
    }
    assert(block[n] == '\n');
    text::lemma_index_of_is(block, '\n', n);
    let after = block.skip(n + 1);
    assert(after =~= body + "#CAGE:END\n"@);
    let m = body.len() as int;
    assert(after.subrange(m, m + 9) =~= mark);
    assert(text::stands_at(after, mark, m));
    assert forall|k: int| k > m implies !#[trigger] text::stands_at(after, mark, k) by {
        if text::stands_at(after, mark, k) {
            assert(k == m + 1);
            assert(after[k] == 'C');
            assert(after.subrange(k, k + 9)[0] == '#');
        }
    }
    assert(config_writer::stands_last(after, mark, m));
    let c = choose|c: int| config_writer::stands_last(after, mark, c);
    assert(c == m) by {
        if c < m {
            assert(!text::stands_at(after, mark, m));
        }
        if c > m {
            assert(!text::stands_at(after, mark, c));
        }
    }
    assert(after.take(m) =~= body);
    // The first line, and the token on it.
    let ws = seq!["#CAGE:BEGIN"@, "hash="@ + hash];
    assert(text::is_token(ws[0]));
    assert(text::is_token(ws[1])) by {
        assert forall|i: int| 0 <= i < ws[1].len() implies !text::is_space(
            #[trigger] ws[1][i],
        ) by {
            if i >= 5 {
                assert(!text::is_space(hash[i - 5]));
            }
        }
    }
    assert forall|i: int| 0 <= i < ws.len() implies text::is_token(#[trigger] ws[i]) by {}
    text::lemma_words_of_spaced(ws);
    reveal_with_fuel(text::spaced, 3);
    assert(ws.skip(1) =~= seq!["hash="@ + hash]);
    assert(text::spaced(ws) =~= head);
    let first = block.take(n + 1);
    assert(first.drop_last() =~= head);
    assert(head.last() != '\r') by {
        assert(head.last() == hash[7]);
        assert(!text::is_space(hash[7]));
    }
    assert(text::lines(block)[0] == head);
    reveal_with_fuel(config_writer::claimed_hash, 3);
    assert(!text::starts_with(ws[0], "hash="@)) by {
        assert(ws[0].take(5)[0] == '#');
    }
    assert(ws[1].take(5) =~= "hash="@);
    assert(ws[1].skip(5) =~= hash);
}

/// What is written reads back as written: right after a write, the state of the device's block is
/// present, and the fingerprint it claims, the one its body has, and the one the write handed out
/// are the same.
pub proof fn law_write_then_read_matches(
    current: Seq<char>,
    device: Seq<char>,
    preamp_db: Double,
    filters: Seq<Filter>,
    s: config_writer::BlockState,
)
    requires
        is_name(device),
        config_writer::state_is(
            s,
            config_writer::spliced(
                current,
                device,
                config_writer::block_text(preamp_db, filters),
            ),
            device,
        ),
    ensures
        s matches config_writer::BlockState::Present { stored_hash: Some(stored), actual_hash }
            && stored@ == actual_hash@ && actual_hash@ == fingerprint::text_fingerprint(
            config_writer::body_text(preamp_db, filters),
        ),
{
    law_rendered_block_is_whole(preamp_db, filters);
    law_written_block_is_found(
        current,
        device,
        config_writer::block_text(preamp_db, filters),
    );
    law_rendered_block_gives_back_its_body(preamp_db, filters);
}

/// Does `s` end in `t`?
pub open spec fn ends_in(s: Seq<char>, t: Seq<char>) -> bool {
    t.len() <= s.len() && s.skip(s.len() - t.len()) == t
}

/// Everything else stays as it is: what stood before the block and what stood after it are there
/// verbatim, and where the device had no section the whole text is. What comes in ends in the block.
pub proof fn law_foreign_text_survives(current: Seq<char>, device: Seq<char>, block: Seq<char>)
    ensures
        ({
            let out = config_writer::spliced(current, device, block);
            exists|before: Seq<char>, old: Seq<char>, after: Seq<char>, new: Seq<char>|
                current == #[trigger] (before + old + after) && out == #[trigger] (before + new
                    + after) && ends_in(new, block) && (old.len() == 0 || config_writer::block_in(current, device) == Some(
                    old,
                ))
        }),
{
    let ps = text::pieces(current);
    let out = config_writer::spliced(current, device, block);
    lemma_are_pieces(current);
    lemma_opening(ps, device, 0);
    match config_writer::section(ps, device) {
        Some((from, to)) => {
            lemma_section_end(ps, from);
            lemma_marked(ps, "#CAGE:BEGIN"@, from, to);
            let p = config_writer::marked(ps, "#CAGE:BEGIN"@, from, to);
            lemma_marked(ps, "#CAGE:END"@, p, to);
            let (x, y) = match config_writer::block_range(ps, from, to) {
                Some((x, y)) => (x, y),
                None => (from, from),
            };
            let before = config_writer::joined(ps.take(x));
            let old = config_writer::joined(ps.subrange(x, y));
            let after = config_writer::joined(ps.skip(y));
            lemma_joined_concat(ps.take(x), ps.subrange(x, y));
            lemma_joined_concat(ps.take(x) + ps.subrange(x, y), ps.skip(y));
            assert(ps.take(x) + ps.subrange(x, y) + ps.skip(y) =~= ps);
            assert(current == before + old + after);
            let gap = if x == y {
                config_writer::gap_after(ps[from - 1])
            } else {
                Seq::empty()
            };
            let new = gap + block;
            assert(out =~= before + new + after);
            assert(new.skip(gap.len() as int) =~= block);
            if x == y {
                assert(ps.subrange(x, y) =~= Seq::empty());
                assert(old.len() == 0);
            }
        },
        None => {
            let new = out.skip(current.len() as int);
            let none = Seq::<char>::empty();
            assert(current =~= current + none + none);
            assert(out =~= current + new + none);
            assert(new.skip(new.len() - block.len()) =~= block);
        },
    }
}

} // verus!
