//! What the two file formats say: every filter, number and line that is written or read means itself.
use crate::apo_config;
use crate::apo_config::{Draft, Fault};
use crate::config_writer;
use crate::decimal;
use crate::double;
use crate::double::Double;
use crate::dsp::{FilterKind, MAX_BANDS};
use crate::fingerprint;
use crate::text;
use vstd::prelude::*;

verus! {

/// The shared format's names for its filters, no two the same.
pub proof fn law_shared_tokens_name_filters(
    k: config_writer::FilterType,
    j: config_writer::FilterType,
)
    ensures
        k is Peaking <==> config_writer::token_of(k) == "PK"@,
        k is LowShelf <==> config_writer::token_of(k) == "LSC"@,
        k is HighShelf <==> config_writer::token_of(k) == "HSC"@,
        config_writer::token_of(k) == config_writer::token_of(j) <==> k == j,
        text::is_token(config_writer::token_of(k)),
{
    reveal_strlit("PK");
    reveal_strlit("LSC");
    reveal_strlit("HSC");
    assert("PK"@[0] == 'P' && "LSC"@[0] == 'L' && "HSC"@[0] == 'H');
}

/// The words of a filter's line.
spec fn filter_words(n: nat, f: config_writer::Filter) -> Seq<Seq<char>> {
    seq![
        "Filter"@,
        decimal::digits(n) + seq![':'],
        "ON"@,
        config_writer::token_of(f.kind),
        "Fc"@,
        decimal::fixed(f.freq_hz, 0),
        "Hz"@,
        "Gain"@,
        decimal::fixed(f.gain_db, 1),
        "dB"@,
        "Q"@,
        decimal::fixed(f.q, 2),
    ]
}

proof fn lemma_filter_words(n: nat, f: config_writer::Filter)
    ensures
        text::words(config_writer::filter_line(n, f)) == filter_words(n, f),
{
    lemma_filter_words_are_tokens(n, f);
    text::lemma_words_of_spaced(filter_words(n, f));
    lemma_filter_is_spaced(n, f);
}

proof fn lemma_letters_are_tokens()
    ensures
        text::is_token("Filter"@),
        text::is_token("ON"@),
        text::is_token("Fc"@),
        text::is_token("Hz"@),
        text::is_token("Gain"@),
        text::is_token("dB"@),
        text::is_token("Q"@),
        text::is_token("Preamp:"@),
{
    reveal_strlit("Filter");
    reveal_strlit("ON");
    reveal_strlit("Fc");
    reveal_strlit("Hz");
    reveal_strlit("Gain");
    reveal_strlit("dB");
    reveal_strlit("Q");
    reveal_strlit("Preamp:");
}

proof fn lemma_spaced_step(ws: Seq<Seq<char>>, k: int)
    requires
        0 <= k < ws.len() - 1,
    ensures
        text::spaced(ws.skip(k)) == ws[k] + seq![' '] + text::spaced(ws.skip(k + 1)),
{
    assert(ws.skip(k).skip(1) =~= ws.skip(k + 1));
    assert(ws.skip(k)[0] == ws[k]);
}

proof fn lemma_spaced_twelve(w: Seq<Seq<char>>)
    requires
        w.len() == 12,
    ensures
        text::spaced(w) == w[0] + seq![' '] + w[1] + seq![' '] + w[2] + seq![' '] + w[3] + seq![' ']
            + w[4] + seq![' '] + w[5] + seq![' '] + w[6] + seq![' '] + w[7] + seq![' '] + w[8]
            + seq![' '] + w[9] + seq![' '] + w[10] + seq![' '] + w[11],
{
    assert(w.skip(0) =~= w);
    lemma_spaced_step(w, 0);
    lemma_spaced_step(w, 1);
    lemma_spaced_step(w, 2);
    lemma_spaced_step(w, 3);
    lemma_spaced_step(w, 4);
    lemma_spaced_step(w, 5);
    lemma_spaced_step(w, 6);
    lemma_spaced_step(w, 7);
    lemma_spaced_step(w, 8);
    lemma_spaced_step(w, 9);
    lemma_spaced_step(w, 10);
    assert(w.skip(11) =~= seq![w[11]]);
    assert(text::spaced(w.skip(11)) == w[11]);
    assert(text::spaced(w) =~= w[0] + seq![' '] + w[1] + seq![' '] + w[2] + seq![' '] + w[3]
        + seq![' '] + w[4] + seq![' '] + w[5] + seq![' '] + w[6] + seq![' '] + w[7] + seq![' ']
        + w[8] + seq![' '] + w[9] + seq![' '] + w[10] + seq![' '] + w[11]);
}

proof fn lemma_preamp_words(preamp_db: Double)
    ensures
        text::words(config_writer::preamp_line(preamp_db)) == seq![
            "Preamp:"@,
            decimal::fixed(preamp_db, 1),
            "dB"@,
        ],
{
    let ws = seq!["Preamp:"@, decimal::fixed(preamp_db, 1), "dB"@];
    reveal_strlit("Preamp: ");
    reveal_strlit("Preamp:");
    reveal_strlit(" dB");
    reveal_strlit("dB");
    decimal::lemma_fixed_is_token(preamp_db, 1);
    lemma_letters_are_tokens();
    assert forall|i: int| 0 <= i < ws.len() implies text::is_token(#[trigger] ws[i]) by {}
    text::lemma_words_of_spaced(ws);
    assert(ws.skip(0) =~= ws);
    lemma_spaced_step(ws, 0);
    lemma_spaced_step(ws, 1);
    assert(ws.skip(2) =~= seq![ws[2]]);
    assert(text::spaced(ws) =~= config_writer::preamp_line(preamp_db));
}

proof fn lemma_body_is_lines(preamp_db: Double, filters: Seq<config_writer::Filter>)
    ensures
        text::lines(config_writer::body_text(preamp_db, filters)) == config_writer::body_lines(
            preamp_db,
            filters,
        ),
{
    let ls = config_writer::body_lines(preamp_db, filters);
    assert forall|i: int| 0 <= i < ls.len() implies text::is_line(#[trigger] ls[i]) by {
        if i == 0 {
            lemma_preamp_is_line(preamp_db);
        } else {
            lemma_filter_is_line(i as nat, filters[i - 1]);
            assert(ls[i] == config_writer::filter_line(i as nat, filters[i - 1]));
        }
    }
    text::lemma_lines_of_unlines(ls);
}

proof fn lemma_filter_is_line(n: nat, f: config_writer::Filter)
    ensures
        text::is_line(config_writer::filter_line(n, f)),
{
    let ws = filter_words(n, f);
    lemma_filter_words_are_tokens(n, f);
    text::lemma_spaced_is_line(ws);
    lemma_filter_is_spaced(n, f);
}

proof fn lemma_filter_words_are_tokens(n: nat, f: config_writer::Filter)
    ensures
        forall|i: int|
            0 <= i < filter_words(n, f).len() ==> text::is_token(#[trigger] filter_words(n, f)[i]),
{
    let ws = filter_words(n, f);
    law_shared_tokens_name_filters(f.kind, f.kind);
    decimal::lemma_fixed_is_token(f.freq_hz, 0);
    decimal::lemma_fixed_is_token(f.gain_db, 1);
    decimal::lemma_fixed_is_token(f.q, 2);
    decimal::lemma_digits_shape(n);
    lemma_letters_are_tokens();
    let d = decimal::digits(n) + seq![':'];
    assert(text::is_token(d)) by {
        assert forall|i: int| 0 <= i < d.len() implies !text::is_space(#[trigger] d[i]) by {
            if i < decimal::digits(n).len() {
                assert(decimal::is_digit(decimal::digits(n)[i]));
                assert(d[i] == decimal::digits(n)[i]);
            }
        }
    }
}

proof fn lemma_filter_is_spaced(n: nat, f: config_writer::Filter)
    ensures
        text::spaced(filter_words(n, f)) == config_writer::filter_line(n, f),
{
    let ws = filter_words(n, f);
    reveal_strlit("Filter ");
    reveal_strlit("Filter");
    reveal_strlit(": ON ");
    reveal_strlit("ON");
    reveal_strlit(" Fc ");
    reveal_strlit("Fc");
    reveal_strlit(" Hz Gain ");
    reveal_strlit("Hz");
    reveal_strlit("Gain");
    reveal_strlit(" dB Q ");
    reveal_strlit("dB");
    reveal_strlit("Q");
    lemma_spaced_twelve(ws);
    assert(text::spaced(ws) =~= config_writer::filter_line(n, f));
}

proof fn lemma_preamp_is_line(preamp_db: Double)
    ensures
        text::is_line(config_writer::preamp_line(preamp_db)),
{
    let ws = seq!["Preamp:"@, decimal::fixed(preamp_db, 1), "dB"@];
    reveal_strlit("Preamp: ");
    reveal_strlit("Preamp:");
    reveal_strlit(" dB");
    reveal_strlit("dB");
    decimal::lemma_fixed_is_token(preamp_db, 1);
    lemma_letters_are_tokens();
    assert forall|i: int| 0 <= i < ws.len() implies text::is_token(#[trigger] ws[i]) by {}
    text::lemma_spaced_is_line(ws);
    assert(ws.skip(0) =~= ws);
    lemma_spaced_step(ws, 0);
    lemma_spaced_step(ws, 1);
    assert(ws.skip(2) =~= seq![ws[2]]);
    assert(text::spaced(ws) =~= config_writer::preamp_line(preamp_db));
}

/// A reader of the managed block finds in it what was written: a first line with the preamp, then one
/// line for each filter, in order and numbered from one, each with the filter's name, its centre, its
/// gain and its Q where they belong.
pub proof fn law_managed_lines_are_read_back(
    preamp_db: Double,
    filters: Seq<config_writer::Filter>,
)
    ensures
        ({
            let ls = text::lines(config_writer::body_text(preamp_db, filters));
            &&& ls.len() == filters.len() + 1
            &&& text::words(ls[0])[0] == "Preamp:"@
            &&& text::words(ls[0])[1] == decimal::fixed(preamp_db, 1)
            &&& forall|i: int|
                0 <= i < filters.len() ==> {
                    let f = #[trigger] filters[i];
                    let w = text::words(ls[i + 1]);
                    &&& w.len() == 12
                    &&& w[0] == "Filter"@ && w[1] == decimal::digits((i + 1) as nat) + seq![':']
                    &&& w[2] == "ON"@
                    &&& f.kind is Peaking <==> w[3] == "PK"@
                    &&& f.kind is LowShelf <==> w[3] == "LSC"@
                    &&& f.kind is HighShelf <==> w[3] == "HSC"@
                    &&& w[4] == "Fc"@ && w[5] == decimal::fixed(f.freq_hz, 0)
                    &&& w[7] == "Gain"@ && w[8] == decimal::fixed(f.gain_db, 1)
                    &&& w[10] == "Q"@ && w[11] == decimal::fixed(f.q, 2)
                }
        }),
{
    let all = config_writer::body_lines(preamp_db, filters);
    lemma_body_is_lines(preamp_db, filters);
    lemma_preamp_words(preamp_db);
    assert(all[0] == config_writer::preamp_line(preamp_db));
    assert forall|i: int| 0 <= i < filters.len() implies text::words(all[i + 1]) == filter_words(
        (i + 1) as nat,
        #[trigger] filters[i],
    ) && text::is_token(config_writer::token_of(filters[i].kind)) && (filters[i].kind is Peaking
        <==> config_writer::token_of(filters[i].kind) == "PK"@) && (filters[i].kind is LowShelf
        <==> config_writer::token_of(filters[i].kind) == "LSC"@) && (filters[i].kind is HighShelf
        <==> config_writer::token_of(filters[i].kind) == "HSC"@) by {
        lemma_filter_words((i + 1) as nat, filters[i]);
        law_shared_tokens_name_filters(filters[i].kind, filters[i].kind);
    }
}

/// The managed text tells filters apart: two sets with one text have the same preamp and the same
/// filters, kind by kind and number by number as far as the places go, in the same order.
pub proof fn law_managed_text_tells_filters_apart(
    p: Double,
    fs: Seq<config_writer::Filter>,
    q: Double,
    gs: Seq<config_writer::Filter>,
)
    requires
        config_writer::body_text(p, fs) == config_writer::body_text(q, gs),
    ensures
        decimal::fixed(p, 1) == decimal::fixed(q, 1),
        fs.len() == gs.len(),
        forall|i: int|
            0 <= i < fs.len() ==> {
                let f = #[trigger] fs[i];
                let g = gs[i];
                &&& f.kind == g.kind
                &&& decimal::fixed(f.freq_hz, 0) == decimal::fixed(g.freq_hz, 0)
                &&& decimal::fixed(f.gain_db, 1) == decimal::fixed(g.gain_db, 1)
                &&& decimal::fixed(f.q, 2) == decimal::fixed(g.q, 2)
            },
{
    law_managed_lines_are_read_back(p, fs);
    law_managed_lines_are_read_back(q, gs);
    assert forall|i: int| 0 <= i < fs.len() implies {
        let f = #[trigger] fs[i];
        let g = gs[i];
        &&& f.kind == g.kind
        &&& decimal::fixed(f.freq_hz, 0) == decimal::fixed(g.freq_hz, 0)
        &&& decimal::fixed(f.gain_db, 1) == decimal::fixed(g.gain_db, 1)
        &&& decimal::fixed(f.q, 2) == decimal::fixed(g.q, 2)
    } by {
        assert(gs[i] == gs[i]);
        law_shared_tokens_name_filters(fs[i].kind, gs[i].kind);
    }
}

/// The engine's format's names for its filters, no two the same, and no other word names one.
pub proof fn law_engine_tokens_name_filters(t: Seq<char>, k: FilterKind)
    ensures
        apo_config::kind_of(t) == Some(k) <==> t == apo_config::token_of(k),
        k is Peaking <==> apo_config::token_of(k) == "PK"@,
        k is LowShelf <==> apo_config::token_of(k) == "LSC"@,
        k is HighShelf <==> apo_config::token_of(k) == "HSC"@,
        k is Bandpass <==> apo_config::token_of(k) == "BP"@,
{
    reveal_strlit("PK");
    reveal_strlit("LSC");
    reveal_strlit("HSC");
    reveal_strlit("BP");
    assert("PK"@[0] == 'P' && "LSC"@[0] == 'L' && "HSC"@[0] == 'H' && "BP"@[0] == 'B');
}

/// A blank line and a comment change nothing, wherever they stand.
pub proof fn law_blank_and_comment_lines_are_skipped(d: Draft, line: Seq<char>)
    requires
        text::trim(line).len() == 0 || text::trim(line)[0] == '#',
    ensures
        apo_config::take_line(d, line) == Ok::<Draft, Fault>(d),
{
}

/// The first line that counts must be the header: the magic word, the version one, and nothing more.
/// It gathers nothing.
pub proof fn law_header_comes_first(d: Draft, line: Seq<char>)
    requires
        !d.header,
        text::trim(line).len() > 0,
        text::trim(line)[0] != '#',
    ensures
        ({
            let w = text::words(text::trim(line));
            let fits = w.len() == 2 && w[0] == "cageq-apo"@ && apo_config::version_of(w[1]) == Some(
                1nat,
            );
            &&& apo_config::take_line(d, line) is Ok <==> fits
            &&& fits ==> apo_config::take_line(d, line)->Ok_0.header
            &&& fits ==> apo_config::take_line(d, line)->Ok_0.preamp == d.preamp
            &&& fits ==> apo_config::take_line(d, line)->Ok_0.bands == d.bands
        }),
{
    text::lemma_words_trimmed(text::trim(line));
}

/// After the header a line is a preamp, a band, or refused. A preamp line sets the preamp to the number
/// that it gives, once; a band line adds the one band that it gives, behind those before it; each
/// leaves everything else as it was.
pub proof fn law_directives_say_what_they_set(d: Draft, line: Seq<char>)
    requires
        d.header,
        text::trim(line).len() > 0,
        text::trim(line)[0] != '#',
        apo_config::take_line(d, line) is Ok,
    ensures
        ({
            let w = text::words(text::trim(line));
            let r = apo_config::take_line(d, line)->Ok_0;
            &&& r.header
            &&& w[0] == "preamp"@ || w[0] == "band"@
            &&& w[0] == "preamp"@ ==> {
                &&& w.len() == 2 && d.preamp is None
                &&& r.preamp == decimal::parsed(w[1]) && r.preamp is Some
                &&& r.bands == d.bands
            }
            &&& w[0] == "band"@ ==> {
                &&& w.len() == 5 && d.bands.len() != MAX_BANDS
                &&& r.bands.len() == d.bands.len() + 1
                &&& forall|i: int| 0 <= i < d.bands.len() ==> #[trigger] r.bands[i] == d.bands[i]
                &&& w[1] == apo_config::token_of(r.bands.last().kind)
                &&& decimal::parsed(w[2]) == Some(r.bands.last().freq_hz)
                &&& decimal::parsed(w[3]) == Some(r.bands.last().gain_db)
                &&& decimal::parsed(w[4]) == Some(r.bands.last().q)
                &&& r.preamp == d.preamp
            }
        }),
{
    reveal_strlit("preamp");
    reveal_strlit("band");
    assert("preamp"@[0] == 'p' && "band"@[0] == 'b');
    let w = text::words(text::trim(line));
    let r = apo_config::take_line(d, line)->Ok_0;
    if w[0] == "preamp"@ {
        assert(apo_config::number_at(w, 1) is Ok);
        assert(r.preamp == Some(apo_config::number_at(w, 1)->Ok_0));
    }
    if w[0] == "band"@ {
        let b = apo_config::band_line(w, d.bands.len())->Ok_0;
        assert(w[0] != "preamp"@);
        assert(r.bands == d.bands.push(b));
        assert(r.bands.last() == b);
        assert(apo_config::number_at(w, 2) is Ok && apo_config::number_at(w, 3) is Ok
            && apo_config::number_at(w, 4) is Ok);
        law_engine_tokens_name_filters(w[1], b.kind);
    }
}

/// A well-formed preamp line and a well-formed band line are taken.
pub proof fn law_good_directives_are_taken(d: Draft, line: Seq<char>, k: FilterKind)
    requires
        d.header,
        text::trim(line).len() > 0,
        text::trim(line)[0] != '#',
    ensures
        ({
            let w = text::words(text::trim(line));
            &&& w.len() == 2 && w[0] == "preamp"@ && d.preamp is None && good_number(w[1])
                ==> apo_config::take_line(d, line) is Ok
            &&& w.len() == 5 && w[0] == "band"@ && w[1] == apo_config::token_of(k)
                && d.bands.len() < MAX_BANDS && good_number(w[2]) && good_number(w[3])
                && good_number(w[4]) && double::less(double::zero(), decimal::parsed(w[2])->0)
                && double::less(double::zero(), decimal::parsed(w[4])->0)
                ==> apo_config::take_line(d, line) is Ok
        }),
{
    reveal_strlit("preamp");
    reveal_strlit("band");
    assert("preamp"@[0] == 'p' && "band"@[0] == 'b');
    let w = text::words(text::trim(line));
    if w.len() == 5 {
        law_engine_tokens_name_filters(w[1], k);
    }
}

/// Is a token a finite number?
pub open spec fn good_number(t: Seq<char>) -> bool {
    decimal::parsed(t) matches Some(x) && double::is_finite(x)
}

/// A refused band names its cause.
pub proof fn law_refused_band_names_its_cause(w: Seq<Seq<char>>, before: nat)
    ensures
        match apo_config::band_line(w, before) {
            Ok(b) => before != MAX_BANDS && w.len() == 5,
            Err(Fault::TooManyBands) => before == MAX_BANDS,
            Err(Fault::UnknownFilter) => w.len() < 2 || forall|k: FilterKind|
                w[1] != #[trigger] apo_config::token_of(k),
            Err(Fault::BadNumber) => exists|i: int|
                2 <= i <= 4 && (i >= w.len() || decimal::parsed(#[trigger] w[i]) is None),
            Err(Fault::NotFinite) => exists|i: int|
                2 <= i <= 4 && i < w.len() && (decimal::parsed(#[trigger] w[i]) matches Some(x)
                    && !double::is_finite(x)),
            Err(Fault::FrequencyNotPositive) => decimal::parsed(w[2]) matches Some(x)
                && !double::less(double::zero(), x),
            Err(Fault::QNotPositive) => decimal::parsed(w[4]) matches Some(x) && !double::less(
                double::zero(),
                x,
            ),
            Err(Fault::Tail) => w.len() > 5,
            Err(_) => false,
        },
{
    if w.len() >= 2 {
        assert forall|k: FilterKind| apo_config::kind_of(w[1]) is None implies w[1]
            != #[trigger] apo_config::token_of(k) by {
            law_engine_tokens_name_filters(w[1], k);
        }
    }
    match apo_config::band_line(w, before) {
        Err(Fault::BadNumber) => {
            assert(w[2] == w[2] && w[3] == w[3] && w[4] == w[4]);
            if apo_config::number_at(w, 2) == Err::<Double, Fault>(Fault::BadNumber) {
                assert(2 >= w.len() || decimal::parsed(w[2]) is None);
            } else if apo_config::number_at(w, 3) == Err::<Double, Fault>(Fault::BadNumber) {
                assert(3 >= w.len() || decimal::parsed(w[3]) is None);
            } else {
                assert(4 >= w.len() || decimal::parsed(w[4]) is None);
            }
        },
        _ => {},
    }
}

/// How long the words for a fault are, and their first letter.
spec fn reason_mark(f: Fault) -> (nat, char) {
    match f {
        Fault::NoHeader => (39, 'e'),
        Fault::BadVersion => (17, 'm'),
        Fault::OtherVersion => (26, 'u'),
        Fault::HeaderTail => (32, 't'),
        Fault::DuplicatePreamp => (16, 'd'),
        Fault::TooManyBands => (14, 't'),
        Fault::UnknownFilter => (19, 'u'),
        Fault::BadNumber => (27, 'm'),
        Fault::NotFinite => (20, 'v'),
        Fault::FrequencyNotPositive => (26, 'f'),
        Fault::QNotPositive => (18, 'Q'),
        Fault::UnknownDirective => (17, 'u'),
        Fault::Tail => (15, 't'),
    }
}

proof fn lemma_reason_mark(f: Fault)
    ensures
        apo_config::reason_of(f).len() == reason_mark(f).0,
        apo_config::reason_of(f)[0] == reason_mark(f).1,
{
    match f {
        Fault::NoHeader => {
            reveal_strlit("expected a 'cageq-apo <version>' header");
        },
        Fault::BadVersion => {
            reveal_strlit("malformed version");
        },
        Fault::OtherVersion => {
            reveal_strlit("unsupported format version");
        },
        Fault::HeaderTail => {
            reveal_strlit("trailing tokens after the header");
        },
        Fault::DuplicatePreamp => {
            reveal_strlit("duplicate preamp");
        },
        Fault::TooManyBands => {
            reveal_strlit("too many bands");
        },
        Fault::UnknownFilter => {
            reveal_strlit("unknown filter type");
        },
        Fault::BadNumber => {
            reveal_strlit("missing or malformed number");
        },
        Fault::NotFinite => {
            reveal_strlit("value must be finite");
        },
        Fault::FrequencyNotPositive => {
            reveal_strlit("frequency must be positive");
        },
        Fault::QNotPositive => {
            reveal_strlit("Q must be positive");
        },
        Fault::UnknownDirective => {
            reveal_strlit("unknown directive");
        },
        Fault::Tail => {
            reveal_strlit("trailing tokens");
        },
    }
}

/// Each reason has its own words.
pub proof fn law_reasons_differ(f: Fault, g: Fault)
    requires
        f != g,
    ensures
        apo_config::reason_of(f) != apo_config::reason_of(g),
{
    lemma_reason_mark(f);
    lemma_reason_mark(g);
}

/// How many of the first `n` lines begin with a word, blank lines and comments aside.
pub open spec fn lines_with(lines: Seq<Seq<char>>, word: Seq<char>, n: nat) -> nat
    decreases n,
{
    if n == 0 {
        0
    } else {
        let t = text::trim(lines[n - 1]);
        lines_with(lines, word, (n - 1) as nat) + if t.len() > 0 && t[0] != '#' && text::words(t)[0]
            == word {
            1nat
        } else {
            0
        }
    }
}

/// Nothing in an accepted file is lost: it has one header, a band for every band line, of which there
/// are 64 at most, and a preamp exactly where there is a preamp line, of which there is one at most.
pub proof fn law_every_line_counts(lines: Seq<Seq<char>>, n: nat)
    requires
        apo_config::take_lines(lines, n) is Ok,
    ensures
        ({
            let d = apo_config::take_lines(lines, n)->Ok_0;
            &&& d.bands.len() == lines_with(lines, "band"@, n)
            &&& d.bands.len() <= 64
            &&& lines_with(lines, "preamp"@, n) == (if d.preamp is Some {
                1nat
            } else {
                0
            })
            &&& d.header <==> lines_with(lines, "cageq-apo"@, n) == 1
            &&& lines_with(lines, "cageq-apo"@, n) <= 1
        }),
    decreases n,
{
    reveal_strlit("preamp");
    reveal_strlit("band");
    reveal_strlit("cageq-apo");
    assert("preamp"@[0] == 'p' && "band"@[0] == 'b' && "cageq-apo"@[0] == 'c');
    if n > 0 {
        law_every_line_counts(lines, (n - 1) as nat);
        let before = apo_config::take_lines(lines, (n - 1) as nat)->Ok_0;
        let line = lines[n - 1];
        let t = text::trim(line);
        if t.len() > 0 && t[0] != '#' {
            if before.header {
                law_directives_say_what_they_set(before, line);
            } else {
                law_header_comes_first(before, line);
            }
        }
    }
}

/// What a file without a preamp line means: no gain.
pub proof fn law_missing_preamp_is_none(s: Seq<char>)
    requires
        apo_config::meaning(s) is Ok,
        lines_with(text::lines(s), "preamp"@, text::lines(s).len()) == 0,
    ensures
        apo_config::meaning(s)->Ok_0.preamp_db == double::zero(),
{
    law_every_line_counts(text::lines(s), text::lines(s).len());
}

/// A file means what its lines gathered: its bands are theirs, and as many as there are band lines; its
/// preamp is the one that was set.
pub proof fn law_file_means_its_lines(s: Seq<char>)
    requires
        apo_config::meaning(s) is Ok,
    ensures
        ({
            let ls = text::lines(s);
            let c = apo_config::meaning(s)->Ok_0;
            &&& apo_config::take_lines(ls, ls.len()) is Ok
            &&& c.bands == apo_config::take_lines(ls, ls.len())->Ok_0.bands
            &&& c.bands.len() == lines_with(ls, "band"@, ls.len())
            &&& apo_config::take_lines(ls, ls.len())->Ok_0.preamp matches Some(x) ==> c.preamp_db
                == x
            &&& lines_with(ls, "cageq-apo"@, ls.len()) == 1
        }),
{
    law_every_line_counts(text::lines(s), text::lines(s).len());
}

/// A device's section is opened by the line that names it, spaces aside; one line opens one section,
/// and opens one at all.
pub proof fn law_section_is_opened_by_its_name(
    line: Seq<char>,
    device: Seq<char>,
    other: Seq<char>,
)
    ensures
        config_writer::opens(line, device) && config_writer::opens(line, other) ==> device == other,
        config_writer::opens(line, device) ==> config_writer::opens_any(line),
        text::trim(device) == device && text::is_line(device) && device.len() > 0
            ==> config_writer::opens("Device: "@ + device + seq!['\n'], device),
{
    reveal_strlit("Device:");
    reveal_strlit("Device: ");
    let t = config_writer::without_eol(line);
    if config_writer::opens(line, device) {
        assert(t.take(7)[0] == t[0]);
        assert(t[0] == 'D');
        assert(text::trim_start(t) == t);
    }
    if text::trim(device) == device && text::is_line(device) && device.len() > 0 {
        let s = "Device: "@ + device;
        let l = s + seq!['\n'];
        assert(l.drop_last() =~= s);
        assert(device.last() != '\n' && device.last() != '\r');
        assert(s.last() == device.last());
        assert(config_writer::without_eol(s) == s);
        assert(config_writer::without_eol(l) == s);
        assert(s.take(7) =~= "Device:"@);
        let r = s.skip(7);
        assert(r =~= seq![' '] + device);
        assert(r.skip(1) =~= device);
        assert(text::trim_start(r) == text::trim_start(device));
    }
}

proof fn lemma_opening(ps: Seq<Seq<char>>, device: Seq<char>, from: int)
    requires
        0 <= from <= ps.len(),
    ensures
        from <= config_writer::opening(ps, device, from) <= ps.len(),
        config_writer::opening(ps, device, from) < ps.len() ==> config_writer::opens(
            ps[config_writer::opening(ps, device, from)],
            device,
        ),
        forall|i: int|
            from <= i < config_writer::opening(ps, device, from) ==> !config_writer::opens(
                #[trigger] ps[i],
                device,
            ),
    decreases ps.len() - from,
{
    if from < ps.len() && !config_writer::opens(ps[from], device) {
        lemma_opening(ps, device, from + 1);
    }
}

proof fn lemma_section_end(ps: Seq<Seq<char>>, from: int)
    requires
        0 <= from <= ps.len(),
    ensures
        from <= config_writer::section_end(ps, from) <= ps.len(),
        config_writer::section_end(ps, from) < ps.len() ==> config_writer::opens_any(
            ps[config_writer::section_end(ps, from)],
        ),
        forall|i: int|
            from <= i < config_writer::section_end(ps, from) ==> !config_writer::opens_any(
                #[trigger] ps[i],
            ),
    decreases ps.len() - from,
{
    if from < ps.len() && !config_writer::opens_any(ps[from]) {
        lemma_section_end(ps, from + 1);
    }
}

/// A device's section runs from behind the first line that opens it to the next line that opens any;
/// there is none exactly where no line opens it.
pub proof fn law_section_runs_to_the_next(ps: Seq<Seq<char>>, device: Seq<char>)
    ensures
        match config_writer::section(ps, device) {
            Some((from, to)) => {
                &&& 0 < from <= to <= ps.len()
                &&& config_writer::opens(ps[from - 1], device)
                &&& forall|i: int|
                    0 <= i < from - 1 ==> !config_writer::opens(#[trigger] ps[i], device)
                &&& forall|i: int| from <= i < to ==> !config_writer::opens_any(#[trigger] ps[i])
                &&& to < ps.len() ==> config_writer::opens_any(ps[to])
            },
            None => forall|i: int|
                0 <= i < ps.len() ==> !config_writer::opens(#[trigger] ps[i], device),
        },
{
    lemma_opening(ps, device, 0);
    let a = config_writer::opening(ps, device, 0);
    if a < ps.len() {
        lemma_section_end(ps, a + 1);
    }
}

proof fn lemma_marked(ps: Seq<Seq<char>>, mark: Seq<char>, from: int, to: int)
    requires
        from <= to,
    ensures
        from <= config_writer::marked(ps, mark, from, to) <= to,
        config_writer::marked(ps, mark, from, to) < to ==> text::starts_with(
            ps[config_writer::marked(ps, mark, from, to)],
            mark,
        ),
        forall|i: int|
            from <= i < config_writer::marked(ps, mark, from, to) ==> !text::starts_with(
                #[trigger] ps[i],
                mark,
            ),
    decreases to - from,
{
    if from < to && !text::starts_with(ps[from], mark) {
        lemma_marked(ps, mark, from + 1, to);
    }
}

/// The managed block of a section runs from its first line with the first marker through the next with
/// the second; there is none exactly where that pair is not there.
pub proof fn law_block_runs_from_mark_to_mark(ps: Seq<Seq<char>>, from: int, to: int)
    requires
        0 <= from <= to <= ps.len(),
    ensures
        match config_writer::block_range(ps, from, to) {
            Some((p, q)) => {
                &&& from <= p < q <= to
                &&& text::starts_with(ps[p], "#CAGE:BEGIN"@)
                &&& text::starts_with(ps[q - 1], "#CAGE:END"@)
                &&& forall|i: int|
                    from <= i < p ==> !text::starts_with(#[trigger] ps[i], "#CAGE:BEGIN"@)
                &&& forall|i: int|
                    p <= i < q - 1 ==> !text::starts_with(#[trigger] ps[i], "#CAGE:END"@)
            },
            None => forall|i: int, j: int|
                from <= i <= j < to && text::starts_with(#[trigger] ps[i], "#CAGE:BEGIN"@)
                    ==> !text::starts_with(#[trigger] ps[j], "#CAGE:END"@),
        },
{
    lemma_marked(ps, "#CAGE:BEGIN"@, from, to);
    let p = config_writer::marked(ps, "#CAGE:BEGIN"@, from, to);
    lemma_marked(ps, "#CAGE:END"@, p, to);
}

/// A block's first line claims a fingerprint where one of its words begins with `hash=`: what stands
/// behind that in the first such word.
pub proof fn law_claim_is_behind_its_name(ws: Seq<Seq<char>>, k: int, hash: Seq<char>)
    requires
        0 <= k < ws.len(),
        forall|i: int| 0 <= i < k ==> !text::starts_with(#[trigger] ws[i], "hash="@),
        ws[k] == "hash="@ + hash,
    ensures
        config_writer::claimed_hash(ws) == Some(hash),
    decreases k,
{
    reveal_strlit("hash=");
    if k == 0 {
        assert(ws[0].take(5) =~= "hash="@);
        assert(ws[0].skip(5) =~= hash);
    } else {
        let rest = ws.skip(1);
        assert(!text::starts_with(ws[0], "hash="@));
        assert forall|i: int| 0 <= i < k - 1 implies !text::starts_with(
            #[trigger] rest[i],
            "hash="@,
        ) by {
            assert(rest[i] == ws[i + 1]);
        }
        law_claim_is_behind_its_name(rest, k - 1, hash);
    }
}

/// A written block stands between its markers, with the fingerprint of the lines between on the first.
pub proof fn law_block_is_marked(preamp_db: Double, filters: Seq<config_writer::Filter>)
    ensures
        ({
            let block = config_writer::block_text(preamp_db, filters);
            let body = config_writer::body_text(preamp_db, filters);
            let head = "#CAGE:BEGIN hash="@ + fingerprint::text_fingerprint(body) + seq!['\n'];
            &&& text::starts_with(block, head + body)
            &&& block.skip((head + body).len() as int) == "#CAGE:END"@ + seq!['\n']
        }),
{
    reveal_strlit("#CAGE:END");
    reveal_strlit("#CAGE:END\n");
    let block = config_writer::block_text(preamp_db, filters);
    let body = config_writer::body_text(preamp_db, filters);
    let head = "#CAGE:BEGIN hash="@ + fingerprint::text_fingerprint(body) + seq!['\n'];
    assert(block.take((head + body).len() as int) =~= head + body);
    assert(block.skip((head + body).len() as int) =~= "#CAGE:END"@ + seq!['\n']);
}

/// White space in front of a line does not hide that it opens a section.
pub proof fn law_indented_line_opens_a_section(line: Seq<char>, c: char)
    requires
        text::is_space(c),
        c != '\n',
        c != '\r',
    ensures
        config_writer::opens_any(seq![c] + line) == config_writer::opens_any(line),
{
    lemma_without_eol_behind(line, c);
    let t = config_writer::without_eol(line);
    assert((seq![c] + t).skip(1) =~= t);
}

proof fn lemma_without_eol_behind(line: Seq<char>, c: char)
    requires
        c != '\n',
        c != '\r',
    ensures
        config_writer::without_eol(seq![c] + line) == seq![c] + config_writer::without_eol(line),
    decreases line.len(),
{
    let s = seq![c] + line;
    if line.len() == 0 {
        assert(s =~= seq![c]);
        assert(s.last() == c);
    } else {
        assert(s.last() == line.last());
        assert(s.drop_last() =~= seq![c] + line.drop_last());
        lemma_without_eol_behind(line.drop_last(), c);
    }
}

} // verus!
