//! Persistent per-endpoint configuration: what the engine applies when nobody is driving it.
//!
//! A tiny versioned line format:
//!
//! ```text
//! cageq-apo 1
//! preamp -6.5
//! band PK 105 3.0 0.70
//! band LSC 1000 -2.4 1.40
//! ```
//!
//! Parsing is strict and all-or-nothing: any malformed line, and any directive that is not known,
//! rejects the whole file. Only blank lines and `#` comments are skipped.
use crate::decimal;
use crate::double;
use crate::double::Double;
use crate::dsp::{Band, FilterKind, MAX_BANDS};
use crate::endpoint;
use crate::text;
use vstd::arithmetic::power::*;
use vstd::arithmetic::power2::*;
use vstd::prelude::*;

verus! {

/// A parsed configuration: exactly what to hand the engine.
#[derive(Clone, Debug, PartialEq, Eq)]
pub struct ApoConfig {
    pub preamp_db: Double,
    pub bands: Vec<Band>,
}

impl Default for ApoConfig {
    /// No correction: the neutral state, and what an absent config file means.
    fn default() -> (r: ApoConfig)
        ensures
            r.preamp_db == double::zero(),
            r.bands@ == Seq::<Band>::empty(),
    {
        ApoConfig { preamp_db: Double { bits: 0 }, bands: Vec::new() }
    }
}

/// Why a file was refused.
#[derive(Clone, Debug, PartialEq, Eq)]
pub struct ParseError {
    /// 1-based line number, so a complaint can be acted on; 0 where no one line is at fault.
    pub line: usize,
    pub reason: &'static str,
}

/// The reasons a file can be refused for.
pub enum Fault {
    NoHeader,
    BadVersion,
    OtherVersion,
    HeaderTail,
    DuplicatePreamp,
    TooManyBands,
    UnknownFilter,
    BadNumber,
    NotFinite,
    FrequencyNotPositive,
    QNotPositive,
    UnknownDirective,
    Tail,
}

/// What a parse has gathered so far.
pub struct Draft {
    pub header: bool,
    pub preamp: Option<Double>,
    pub bands: Seq<Band>,
}

/// The filter that a token names.
pub open spec fn kind_of(token: Seq<char>) -> Option<FilterKind> {
    if token == "PK"@ {
        Some(FilterKind::Peaking)
    } else if token == "LSC"@ {
        Some(FilterKind::LowShelf)
    } else if token == "HSC"@ {
        Some(FilterKind::HighShelf)
    } else if token == "BP"@ {
        Some(FilterKind::Bandpass)
    } else {
        None
    }
}

/// The token that names a filter.
pub open spec fn token_of(kind: FilterKind) -> Seq<char> {
    match kind {
        FilterKind::Peaking => "PK"@,
        FilterKind::LowShelf => "LSC"@,
        FilterKind::HighShelf => "HSC"@,
        FilterKind::Bandpass => "BP"@,
    }
}

/// The token at `i`, read as a finite number.
pub open spec fn number_at(w: Seq<Seq<char>>, i: int) -> Result<Double, Fault> {
    if i >= w.len() {
        Err(Fault::BadNumber)
    } else {
        match decimal::parsed(w[i]) {
            Some(v) => if double::is_finite(v) {
                Ok(v)
            } else {
                Err(Fault::NotFinite)
            },
            None => Err(Fault::BadNumber),
        }
    }
}

/// The version token: digits, with an optional plus sign, standing for a 32-bit number.
pub open spec fn version_of(token: Seq<char>) -> Option<nat> {
    let d = if token.len() > 0 && token[0] == '+' {
        token.skip(1)
    } else {
        token
    };
    if d.len() > 0 && decimal::digit_run(d) == d.len() && decimal::digits_value(d) <= u32::MAX {
        Some(decimal::digits_value(d))
    } else {
        None
    }
}

/// The header line: the magic word, the version, and nothing else.
pub open spec fn header_line(w: Seq<Seq<char>>) -> Option<Fault> {
    if w[0] != "cageq-apo"@ {
        Some(Fault::NoHeader)
    } else if w.len() < 2 || version_of(w[1]) is None {
        Some(Fault::BadVersion)
    } else if version_of(w[1]) != Some(1nat) {
        Some(Fault::OtherVersion)
    } else if w.len() > 2 {
        Some(Fault::HeaderTail)
    } else {
        None
    }
}

/// A band line.
pub open spec fn band_line(w: Seq<Seq<char>>, before: nat) -> Result<Band, Fault> {
    if before == MAX_BANDS {
        Err(Fault::TooManyBands)
    } else if w.len() < 2 || kind_of(w[1]) is None {
        Err(Fault::UnknownFilter)
    } else {
        match (number_at(w, 2), number_at(w, 3), number_at(w, 4)) {
            (Err(f), _, _) => Err(f),
            (_, Err(f), _) => Err(f),
            (_, _, Err(f)) => Err(f),
            (Ok(freq_hz), Ok(gain_db), Ok(q)) => if !double::less(double::zero(), freq_hz) {
                Err(Fault::FrequencyNotPositive)
            } else if !double::less(double::zero(), q) {
                Err(Fault::QNotPositive)
            } else if w.len() > 5 {
                Err(Fault::Tail)
            } else {
                Ok(Band { kind: kind_of(w[1])->0, freq_hz, gain_db, q })
            },
        }
    }
}

/// One line's effect on what has been gathered.
pub open spec fn take_line(d: Draft, line: Seq<char>) -> Result<Draft, Fault> {
    let t = text::trim(line);
    let w = text::words(t);
    if t.len() == 0 || t[0] == '#' {
        Ok(d)
    } else if !d.header {
        match header_line(w) {
            Some(f) => Err(f),
            None => Ok(Draft { header: true, ..d }),
        }
    } else if w[0] == "preamp"@ {
        if d.preamp is Some {
            Err(Fault::DuplicatePreamp)
        } else {
            match number_at(w, 1) {
                Err(f) => Err(f),
                Ok(v) => if w.len() > 2 {
                    Err(Fault::Tail)
                } else {
                    Ok(Draft { preamp: Some(v), ..d })
                },
            }
        }
    } else if w[0] == "band"@ {
        match band_line(w, d.bands.len()) {
            Err(f) => Err(f),
            Ok(b) => Ok(Draft { bands: d.bands.push(b), ..d }),
        }
    } else {
        Err(Fault::UnknownDirective)
    }
}

/// The first lines of a file, taken in order: what they gather, or the first line that is refused
/// with its number.
pub open spec fn take_lines(lines: Seq<Seq<char>>, n: nat) -> Result<Draft, (nat, Fault)>
    decreases n,
{
    if n == 0 {
        Ok(Draft { header: false, preamp: None, bands: Seq::empty() })
    } else {
        match take_lines(lines, (n - 1) as nat) {
            Err(e) => Err(e),
            Ok(d) => match take_line(d, lines[n - 1]) {
                Ok(next) => Ok(next),
                Err(f) => Err((n, f)),
            },
        }
    }
}

/// The words for a fault.
pub open spec fn reason_of(f: Fault) -> Seq<char> {
    match f {
        Fault::NoHeader => "expected a 'cageq-apo <version>' header"@,
        Fault::BadVersion => "malformed version"@,
        Fault::OtherVersion => "unsupported format version"@,
        Fault::HeaderTail => "trailing tokens after the header"@,
        Fault::DuplicatePreamp => "duplicate preamp"@,
        Fault::TooManyBands => "too many bands"@,
        Fault::UnknownFilter => "unknown filter type"@,
        Fault::BadNumber => "missing or malformed number"@,
        Fault::NotFinite => "value must be finite"@,
        Fault::FrequencyNotPositive => "frequency must be positive"@,
        Fault::QNotPositive => "Q must be positive"@,
        Fault::UnknownDirective => "unknown directive"@,
        Fault::Tail => "trailing tokens"@,
    }
}

/// The view of a configuration.
pub struct ConfigView {
    pub preamp_db: Double,
    pub bands: Seq<Band>,
}

impl View for ApoConfig {
    type V = ConfigView;

    open spec fn view(&self) -> ConfigView {
        ConfigView { preamp_db: self.preamp_db, bands: self.bands@ }
    }
}

/// What a file's text means: a configuration, or the line it is refused at and why.
pub open spec fn meaning(s: Seq<char>) -> Result<ConfigView, (nat, Seq<char>)> {
    let lines = text::lines(s);
    match take_lines(lines, lines.len()) {
        Err((n, f)) => Err((n, reason_of(f))),
        Ok(d) => if !d.header {
            Err((0, "empty or headerless file"@))
        } else {
            Ok(
                ConfigView {
                    preamp_db: match d.preamp {
                        Some(v) => v,
                        None => double::zero(),
                    },
                    bands: d.bands,
                },
            )
        },
    }
}

fn read_kind(token: &[char]) -> (r: Option<FilterKind>)
    ensures
        r == kind_of(token@),
{
    if text::is_text(token, "PK") {
        Some(FilterKind::Peaking)
    } else if text::is_text(token, "LSC") {
        Some(FilterKind::LowShelf)
    } else if text::is_text(token, "HSC") {
        Some(FilterKind::HighShelf)
    } else if text::is_text(token, "BP") {
        Some(FilterKind::Bandpass)
    } else {
        None
    }
}

/// Read the token at `i` as a finite number.
fn parse_finite(w: &Vec<&[char]>, i: usize) -> (r: Result<Double, Fault>)
    ensures
        r == number_at(text::texts(w@), i as int),
        r is Ok ==> double::is_finite(r->Ok_0),
{
    if i >= w.len() {
        return Err(Fault::BadNumber);
    }
    assert(text::texts(w@)[i as int] == w@[i as int]@);
    match decimal::parse(w[i]) {
        Some(v) => if v.is_finite() {
            Ok(v)
        } else {
            Err(Fault::NotFinite)
        },
        None => Err(Fault::BadNumber),
    }
}

fn read_version(token: &[char]) -> (r: Option<u32>)
    ensures
        r is Some <==> version_of(token@) is Some,
        r is Some ==> r->0 == version_of(token@)->0,
{
    let d: &[char] = if token.len() > 0 && token[0] == '+' {
        vstd::slice::slice_subrange(token, 1, token.len())
    } else {
        token
    };
    proof {
        if token.len() > 0 && token@[0] == '+' {
            assert(d@ =~= token@.skip(1));
        }
    }
    decimal::parse_u32(d)
}

fn read_header(w: &Vec<&[char]>) -> (r: Option<Fault>)
    requires
        w.len() > 0,
    ensures
        r == header_line(text::texts(w@)),
{
    let ghost t = text::texts(w@);
    assert(t[0] == w@[0]@);
    if !text::is_text(w[0], "cageq-apo") {
        return Some(Fault::NoHeader);
    }
    if w.len() < 2 {
        return Some(Fault::BadVersion);
    }
    assert(t[1] == w@[1]@);
    match read_version(w[1]) {
        None => Some(Fault::BadVersion),
        Some(v) => if v != 1 {
            Some(Fault::OtherVersion)
        } else if w.len() > 2 {
            Some(Fault::HeaderTail)
        } else {
            None
        },
    }
}

fn read_band(w: &Vec<&[char]>, before: usize) -> (r: Result<Band, Fault>)
    requires
        w.len() > 0,
    ensures
        r == band_line(text::texts(w@), before as nat),
{
    if before == MAX_BANDS {
        return Err(Fault::TooManyBands);
    }
    if w.len() < 2 {
        return Err(Fault::UnknownFilter);
    }
    assert(text::texts(w@)[1] == w@[1]@);
    let kind: FilterKind = match read_kind(w[1]) {
        Some(k) => k,
        None => {
            return Err(Fault::UnknownFilter);
        },
    };
    let freq_hz: Double = match parse_finite(w, 2) {
        Ok(v) => v,
        Err(f) => {
            return Err(f);
        },
    };
    let gain_db: Double = match parse_finite(w, 3) {
        Ok(v) => v,
        Err(f) => {
            return Err(f);
        },
    };
    let q: Double = match parse_finite(w, 4) {
        Ok(v) => v,
        Err(f) => {
            return Err(f);
        },
    };
    let zero: Double = Double { bits: 0 };
    if !zero.lt(freq_hz) {
        return Err(Fault::FrequencyNotPositive);
    }
    if !zero.lt(q) {
        return Err(Fault::QNotPositive);
    }
    if w.len() > 5 {
        return Err(Fault::Tail);
    }
    Ok(Band { kind, freq_hz, gain_db, q })
}

/// A parse in progress.
struct Progress {
    header: bool,
    preamp: Option<Double>,
    bands: Vec<Band>,
}

impl View for Progress {
    type V = Draft;

    closed spec fn view(&self) -> Draft {
        Draft { header: self.header, preamp: self.preamp, bands: self.bands@ }
    }
}

fn read_line(p: &mut Progress, line: &[char]) -> (r: Option<Fault>)
    ensures
        match r {
            None => take_line(old(p)@, line@) == Ok::<Draft, Fault>(final(p)@),
            Some(f) => take_line(old(p)@, line@) == Err::<Draft, Fault>(f),
        },
{
    let t: &[char] = text::trimmed(line);
    if t.len() == 0 || t[0] == '#' {
        return None;
    }
    let w: Vec<&[char]> = text::split_words(t);
    proof {
        text::lemma_words_of_trimmed(line@);
    }
    assert(w.len() == text::texts(w@).len());
    assert(text::texts(w@)[0] == w@[0]@);
    if !p.header {
        match read_header(&w) {
            Some(f) => {
                return Some(f);
            },
            None => {},
        }
        p.header = true;
        return None;
    }
    if text::is_text(w[0], "preamp") {
        if p.preamp.is_some() {
            return Some(Fault::DuplicatePreamp);
        }
        match parse_finite(&w, 1) {
            Err(f) => {
                return Some(f);
            },
            Ok(v) => {
                if w.len() > 2 {
                    return Some(Fault::Tail);
                }
                p.preamp = Some(v);
                return None;
            },
        }
    }
    if text::is_text(w[0], "band") {
        match read_band(&w, p.bands.len()) {
            Err(f) => {
                return Some(f);
            },
            Ok(b) => {
                p.bands.push(b);
                return None;
            },
        }
    }
    Some(Fault::UnknownDirective)
}

fn reason(f: Fault) -> (r: &'static str)
    ensures
        r@ == reason_of(f),
{
    match f {
        Fault::NoHeader => "expected a 'cageq-apo <version>' header",
        Fault::BadVersion => "malformed version",
        Fault::OtherVersion => "unsupported format version",
        Fault::HeaderTail => "trailing tokens after the header",
        Fault::DuplicatePreamp => "duplicate preamp",
        Fault::TooManyBands => "too many bands",
        Fault::UnknownFilter => "unknown filter type",
        Fault::BadNumber => "missing or malformed number",
        Fault::NotFinite => "value must be finite",
        Fault::FrequencyNotPositive => "frequency must be positive",
        Fault::QNotPositive => "Q must be positive",
        Fault::UnknownDirective => "unknown directive",
        Fault::Tail => "trailing tokens",
    }
}

/// Parse the config format.
pub fn parse(s: &str) -> (r: Result<ApoConfig, ParseError>)
    ensures
        match r {
            Ok(c) => meaning(s@) == Ok::<ConfigView, (nat, Seq<char>)>(c@),
            Err(e) => meaning(s@) == Err::<ConfigView, (nat, Seq<char>)>(
                (e.line as nat, e.reason@),
            ),
        },
{
    let cs: Vec<char> = text::chars_of(s);
    let lines: Vec<&[char]> = text::split_lines(cs.as_slice());
    let mut p: Progress = Progress { header: false, preamp: None, bands: Vec::new() };
    let ghost all = text::lines(s@);
    assert(p@.bands =~= Seq::empty());
    let mut i: usize = 0;
    while i < lines.len()
        invariant
            i <= lines.len(),
            all == text::lines(s@),
            text::texts(lines@) == all,
            take_lines(all, i as nat) == Ok::<Draft, (nat, Fault)>(p@),
        decreases lines.len() - i,
    {
        assert(all[i as int] == lines@[i as int]@);
        match read_line(&mut p, lines[i]) {
            Some(f) => {
                proof {
                    lemma_first_fault(all, (i + 1) as nat, all.len());
                }
                return Err(ParseError { line: i + 1, reason: reason(f) });
            },
            None => {},
        }
        i = i + 1;
    }
    assert(all.len() == lines.len());
    if !p.header {
        return Err(ParseError { line: 0, reason: "empty or headerless file" });
    }
    let preamp_db: Double = match p.preamp {
        Some(v) => v,
        None => Double { bits: 0 },
    };
    Ok(ApoConfig { preamp_db, bands: p.bands })
}

/// What reading a file means: an absent or unreadable file is simply no correction.
pub fn load_from(text: Option<&str>) -> (r: Result<Option<ApoConfig>, ParseError>)
    ensures
        match (text, r) {
            (None, r) => r matches Ok(c) && c is None,
            (Some(t), Ok(Some(c))) => meaning(t@) == Ok::<ConfigView, (nat, Seq<char>)>(c@),
            (Some(t), Ok(None)) => false,
            (Some(t), Err(e)) => meaning(t@) == Err::<ConfigView, (nat, Seq<char>)>(
                (e.line as nat, e.reason@),
            ),
        },
{
    match text {
        None => Ok(None),
        Some(t) => match parse(t) {
            Ok(c) => Ok(Some(c)),
            Err(e) => Err(e),
        },
    }
}

/// An endpoint's configuration, from the text of its file where there is one. `Ok(None)` means
/// *apply nothing*; an error means a file that cannot be trusted, or an id that cannot.
pub fn load(endpoint_id: &str, text: Option<&str>) -> (r: Result<Option<ApoConfig>, ParseError>)
    ensures
        !endpoint::is_plausible(endpoint_id@) ==> (r matches Err(e) && e.line == 0 && e.reason@
            == "implausible endpoint id"@),
        endpoint::is_plausible(endpoint_id@) ==> match (text, r) {
            (None, r) => r matches Ok(c) && c is None,
            (Some(t), Ok(Some(c))) => meaning(t@) == Ok::<ConfigView, (nat, Seq<char>)>(c@),
            (Some(t), Ok(None)) => false,
            (Some(t), Err(e)) => meaning(t@) == Err::<ConfigView, (nat, Seq<char>)>(
                (e.line as nat, e.reason@),
            ),
        },
{
    if !endpoint::is_valid_endpoint_id(endpoint_id) {
        return Err(ParseError { line: 0, reason: "implausible endpoint id" });
    }
    load_from(text)
}

/// A refused line refuses the whole file, whatever follows it.
proof fn lemma_first_fault(lines: Seq<Seq<char>>, n: nat, m: nat)
    requires
        n <= m,
        take_lines(lines, n) is Err,
    ensures
        take_lines(lines, m) == take_lines(lines, n),
    decreases m,
{
    if n < m {
        lemma_first_fault(lines, n, (m - 1) as nat);
    }
}

/// A band's line.
pub open spec fn band_text(b: Band) -> Seq<char> {
    text::spaced(
        seq![
            "band"@,
            token_of(b.kind),
            decimal::fixed(b.freq_hz, 4),
            decimal::fixed(b.gain_db, 4),
            decimal::fixed(b.q, 4),
        ],
    )
}

/// The lines of a configuration: the header, the preamp, then each band, numbers with four places.
pub open spec fn config_lines(c: ConfigView) -> Seq<Seq<char>> {
    seq![
        text::spaced(seq!["cageq-apo"@, "1"@]),
        text::spaced(seq!["preamp"@, decimal::fixed(c.preamp_db, 4)]),
    ] + c.bands.map_values(|b: Band| band_text(b))
}

/// A configuration as text.
pub open spec fn rendered(c: ConfigView) -> Seq<char> {
    text::unlines(config_lines(c))
}

fn push_number(out: &mut String, x: Double)
    ensures
        final(out)@ == old(out)@ + decimal::fixed(x, 4),
{
    let digits: Vec<char> = decimal::format_fixed(x, 4);
    text::push_chars(out, digits.as_slice());
}

/// The token that names a filter.
fn filter_token(kind: FilterKind) -> (r: &'static str)
    ensures
        r@ == token_of(kind),
{
    match kind {
        FilterKind::Peaking => "PK",
        FilterKind::LowShelf => "LSC",
        FilterKind::HighShelf => "HSC",
        FilterKind::Bandpass => "BP",
    }
}

fn push_band(out: &mut String, b: Band)
    ensures
        final(out)@ == old(out)@ + band_text(b) + seq!['\n'],
{
    out.append("band");
    out.push(' ');
    out.append(filter_token(b.kind));
    out.push(' ');
    push_number(out, b.freq_hz);
    out.push(' ');
    push_number(out, b.gain_db);
    out.push(' ');
    push_number(out, b.q);
    out.push('\n');
    proof {
        lemma_band_text(b);
        assert(out@ =~= old(out)@ + band_text(b) + seq!['\n']);
    }
}

/// Render a configuration to the format.
pub fn render(config: &ApoConfig) -> (r: String)
    ensures
        r@ == rendered(config@),
{
    let mut s: String = String::new();
    let ghost all = config_lines(config@);
    s.append("cageq-apo 1\n");
    s.append("preamp ");
    push_number(&mut s, config.preamp_db);
    s.append("\n");
    proof {
        reveal_strlit("cageq-apo");
        reveal_strlit("1");
        reveal_strlit("cageq-apo 1\n");
        reveal_strlit("preamp");
        reveal_strlit("preamp ");
        reveal_strlit("\n");
        reveal_with_fuel(text::spaced, 3);
        let head = seq!["cageq-apo"@, "1"@];
        let pre = seq!["preamp"@, decimal::fixed(config.preamp_db, 4)];
        assert(head.skip(1) =~= seq!["1"@]);
        assert(pre.skip(1) =~= seq![decimal::fixed(config.preamp_db, 4)]);
        assert(all.take(2) =~= Seq::empty().push(text::spaced(head)).push(text::spaced(pre)));
        text::lemma_unlines_push(Seq::empty(), text::spaced(head));
        text::lemma_unlines_push(Seq::empty().push(text::spaced(head)), text::spaced(pre));
        assert(s@ =~= text::unlines(all.take(2)));
    }
    let mut i: usize = 0;
    while i < config.bands.len()
        invariant
            i <= config.bands.len(),
            all == config_lines(config@),
            s@ == text::unlines(all.take(2 + i)),
        decreases config.bands.len() - i,
    {
        let b: Band = config.bands[i];
        push_band(&mut s, b);
        proof {
            assert(all.take(2 + i + 1) =~= all.take(2 + i).push(band_text(b)));
            text::lemma_unlines_push(all.take(2 + i), band_text(b));
        }
        i = i + 1;
    }
    assert(all.take(all.len() as int) =~= all);
    s
}

proof fn lemma_band_text(b: Band)
    ensures
        band_text(b) == "band"@ + seq![' '] + token_of(b.kind) + seq![' '] + decimal::fixed(
            b.freq_hz,
            4,
        ) + seq![' '] + decimal::fixed(b.gain_db, 4) + seq![' '] + decimal::fixed(b.q, 4),
{
    let f = decimal::fixed(b.freq_hz, 4);
    let g = decimal::fixed(b.gain_db, 4);
    let q = decimal::fixed(b.q, 4);
    let t = token_of(b.kind);
    text::lemma_spaced_five("band"@, t, f, g, q);
}

/// A band as it reads back from its line.
pub open spec fn written_band(b: Band) -> Band {
    Band {
        kind: b.kind,
        freq_hz: decimal::at_places(b.freq_hz, 4),
        gain_db: decimal::at_places(b.gain_db, 4),
        q: decimal::at_places(b.q, 4),
    }
}

/// Can a band's line be read back: are its numbers finite, and its frequency and Q still positive
/// at four places?
pub open spec fn writable_band(b: Band) -> bool {
    &&& double::is_finite(b.freq_hz)
    &&& double::is_finite(b.gain_db)
    &&& double::is_finite(b.q)
    &&& double::less(double::zero(), decimal::at_places(b.freq_hz, 4))
    &&& double::less(double::zero(), decimal::at_places(b.q, 4))
}

proof fn lemma_tokens_are_tokens()
    ensures
        text::is_token("cageq-apo"@),
        text::is_token("1"@),
        text::is_token("preamp"@),
        text::is_token("band"@),
        forall|k: FilterKind| text::is_token(#[trigger] token_of(k)),
        forall|k: FilterKind| kind_of(#[trigger] token_of(k)) == Some(k),
        "cageq-apo"@[0] == 'c',
        "preamp"@[0] == 'p',
        "band"@[0] == 'b',
        version_of("1"@) == Some(1nat),
{
    reveal_strlit("cageq-apo");
    reveal_strlit("1");
    reveal_strlit("preamp");
    reveal_strlit("band");
    reveal_strlit("PK");
    reveal_strlit("LSC");
    reveal_strlit("HSC");
    reveal_strlit("BP");
    assert("PK"@ != "LSC"@ && "PK"@ != "HSC"@ && "PK"@ != "BP"@) by {
        assert("PK"@.len() == 2 && "LSC"@.len() == 3 && "HSC"@.len() == 3);
        assert("PK"@[0] == 'P' && "BP"@[0] == 'B');
    }
    assert("LSC"@ != "HSC"@ && "LSC"@ != "BP"@ && "HSC"@ != "BP"@) by {
        assert("LSC"@[0] == 'L' && "HSC"@[0] == 'H' && "BP"@[0] == 'B');
    }
    reveal_with_fuel(decimal::digit_run, 2);
    reveal_with_fuel(decimal::digits_value, 2);
    assert("1"@.drop_last() =~= Seq::empty());
    assert("1"@.skip(1) =~= Seq::empty());
}

proof fn lemma_band_line_reads(b: Band, d: Draft)
    requires
        writable_band(b),
        d.header,
        d.bands.len() < MAX_BANDS,
    ensures
        text::is_line(band_text(b)),
        take_line(d, band_text(b)) == Ok::<Draft, Fault>(
            Draft { bands: d.bands.push(written_band(b)), ..d },
        ),
{
    let w = seq![
        "band"@,
        token_of(b.kind),
        decimal::fixed(b.freq_hz, 4),
        decimal::fixed(b.gain_db, 4),
        decimal::fixed(b.q, 4),
    ];
    lemma_tokens_are_tokens();
    decimal::lemma_fixed_is_token(b.freq_hz, 4);
    decimal::lemma_fixed_is_token(b.gain_db, 4);
    decimal::lemma_fixed_is_token(b.q, 4);
    assert forall|i: int| 0 <= i < w.len() implies text::is_token(#[trigger] w[i]) by {
        assert(text::is_token(token_of(b.kind)));
    }
    text::lemma_words_of_spaced(w);
    text::lemma_spaced_is_line(w);
    decimal::law_fixed_reads_back(b.freq_hz, 4);
    decimal::law_fixed_reads_back(b.gain_db, 4);
    decimal::law_fixed_reads_back(b.q, 4);
    decimal::law_written_number_stays_near(b.freq_hz, 4);
    decimal::law_written_number_stays_near(b.gain_db, 4);
    decimal::law_written_number_stays_near(b.q, 4);
    assert("band"@ != "preamp"@) by {
        assert("band"@[0] != "preamp"@[0]);
    }
    assert(kind_of(token_of(b.kind)) == Some(b.kind));
}

proof fn lemma_head_reads(preamp_db: Double)
    requires
        double::is_finite(preamp_db),
    ensures
        ({
            let start = Draft { header: false, preamp: None, bands: Seq::empty() };
            let opened = Draft { header: true, ..start };
            let head = text::spaced(seq!["cageq-apo"@, "1"@]);
            let pre = text::spaced(seq!["preamp"@, decimal::fixed(preamp_db, 4)]);
            &&& text::is_line(head)
            &&& text::is_line(pre)
            &&& take_line(start, head) == Ok::<Draft, Fault>(opened)
            &&& take_line(opened, pre) == Ok::<Draft, Fault>(
                Draft { preamp: Some(decimal::at_places(preamp_db, 4)), ..opened },
            )
        }),
{
    lemma_tokens_are_tokens();
    decimal::lemma_fixed_is_token(preamp_db, 4);
    let h = seq!["cageq-apo"@, "1"@];
    let p = seq!["preamp"@, decimal::fixed(preamp_db, 4)];
    assert forall|i: int| 0 <= i < h.len() implies text::is_token(#[trigger] h[i]) by {}
    assert forall|i: int| 0 <= i < p.len() implies text::is_token(#[trigger] p[i]) by {}
    text::lemma_words_of_spaced(h);
    text::lemma_spaced_is_line(h);
    text::lemma_words_of_spaced(p);
    text::lemma_spaced_is_line(p);
    decimal::law_fixed_reads_back(preamp_db, 4);
    decimal::law_written_number_stays_near(preamp_db, 4);
}

proof fn lemma_lines_read(c: ConfigView, n: nat)
    requires
        n <= c.bands.len() <= MAX_BANDS,
        double::is_finite(c.preamp_db),
        forall|i: int| 0 <= i < c.bands.len() ==> writable_band(#[trigger] c.bands[i]),
    ensures
        take_lines(config_lines(c), 2 + n) == Ok::<Draft, (nat, Fault)>(
            Draft {
                header: true,
                preamp: Some(decimal::at_places(c.preamp_db, 4)),
                bands: c.bands.take(n as int).map_values(|b: Band| written_band(b)),
            },
        ),
    decreases n,
{
    let all = config_lines(c);
    let done = c.bands.take(n as int).map_values(|b: Band| written_band(b));
    if n == 0 {
        lemma_head_reads(c.preamp_db);
        let start = Draft { header: false, preamp: None, bands: Seq::empty() };
        let opened = Draft { header: true, ..start };
        let set = Draft { preamp: Some(decimal::at_places(c.preamp_db, 4)), ..opened };
        assert(take_lines(all, 0) == Ok::<Draft, (nat, Fault)>(start));
        lemma_take_step(all, 1, start, opened);
        lemma_take_step(all, 2, opened, set);
        assert(done =~= Seq::empty());
    } else {
        let k = (n - 1) as nat;
        lemma_lines_read(c, k);
        let b = c.bands[k as int];
        let d = take_lines(all, 2 + k)->Ok_0;
        lemma_band_line_reads(b, d);
        let next = Draft { bands: d.bands.push(written_band(b)), ..d };
        assert(all[2 + k as int] == band_text(b));
        lemma_take_step(all, 2 + n, d, next);
        assert(done =~= d.bands.push(written_band(b)));
    }
}

proof fn lemma_take_step(lines: Seq<Seq<char>>, n: nat, d: Draft, next: Draft)
    requires
        n > 0,
        take_lines(lines, (n - 1) as nat) == Ok::<Draft, (nat, Fault)>(d),
        take_line(d, lines[n - 1]) == Ok::<Draft, Fault>(next),
    ensures
        take_lines(lines, n) == Ok::<Draft, (nat, Fault)>(next),
{
}

/// The lines of a configuration are lines, and each begins with its directive.
pub proof fn lemma_config_lines(c: ConfigView)
    ensures
        forall|i: int|
            0 <= i < config_lines(c).len() ==> text::is_line(#[trigger] config_lines(c)[i])
                && config_lines(c)[i].len() > 0 && (config_lines(c)[i][0] == 'c'
                || config_lines(c)[i][0] == 'p' || config_lines(c)[i][0] == 'b'),
{
    let all = config_lines(c);
    lemma_tokens_are_tokens();
    assert forall|i: int| 0 <= i < all.len() implies text::is_line(#[trigger] all[i])
        && all[i].len() > 0 && (all[i][0] == 'c' || all[i][0] == 'p' || all[i][0] == 'b') by {
        if i == 0 {
            lemma_line_of_tokens(seq!["cageq-apo"@, "1"@]);
        } else if i == 1 {
            decimal::lemma_fixed_is_token(c.preamp_db, 4);
            lemma_line_of_tokens(seq!["preamp"@, decimal::fixed(c.preamp_db, 4)]);
        } else {
            let b = c.bands[i - 2];
            decimal::lemma_fixed_is_token(b.freq_hz, 4);
            decimal::lemma_fixed_is_token(b.gain_db, 4);
            decimal::lemma_fixed_is_token(b.q, 4);
            assert(text::is_token(token_of(b.kind)));
            lemma_line_of_tokens(
                seq![
                    "band"@,
                    token_of(b.kind),
                    decimal::fixed(b.freq_hz, 4),
                    decimal::fixed(b.gain_db, 4),
                    decimal::fixed(b.q, 4),
                ],
            );
        }
    }
}

proof fn lemma_line_of_tokens(w: Seq<Seq<char>>)
    requires
        w.len() > 1,
        forall|i: int| 0 <= i < w.len() ==> text::is_token(#[trigger] w[i]),
    ensures
        text::is_line(text::spaced(w)),
        text::spaced(w).len() > 0,
        text::spaced(w)[0] == w[0][0],
{
    text::lemma_spaced_is_line(w);
    assert(text::is_token(w[0]));
}

/// A comment at the head of a file changes nothing but the line numbers.
pub proof fn lemma_leading_comment(comment: Seq<char>, lines: Seq<Seq<char>>, n: nat)
    requires
        n <= lines.len(),
        text::trim(comment).len() > 0 && text::trim(comment)[0] == '#',
        take_lines(lines, n) is Ok,
    ensures
        take_lines(seq![comment] + lines, n + 1) == take_lines(lines, n),
    decreases n,
{
    let all = seq![comment] + lines;
    if n == 0 {
        let start = Draft { header: false, preamp: None, bands: Seq::empty() };
        assert(take_lines(all, 0) == Ok::<Draft, (nat, Fault)>(start));
        assert(all[0] == comment);
        lemma_take_step(all, 1, start, start);
    } else {
        let m = (n - 1) as nat;
        lemma_leading_comment(comment, lines, m);
        assert(all[n as int] == lines[n - 1]);
    }
}

/// The writer and the parser agree: every configuration that fits the engine is read back from its
/// own text with every band in place, each number as it stands at four places.
pub proof fn law_rendered_config_parses(c: ConfigView)
    requires
        c.bands.len() <= MAX_BANDS,
        double::is_finite(c.preamp_db),
        forall|i: int| 0 <= i < c.bands.len() ==> writable_band(#[trigger] c.bands[i]),
    ensures
        meaning(rendered(c)) == Ok::<ConfigView, (nat, Seq<char>)>(
            ConfigView {
                preamp_db: decimal::at_places(c.preamp_db, 4),
                bands: c.bands.map_values(|b: Band| written_band(b)),
            },
        ),
{
    lemma_config_lines(c);
    text::lemma_lines_of_unlines(config_lines(c));
    lemma_lines_read(c, c.bands.len());
    assert(c.bands.take(c.bands.len() as int) =~= c.bands);
}

/// Reading back what was written settles it: the configuration that a text was read as is written as
/// that same text, and read back unchanged.
pub proof fn law_read_back_config_renders_the_same(c: ConfigView)
    requires
        c.bands.len() <= MAX_BANDS,
        double::is_finite(c.preamp_db),
        forall|i: int| 0 <= i < c.bands.len() ==> writable_band(#[trigger] c.bands[i]),
    ensures
        meaning(rendered(c)) is Ok,
        rendered(meaning(rendered(c))->Ok_0) == rendered(c),
{
    law_rendered_config_parses(c);
    let d = meaning(rendered(c))->Ok_0;
    decimal::law_read_back_number_is_written_the_same(c.preamp_db, 4);
    assert(config_lines(d) =~= config_lines(c)) by {
        assert forall|i: int| 0 <= i < c.bands.len() implies band_text(d.bands[i]) == band_text(
            #[trigger] c.bands[i],
        ) by {
            let b = c.bands[i];
            assert(writable_band(b));
            assert(d.bands[i] == written_band(b));
            decimal::law_read_back_number_is_written_the_same(b.freq_hz, 4);
            decimal::law_read_back_number_is_written_the_same(b.gain_db, 4);
            decimal::law_read_back_number_is_written_the_same(b.q, 4);
        }
        let x = d.bands.map_values(|b: Band| band_text(b));
        let y = c.bands.map_values(|b: Band| band_text(b));
        assert(x =~= y) by {
            assert forall|i: int| 0 <= i < x.len() implies x[i] == y[i] by {
                assert(band_text(d.bands[i]) == band_text(c.bands[i]));
            }
        }
    }
}

/// How near two numbers are: less than one unit of the fourth place apart.
pub open spec fn within_fourth_place(x: Double, y: Double) -> bool {
    let apart = (double::quanta(x) - double::quanta(y)) * pow(10, 4);
    -pow2(1074) < apart < pow2(1074)
}

/// Everything that was written comes back less than one unit of the fourth place off.
pub proof fn law_read_back_config_is_near(c: ConfigView)
    requires
        c.bands.len() <= MAX_BANDS,
        double::is_finite(c.preamp_db),
        forall|i: int| 0 <= i < c.bands.len() ==> writable_band(#[trigger] c.bands[i]),
    ensures
        ({
            let d = meaning(rendered(c))->Ok_0;
            &&& meaning(rendered(c)) is Ok
            &&& within_fourth_place(d.preamp_db, c.preamp_db)
            &&& d.bands.len() == c.bands.len()
            &&& forall|i: int|
                0 <= i < c.bands.len() ==> {
                    let b = #[trigger] c.bands[i];
                    let w = d.bands[i];
                    &&& w.kind == b.kind
                    &&& within_fourth_place(w.freq_hz, b.freq_hz)
                    &&& within_fourth_place(w.gain_db, b.gain_db)
                    &&& within_fourth_place(w.q, b.q)
                }
        }),
{
    law_rendered_config_parses(c);
    lemma_at_places_is_near(c.preamp_db);
    assert forall|i: int| 0 <= i < c.bands.len() implies {
        let b = #[trigger] c.bands[i];
        let w = written_band(b);
        &&& within_fourth_place(w.freq_hz, b.freq_hz)
        &&& within_fourth_place(w.gain_db, b.gain_db)
        &&& within_fourth_place(w.q, b.q)
    } by {
        let b = c.bands[i];
        assert(writable_band(b));
        lemma_at_places_is_near(b.freq_hz);
        lemma_at_places_is_near(b.gain_db);
        lemma_at_places_is_near(b.q);
    }
}

proof fn lemma_at_places_is_near(x: Double)
    requires
        double::is_finite(x),
    ensures
        within_fourth_place(decimal::at_places(x, 4), x),
{
    decimal::law_written_number_stays_near(x, 4);
    let a = double::quanta(decimal::at_places(x, 4));
    let b = double::quanta(x);
    let w = pow(10, 4);
    assert((b - a) * w == -((a - b) * w)) by (nonlinear_arith);
}

/// Are two bands written alike: the same kind, and each number the same at four places?
pub open spec fn bands_alike(a: Band, b: Band) -> bool {
    &&& a.kind == b.kind
    &&& decimal::fixed(a.freq_hz, 4) == decimal::fixed(b.freq_hz, 4)
    &&& decimal::fixed(a.gain_db, 4) == decimal::fixed(b.gain_db, 4)
    &&& decimal::fixed(a.q, 4) == decimal::fixed(b.q, 4)
}

/// Are two configurations written alike: preamp and bands, one for one?
pub open spec fn configs_alike(c: ConfigView, d: ConfigView) -> bool {
    &&& decimal::fixed(c.preamp_db, 4) == decimal::fixed(d.preamp_db, 4)
    &&& c.bands.len() == d.bands.len()
    &&& forall|i: int| 0 <= i < c.bands.len() ==> bands_alike(#[trigger] c.bands[i], d.bands[i])
}

/// The tokens of a band's line.
spec fn band_tokens(b: Band) -> Seq<Seq<char>> {
    seq![
        "band"@,
        token_of(b.kind),
        decimal::fixed(b.freq_hz, 4),
        decimal::fixed(b.gain_db, 4),
        decimal::fixed(b.q, 4),
    ]
}

proof fn lemma_band_tokens(b: Band)
    ensures
        text::words(band_text(b)) == band_tokens(b),
{
    lemma_tokens_are_tokens();
    decimal::lemma_fixed_is_token(b.freq_hz, 4);
    decimal::lemma_fixed_is_token(b.gain_db, 4);
    decimal::lemma_fixed_is_token(b.q, 4);
    let ts = band_tokens(b);
    assert forall|i: int| 0 <= i < ts.len() implies text::is_token(#[trigger] ts[i]) by {
        assert(text::is_token(token_of(b.kind)));
    }
    text::lemma_words_of_spaced(ts);
}

/// The text tells configurations apart: two have one text exactly where they are written alike.
pub proof fn law_text_tells_configs_apart(c: ConfigView, d: ConfigView)
    ensures
        rendered(c) == rendered(d) <==> configs_alike(c, d),
        config_lines(c) == config_lines(d) <==> configs_alike(c, d),
{
    let x = config_lines(c);
    let y = config_lines(d);
    lemma_config_lines(c);
    lemma_config_lines(d);
    text::lemma_lines_of_unlines(x);
    text::lemma_lines_of_unlines(y);
    if x == y {
        lemma_tokens_are_tokens();
        decimal::lemma_fixed_is_token(c.preamp_db, 4);
        decimal::lemma_fixed_is_token(d.preamp_db, 4);
        let p = seq!["preamp"@, decimal::fixed(c.preamp_db, 4)];
        let q = seq!["preamp"@, decimal::fixed(d.preamp_db, 4)];
        text::lemma_words_of_spaced(p);
        text::lemma_words_of_spaced(q);
        assert(x[1] == text::spaced(p));
        assert(y[1] == text::spaced(q));
        assert(p[1] == q[1]);
        assert forall|i: int| 0 <= i < c.bands.len() implies bands_alike(
            #[trigger] c.bands[i],
            d.bands[i],
        ) by {
            let a = c.bands[i];
            let b = d.bands[i];
            assert(x[i + 2] == band_text(a));
            assert(y[i + 2] == band_text(b));
            lemma_band_tokens(a);
            lemma_band_tokens(b);
            let s = band_tokens(a);
            let t = band_tokens(b);
            assert(s[1] == t[1] && s[2] == t[2] && s[3] == t[3] && s[4] == t[4]);
            assert(kind_of(token_of(a.kind)) == Some(a.kind));
            assert(kind_of(token_of(b.kind)) == Some(b.kind));
        }
    }
    if configs_alike(c, d) {
        assert(x =~= y) by {
            assert forall|i: int| 0 <= i < x.len() implies x[i] == y[i] by {
                if i >= 2 {
                    assert(bands_alike(c.bands[i - 2], d.bands[i - 2]));
                    assert(x[i] == band_text(c.bands[i - 2]));
                    assert(y[i] == band_text(d.bands[i - 2]));
                }
            }
        }
    }
}

/// Does a line end in a single character after a space?
pub open spec fn ends_alone(l: Seq<char>) -> bool {
    l.len() >= 2 && l[l.len() - 2] == ' '
}

proof fn lemma_spaced_end(ts: Seq<Seq<char>>)
    requires
        ts.len() > 0,
        text::is_token(ts.last()),
        ts.last().len() >= 2,
    ensures
        text::spaced(ts).len() >= 2,
        !ends_alone(text::spaced(ts)),
    decreases ts.len(),
{
    let t = ts.last();
    let s = text::spaced(ts);
    if ts.len() == 1 {
        assert(!text::is_space(t[t.len() - 2]));
    } else {
        let rest = ts.skip(1);
        lemma_spaced_end(rest);
        let tail = text::spaced(rest);
        assert(s[s.len() - 2] == tail[tail.len() - 2]);
    }
}

/// Of a configuration's lines, the header alone ends in a single character after a space: every other
/// ends in a number with its places.
pub proof fn lemma_header_line(c: ConfigView)
    ensures
        ends_alone(config_lines(c)[0]),
        forall|i: int|
            0 < i < config_lines(c).len() ==> !ends_alone(#[trigger] config_lines(c)[i]),
{
    let all = config_lines(c);
    reveal_strlit("cageq-apo");
    reveal_strlit("1");
    let head = seq!["cageq-apo"@, "1"@];
    assert(head.skip(1) =~= seq!["1"@]);
    assert(text::spaced(head.skip(1)) == "1"@);
    assert(all[0] == "cageq-apo"@ + seq![' '] + "1"@);
    assert forall|i: int| 0 < i < all.len() implies !ends_alone(#[trigger] all[i]) by {
        if i == 1 {
            decimal::lemma_fixed_is_token(c.preamp_db, 4);
            lemma_spaced_end(seq!["preamp"@, decimal::fixed(c.preamp_db, 4)]);
        } else {
            let b = c.bands[i - 2];
            assert(all[i] == band_text(b));
            decimal::lemma_fixed_is_token(b.q, 4);
            lemma_spaced_end(band_tokens(b));
        }
    }
}

/// A parse is all or nothing: once a line is refused, the file is refused at that line, whatever
/// comes after it.
pub proof fn law_one_bad_line_refuses_the_file(s: Seq<char>, n: nat)
    requires
        n <= text::lines(s).len(),
        take_lines(text::lines(s), n) is Err,
    ensures
        meaning(s) is Err,
        meaning(s)->Err_0.0 <= n,
{
    let all = text::lines(s);
    lemma_first_fault(all, n, all.len());
    lemma_fault_line(all, n);
}

proof fn lemma_fault_line(lines: Seq<Seq<char>>, n: nat)
    requires
        take_lines(lines, n) is Err,
    ensures
        take_lines(lines, n)->Err_0.0 <= n,
    decreases n,
{
    if n > 0 {
        if take_lines(lines, (n - 1) as nat) is Err {
            lemma_fault_line(lines, (n - 1) as nat);
        }
    }
}

/// Whatever is accepted is fit to run: no more bands than the engine holds, every number finite,
/// every frequency and Q positive.
pub proof fn law_accepted_config_is_sound(s: Seq<char>)
    requires
        meaning(s) is Ok,
    ensures
        ({
            let c = meaning(s)->Ok_0;
            &&& c.bands.len() <= MAX_BANDS
            &&& double::is_finite(c.preamp_db)
            &&& forall|i: int|
                0 <= i < c.bands.len() ==> {
                    let b = #[trigger] c.bands[i];
                    &&& double::is_finite(b.freq_hz) && double::less(double::zero(), b.freq_hz)
                    &&& double::is_finite(b.gain_db)
                    &&& double::is_finite(b.q) && double::less(double::zero(), b.q)
                }
        }),
{
    let all = text::lines(s);
    lemma_draft_is_sound(all, all.len());
}

proof fn lemma_draft_is_sound(lines: Seq<Seq<char>>, n: nat)
    requires
        take_lines(lines, n) is Ok,
    ensures
        ({
            let d = take_lines(lines, n)->Ok_0;
            &&& d.bands.len() <= MAX_BANDS
            &&& d.preamp matches Some(v) ==> double::is_finite(v)
            &&& forall|i: int|
                0 <= i < d.bands.len() ==> {
                    let b = #[trigger] d.bands[i];
                    &&& double::is_finite(b.freq_hz) && double::less(double::zero(), b.freq_hz)
                    &&& double::is_finite(b.gain_db)
                    &&& double::is_finite(b.q) && double::less(double::zero(), b.q)
                }
        }),
    decreases n,
{
    if n > 0 {
        lemma_draft_is_sound(lines, (n - 1) as nat);
    }
}

} // verus!
