//! The shared `config.txt`: a device-scoped, marker-delimited block with a content fingerprint.
//!
//! Text is handled line by line, each line with its ending, so that everything outside the block
//! stays exactly as it was.
use crate::decimal;
use crate::double::Double;
use crate::fingerprint;
use crate::text;
use vstd::prelude::*;
use vstd::slice::*;

verus! {

/// `std::io::Error`, carried through.
#[verifier::external_type_specification]
#[verifier::external_body]
pub struct ExIoError(std::io::Error);

/// The shapes that the shared format knows.
#[derive(Clone, Copy, PartialEq, Eq, Structural, Debug)]
pub enum FilterType {
    Peaking,
    LowShelf,
    HighShelf,
}

/// One band of a managed block.
#[derive(Clone, Copy, PartialEq, Eq, Structural, Debug)]
pub struct Filter {
    pub kind: FilterType,
    pub freq_hz: Double,
    pub gain_db: Double,
    pub q: Double,
}

/// Why a write or a read came to nothing.
#[derive(Debug)]
pub enum WriteError {
    /// The file or its directory could not be read or written.
    Io(std::io::Error),
    /// The path had no parent directory, so the temp file cannot stand on the same volume.
    NoParentDir,
    /// The file exists but is not valid UTF-8.
    NotUtf8,
}

/// What a managed block says: the fingerprint it claims, and the one that its body has now. They are
/// equal exactly where the block is unchanged since it was written.
#[derive(Debug)]
pub enum BlockState {
    /// No section for the device, or one without a managed block.
    Absent,
    Present { stored_hash: Option<String>, actual_hash: String },
}

/// How reading the file failed.
#[derive(Debug)]
pub enum ReadFailure {
    NotFound,
    InvalidData,
    Other(std::io::Error),
}

/// The token that names a filter.
pub open spec fn token_of(kind: FilterType) -> Seq<char> {
    match kind {
        FilterType::Peaking => "PK"@,
        FilterType::LowShelf => "LSC"@,
        FilterType::HighShelf => "HSC"@,
    }
}

impl FilterType {
    /// The token that names this filter.
    pub fn eqapo_token(self) -> (r: &'static str)
        ensures
            r@ == token_of(self),
    {
        match self {
            FilterType::Peaking => "PK",
            FilterType::LowShelf => "LSC",
            FilterType::HighShelf => "HSC",
        }
    }
}

/// The line of filter number `n`.
pub open spec fn filter_line(n: nat, f: Filter) -> Seq<char> {
    "Filter "@ + decimal::digits(n) + ": ON "@ + token_of(f.kind) + " Fc "@ + decimal::fixed(
        f.freq_hz,
        0,
    ) + " Hz Gain "@ + decimal::fixed(f.gain_db, 1) + " dB Q "@ + decimal::fixed(f.q, 2)
}

/// The preamp's line.
pub open spec fn preamp_line(preamp_db: Double) -> Seq<char> {
    "Preamp: "@ + decimal::fixed(preamp_db, 1) + " dB"@
}

/// The lines managed for one device: the preamp, then each filter, numbered from one.
pub open spec fn body_lines(preamp_db: Double, filters: Seq<Filter>) -> Seq<Seq<char>> {
    seq![preamp_line(preamp_db)] + Seq::new(
        filters.len(),
        |i: int| filter_line((i + 1) as nat, filters[i]),
    )
}

/// The text managed for one device.
pub open spec fn body_text(preamp_db: Double, filters: Seq<Filter>) -> Seq<char> {
    text::unlines(body_lines(preamp_db, filters))
}

/// A block: the body between its markers, with its fingerprint on the first.
pub open spec fn block_of(body: Seq<char>, hash: Seq<char>) -> Seq<char> {
    "#CAGE:BEGIN hash="@ + hash + seq!['\n'] + body + "#CAGE:END\n"@
}

/// The whole block for a preamp and filters.
pub open spec fn block_text(preamp_db: Double, filters: Seq<Filter>) -> Seq<char> {
    let body = body_text(preamp_db, filters);
    block_of(body, fingerprint::text_fingerprint(body))
}

fn push_fixed(out: &mut String, x: Double, places: u64)
    ensures
        final(out)@ == old(out)@ + decimal::fixed(x, places as nat),
{
    let v: Vec<char> = decimal::format_fixed(x, places);
    text::push_chars(out, v.as_slice());
}

fn push_filter(out: &mut String, n: u64, f: &Filter)
    ensures
        final(out)@ == old(out)@ + filter_line(n as nat, *f) + seq!['\n'],
{
    let ghost start = out@;
    out.append("Filter ");
    let number: Vec<char> = decimal::digits_of_u64(n);
    text::push_chars(out, number.as_slice());
    out.append(": ON ");
    out.append(f.kind.eqapo_token());
    out.append(" Fc ");
    push_fixed(out, f.freq_hz, 0);
    out.append(" Hz Gain ");
    push_fixed(out, f.gain_db, 1);
    out.append(" dB Q ");
    push_fixed(out, f.q, 2);
    out.push('\n');
    assert(out@ =~= start + filter_line(n as nat, *f) + seq!['\n']);
}

/// The text managed for one device. This is what the fingerprint is taken over.
pub fn render_managed_body(preamp_db: Double, filters: &[Filter]) -> (r: String)
    ensures
        r@ == body_text(preamp_db, filters@),
{
    let mut body: String = String::new();
    let ghost all = body_lines(preamp_db, filters@);
    body.append("Preamp: ");
    push_fixed(&mut body, preamp_db, 1);
    body.append(" dB");
    body.push('\n');
    proof {
        text::lemma_unlines_push(Seq::empty(), preamp_line(preamp_db));
        assert(all.take(1) =~= Seq::empty().push(preamp_line(preamp_db)));
        assert(body@ =~= text::unlines(all.take(1)));
    }
    let mut i: usize = 0;
    while i < filters.len()
        invariant
            i <= filters.len(),
            all == body_lines(preamp_db, filters@),
            body@ == text::unlines(all.take(1 + i)),
        decreases filters.len() - i,
    {
        push_filter(&mut body, (i as u64) + 1, &filters[i]);
        proof {
            let line = filter_line((i + 1) as nat, filters@[i as int]);
            assert(all.take(1 + i + 1) =~= all.take(1 + i).push(line));
            text::lemma_unlines_push(all.take(1 + i), line);
        }
        i = i + 1;
    }
    assert(all.take(all.len() as int) =~= all);
    body
}

/// The full block including markers, and its fingerprint.
pub fn render_cage_block(preamp_db: Double, filters: &[Filter]) -> (r: (String, String))
    ensures
        r.0@ == block_text(preamp_db, filters@),
        r.1@ == fingerprint::text_fingerprint(body_text(preamp_db, filters@)),
{
    let body: String = render_managed_body(preamp_db, filters);
    let hash: String = fingerprint::content_hash(body.as_str());
    let mut block: String = String::new();
    block.append("#CAGE:BEGIN hash=");
    block.append(hash.as_str());
    block.push('\n');
    block.append(body.as_str());
    block.append("#CAGE:END\n");
    assert(block@ =~= block_text(preamp_db, filters@));
    (block, hash)
}

/// Text without the line feeds and carriage returns at its end.
pub open spec fn without_eol(s: Seq<char>) -> Seq<char>
    decreases s.len(),
{
    if s.len() > 0 && (s.last() == '\r' || s.last() == '\n') {
        without_eol(s.drop_last())
    } else {
        s
    }
}

/// Does a line open the section of `device`?
pub open spec fn opens(line: Seq<char>, device: Seq<char>) -> bool {
    let t = without_eol(line);
    text::starts_with(t, "Device:"@) && text::trim(t.skip(7)) == device
}

/// Does a line open any device's section?
pub open spec fn opens_any(line: Seq<char>) -> bool {
    text::starts_with(text::trim_start(without_eol(line)), "Device:"@)
}

/// The first of the lines `from..` that opens the section of `device`, or the number of lines.
pub open spec fn opening(ps: Seq<Seq<char>>, device: Seq<char>, from: int) -> int
    decreases ps.len() - from,
{
    if from >= ps.len() || opens(ps[from], device) {
        from
    } else {
        opening(ps, device, from + 1)
    }
}

/// The first of the lines `from..` that opens any section, or the number of lines: where a section
/// ends.
pub open spec fn section_end(ps: Seq<Seq<char>>, from: int) -> int
    decreases ps.len() - from,
{
    if from >= ps.len() || opens_any(ps[from]) {
        from
    } else {
        section_end(ps, from + 1)
    }
}

/// The first of the lines `from..to` that begins with `mark`, or `to`.
pub open spec fn marked(ps: Seq<Seq<char>>, mark: Seq<char>, from: int, to: int) -> int
    decreases to - from,
{
    if from >= to || text::starts_with(ps[from], mark) {
        from
    } else {
        marked(ps, mark, from + 1, to)
    }
}

/// The lines of a device's section, as a range: those after the line that opens it, up to the next
/// one that opens any.
pub open spec fn section(ps: Seq<Seq<char>>, device: Seq<char>) -> Option<(int, int)> {
    let a = opening(ps, device, 0);
    if a < ps.len() {
        Some((a + 1, section_end(ps, a + 1)))
    } else {
        None
    }
}

/// The managed block among the lines `from..to`, as a range: from the line that begins with the
/// first marker through the next one that begins with the second.
pub open spec fn block_range(ps: Seq<Seq<char>>, from: int, to: int) -> Option<(int, int)> {
    let p = marked(ps, "#CAGE:BEGIN"@, from, to);
    let q = marked(ps, "#CAGE:END"@, p, to);
    if p < to && q < to {
        Some((p, q + 1))
    } else {
        None
    }
}

/// Pieces put together.
pub open spec fn joined(ps: Seq<Seq<char>>) -> Seq<char>
    decreases ps.len(),
{
    if ps.len() == 0 {
        Seq::empty()
    } else {
        ps[0] + joined(ps.skip(1))
    }
}

/// The line feed that is missing at the end of some text before a line of its own can follow it.
pub open spec fn gap_after(s: Seq<char>) -> Seq<char> {
    if s.len() > 0 && s.last() != '\n' {
        seq!['\n']
    } else {
        Seq::empty()
    }
}

/// The text with the block of `device` set to `block`: in place of the one that is there; else at
/// the top of the device's section; else in a section of its own at the end. A block always starts a
/// line of its own.
pub open spec fn spliced(current: Seq<char>, device: Seq<char>, block: Seq<char>) -> Seq<char> {
    let ps = text::pieces(current);
    match section(ps, device) {
        Some((from, to)) => match block_range(ps, from, to) {
            Some((p, q)) => joined(ps.take(p)) + block + joined(ps.skip(q)),
            None => joined(ps.take(from)) + gap_after(ps[from - 1]) + block + joined(ps.skip(from)),
        },
        None => current + gap_after(current) + "Device: "@ + device + seq!['\n'] + block,
    }
}

fn strip_eol(s: &[char]) -> (r: &[char])
    ensures
        r@ == without_eol(s@),
{
    let mut i: usize = s.len();
    assert(s@.take(s@.len() as int) =~= s@);
    while i > 0 && (s[i - 1] == '\r' || s[i - 1] == '\n')
        invariant
            i <= s.len(),
            without_eol(s@) == without_eol(s@.take(i as int)),
        decreases i,
    {
        assert(s@.take(i as int).drop_last() =~= s@.take(i - 1));
        i = i - 1;
    }
    assert(s@.take(i as int) =~= s@.subrange(0, i as int));
    slice_subrange(s, 0, i)
}

fn line_opens(line: &[char], device: &[char]) -> (r: bool)
    ensures
        r == opens(line@, device@),
{
    let t: &[char] = strip_eol(line);
    if !text::begins_text(t, "Device:") {
        return false;
    }
    proof {
        reveal_strlit("Device:");
    }
    let rest: &[char] = slice_subrange(t, 7, t.len());
    assert(rest@ =~= t@.skip(7));
    text::same(text::trimmed(rest), device)
}

fn line_opens_any(line: &[char]) -> (r: bool)
    ensures
        r == opens_any(line@),
{
    text::begins_text(text::trimmed_start(strip_eol(line)), "Device:")
}

/// The lines of a device's section, as a range.
fn find_device_section(ps: &Vec<&[char]>, device: &[char]) -> (r: Option<(usize, usize)>)
    ensures
        match r {
            Some((from, to)) => section(text::texts(ps@), device@) == Some(
                (from as int, to as int),
            ) && 0 < from <= to <= ps.len(),
            None => section(text::texts(ps@), device@) is None,
        },
{
    let ghost t = text::texts(ps@);
    let mut a: usize = 0;
    while a < ps.len() && !line_opens(ps[a], device)
        invariant
            a <= ps.len(),
            t == text::texts(ps@),
            opening(t, device@, 0) == opening(t, device@, a as int),
        decreases ps.len() - a,
    {
        assert(t[a as int] == ps@[a as int]@);
        a = a + 1;
    }
    if a >= ps.len() {
        return None;
    }
    assert(t[a as int] == ps@[a as int]@);
    let mut b: usize = a + 1;
    while b < ps.len() && !line_opens_any(ps[b])
        invariant
            a + 1 <= b <= ps.len(),
            t == text::texts(ps@),
            section_end(t, a + 1) == section_end(t, b as int),
        decreases ps.len() - b,
    {
        assert(t[b as int] == ps@[b as int]@);
        b = b + 1;
    }
    proof {
        if b < ps.len() {
            assert(t[b as int] == ps@[b as int]@);
        }
    }
    Some((a + 1, b))
}

fn find_mark(ps: &Vec<&[char]>, mark: &str, from: usize, to: usize) -> (r: usize)
    requires
        from <= to <= ps.len(),
    ensures
        r == marked(text::texts(ps@), mark@, from as int, to as int),
        from <= r <= to,
{
    let ghost t = text::texts(ps@);
    let m: Vec<char> = text::chars_of(mark);
    let mut i: usize = from;
    while i < to && !text::begins(ps[i], m.as_slice())
        invariant
            from <= i <= to <= ps.len(),
            t == text::texts(ps@),
            m@ == mark@,
            marked(t, mark@, from as int, to as int) == marked(t, mark@, i as int, to as int),
        decreases to - i,
    {
        assert(t[i as int] == ps@[i as int]@);
        i = i + 1;
    }
    proof {
        if i < to {
            assert(t[i as int] == ps@[i as int]@);
        }
    }
    i
}

/// The managed block among the lines `from..to`, as a range.
fn find_marker_range(ps: &Vec<&[char]>, from: usize, to: usize) -> (r: Option<(usize, usize)>)
    requires
        from <= to <= ps.len(),
    ensures
        match r {
            Some((p, q)) => block_range(text::texts(ps@), from as int, to as int) == Some(
                (p as int, q as int),
            ) && from <= p < q <= to,
            None => block_range(text::texts(ps@), from as int, to as int) is None,
        },
{
    let p: usize = find_mark(ps, "#CAGE:BEGIN", from, to);
    let q: usize = find_mark(ps, "#CAGE:END", p, to);
    if p < to && q < to {
        Some((p, q + 1))
    } else {
        None
    }
}

pub proof fn lemma_joined_push(ps: Seq<Seq<char>>, p: Seq<char>)
    ensures
        joined(ps.push(p)) == joined(ps) + p,
    decreases ps.len(),
{
    if ps.len() == 0 {
        assert(ps.push(p).skip(1) =~= Seq::empty());
        assert(joined(ps.push(p).skip(1)) =~= Seq::empty());
        assert(joined(ps.push(p)) =~= joined(ps) + p);
    } else {
        lemma_joined_push(ps.skip(1), p);
        assert(ps.push(p).skip(1) =~= ps.skip(1).push(p));
        assert(joined(ps.push(p)) =~= joined(ps) + p);
    }
}

fn push_pieces(out: &mut String, ps: &Vec<&[char]>, from: usize, to: usize)
    requires
        from <= to <= ps.len(),
    ensures
        final(out)@ == old(out)@ + joined(text::texts(ps@).subrange(from as int, to as int)),
{
    let ghost t = text::texts(ps@);
    let ghost start = out@;
    let mut i: usize = from;
    assert(t.subrange(from as int, from as int) =~= Seq::empty());
    assert(out@ =~= start + joined(t.subrange(from as int, from as int)));
    while i < to
        invariant
            from <= i <= to <= ps.len(),
            t == text::texts(ps@),
            out@ == start + joined(t.subrange(from as int, i as int)),
        decreases to - i,
    {
        text::push_chars(out, ps[i]);
        proof {
            assert(t[i as int] == ps@[i as int]@);
            assert(t.subrange(from as int, i + 1) =~= t.subrange(from as int, i as int).push(
                t[i as int],
            ));
            lemma_joined_push(t.subrange(from as int, i as int), t[i as int]);
            assert(out@ =~= start + joined(t.subrange(from as int, i + 1)));
        }
        i = i + 1;
    }
}

/// Set the managed block of `device` in `current`, leaving everything else as it is. The block stands
/// on lines of its own: where the line before it is not ended, it is ended first.
pub fn splice_cage_block(current: &str, device: &str, new_block: &str) -> (r: String)
    ensures
        r@ == spliced(current@, device@, new_block@),
{
    let cs: Vec<char> = text::chars_of(current);
    let ds: Vec<char> = text::chars_of(device);
    let ps: Vec<&[char]> = text::split_pieces(cs.as_slice());
    let ghost t = text::texts(ps@);
    let n: usize = ps.len();
    assert(t.len() == n);
    let mut out: String = String::new();
    match find_device_section(&ps, ds.as_slice()) {
        Some((from, to)) => {
            let (x, y): (usize, usize) = match find_marker_range(&ps, from, to) {
                Some((p, q)) => (p, q),
                None => (from, from),
            };
            push_pieces(&mut out, &ps, 0, x);
            if x == y {
                let line: &[char] = ps[from - 1];
                assert(t[from - 1] == line@);
                if line.len() > 0 && line[line.len() - 1] != '\n' {
                    out.push('\n');
                }
            }
            out.append(new_block);
            push_pieces(&mut out, &ps, y, n);
            proof {
                assert(t.subrange(0, x as int) =~= t.take(x as int));
                assert(t.subrange(y as int, n as int) =~= t.skip(y as int));
                assert(out@ =~= spliced(current@, device@, new_block@));
            }
        },
        None => {
            out.append(current);
            if cs.len() > 0 && cs[cs.len() - 1] != '\n' {
                out.push('\n');
            }
            out.append("Device: ");
            out.append(device);
            out.push('\n');
            out.append(new_block);
            assert(out@ =~= spliced(current@, device@, new_block@));
        },
    }
    out
}

/// The fingerprint that a block's first line claims: what stands behind `hash=` in the first of its
/// words that begins so.
pub open spec fn claimed_hash(words: Seq<Seq<char>>) -> Option<Seq<char>>
    decreases words.len(),
{
    if words.len() == 0 {
        None
    } else if text::starts_with(words[0], "hash="@) {
        Some(words[0].skip(5))
    } else {
        claimed_hash(words.skip(1))
    }
}

/// Does `p` stand in `s` at `i` and nowhere after?
pub open spec fn stands_last(s: Seq<char>, p: Seq<char>, i: int) -> bool {
    text::stands_at(s, p, i) && forall|k: int| k > i ==> !#[trigger] text::stands_at(s, p, k)
}

/// What a block's fingerprint is taken over: everything between its first line and the last second
/// marker.
pub open spec fn body_of(block: Seq<char>) -> Seq<char> {
    let i = text::index_of(block, '\n');
    if i >= block.len() {
        Seq::empty()
    } else {
        let after = block.skip(i + 1);
        if text::contains(after, "#CAGE:END"@) {
            after.take(choose|k: int| stands_last(after, "#CAGE:END"@, k))
        } else {
            after
        }
    }
}

/// The fingerprint that a block claims: none where it has no line at all.
pub open spec fn claim_of(block: Seq<char>) -> Option<Seq<char>> {
    if block.len() == 0 {
        None
    } else {
        claimed_hash(text::words(text::lines(block)[0]))
    }
}

/// The fingerprint on the first line of a block, if it has one.
pub fn parse_begin_hash(block: &[char]) -> (r: Option<String>)
    ensures
        match r {
            Some(h) => claim_of(block@) == Some(h@),
            None => claim_of(block@) is None,
        },
{
    if block.len() == 0 {
        return None;
    }
    let lines: Vec<&[char]> = text::split_lines(block);
    let ghost t = text::texts(lines@);
    proof {
        assert(t.len() == lines@.len());
        assert(t.len() > 0);
        assert(t[0] == lines@[0]@);
    }
    let words: Vec<&[char]> = text::split_words(lines[0]);
    let ghost w = text::texts(words@);
    let mut i: usize = 0;
    assert(w.skip(0) =~= w);
    while i < words.len()
        invariant
            i <= words.len(),
            w == text::texts(words@),
            block@.len() > 0,
            w == text::words(text::lines(block@)[0]),
            claimed_hash(w) == claimed_hash(w.skip(i as int)),
        decreases words.len() - i,
    {
        let word: &[char] = words[i];
        assert(w.skip(i as int)[0] == word@);
        if text::begins_text(word, "hash=") {
            proof {
                reveal_strlit("hash=");
            }
            let h: &[char] = slice_subrange(word, 5, word.len());
            assert(h@ =~= word@.skip(5));
            return Some(text::string_of(h));
        }
        assert(w.skip(i as int).skip(1) =~= w.skip(i + 1));
        i = i + 1;
    }
    None
}

/// The body of a block.
pub fn block_body(block: &[char]) -> (r: &[char])
    ensures
        r@ == body_of(block@),
{
    let i: usize = text::find_char(block, '\n');
    if i >= block.len() {
        let none: &[char] = slice_subrange(block, 0, 0);
        assert(none@ =~= Seq::empty());
        return none;
    }
    let after: &[char] = slice_subrange(block, i + 1, block.len());
    assert(after@ =~= block@.skip(i + 1));
    let mark: Vec<char> = text::chars_of("#CAGE:END");
    proof {
        reveal_strlit("#CAGE:END");
    }
    let n: usize = mark.len();
    if after.len() < n {
        assert(!text::contains(after@, "#CAGE:END"@));
        return after;
    }
    let mut k: usize = after.len() - n + 1;
    while k > 0
        invariant
            mark@ == "#CAGE:END"@,
            n == mark@.len(),
            n <= after.len(),
            k <= after.len() - n + 1,
            forall|j: int| j >= k ==> !#[trigger] text::stands_at(after@, mark@, j),
            after@ == block@.skip(i + 1),
            i == text::index_of(block@, '\n'),
            i < block@.len(),
        decreases k,
    {
        k = k - 1;
        let here: &[char] = slice_subrange(after, k, k + n);
        if text::same(here, mark.as_slice()) {
            proof {
                assert(text::stands_at(after@, mark@, k as int));
                assert(stands_last(after@, mark@, k as int));
                let c = choose|c: int| stands_last(after@, mark@, c);
                assert(c == k) by {
                    if c < k {
                        assert(!text::stands_at(after@, mark@, k as int));
                    }
                    if c > k {
                        assert(!text::stands_at(after@, mark@, c));
                    }
                }
                assert(after@.take(k as int) =~= after@.subrange(0, k as int));
            }
            return slice_subrange(after, 0, k);
        }
    }
    proof {
        if text::contains(after@, "#CAGE:END"@) {
            let j = choose|j: int| text::stands_at(after@, mark@, j);
            assert(text::stands_at(after@, mark@, j));
        }
    }
    after
}

/// The text of the managed block of `device`, if there is one.
pub open spec fn block_in(current: Seq<char>, device: Seq<char>) -> Option<Seq<char>> {
    let ps = text::pieces(current);
    match section(ps, device) {
        Some((from, to)) => match block_range(ps, from, to) {
            Some((p, q)) => Some(joined(ps.subrange(p, q))),
            None => None,
        },
        None => None,
    }
}

/// The state of a block: what its first line claims, and what its body amounts to.
pub open spec fn state_is(s: BlockState, current: Seq<char>, device: Seq<char>) -> bool {
    match block_in(current, device) {
        None => s is Absent,
        Some(block) => match s {
            BlockState::Absent => false,
            BlockState::Present { stored_hash, actual_hash } => {
                &&& actual_hash@ == fingerprint::text_fingerprint(body_of(block))
                &&& match stored_hash {
                    Some(h) => claim_of(block) == Some(h@),
                    None => claim_of(block) is None,
                }
            },
        },
    }
}

/// The state of the managed block of `device` in some text.
pub fn block_state(current: &str, device: &str) -> (r: BlockState)
    ensures
        state_is(r, current@, device@),
{
    let cs: Vec<char> = text::chars_of(current);
    let ds: Vec<char> = text::chars_of(device);
    let ps: Vec<&[char]> = text::split_pieces(cs.as_slice());
    let ghost t = text::texts(ps@);
    let (from, to): (usize, usize) = match find_device_section(&ps, ds.as_slice()) {
        Some(range) => range,
        None => {
            return BlockState::Absent;
        },
    };
    let (p, q): (usize, usize) = match find_marker_range(&ps, from, to) {
        Some(range) => range,
        None => {
            return BlockState::Absent;
        },
    };
    let mut block: String = String::new();
    push_pieces(&mut block, &ps, p, q);
    let bs: Vec<char> = text::chars_of(block.as_str());
    assert(bs@ =~= joined(t.subrange(p as int, q as int)));
    let stored_hash: Option<String> = parse_begin_hash(bs.as_slice());
    let body: String = text::string_of(block_body(bs.as_slice()));
    BlockState::Present { stored_hash, actual_hash: fingerprint::content_hash(body.as_str()) }
}

/// Calls `<std::io::Error as ToString>::to_string`. Nothing is claimed of the text: it comes from the
/// operating system and its language.
#[verifier::external_body]
pub(crate) fn io_error_text(e: &std::io::Error) -> (r: String)
{
    e.to_string()
}

impl From<std::io::Error> for WriteError {
    fn from(e: std::io::Error) -> (r: WriteError) {
        WriteError::Io(e)
    }
}

impl vstd::std_specs::convert::FromSpecImpl<std::io::Error> for WriteError {
    open spec fn obeys_from_spec() -> bool {
        true
    }

    open spec fn from_spec(e: std::io::Error) -> WriteError {
        WriteError::Io(e)
    }
}

/// What went wrong, in words; `cause` is how the platform words a failure of its own.
pub open spec fn message_of(e: WriteError, cause: Seq<char>) -> Seq<char> {
    match e {
        WriteError::Io(_) => "config.txt I/O error: "@ + cause,
        WriteError::NoParentDir => "config.txt path has no parent directory for the temp file"@,
        WriteError::NotUtf8 => {
            "config.txt is not valid UTF-8 (CAGE requires UTF-8; re-save it as UTF-8)"@
        },
    }
}

impl WriteError {
    /// What went wrong, in words. What the operating system says of its own failures stands as it
    /// comes.
    pub fn message(&self) -> (r: String)
        ensures
            exists|cause: Seq<char>| r@ == #[trigger] message_of(*self, cause),
    {
        match self {
            WriteError::Io(e) => {
                let cause: String = io_error_text(e);
                self.message_with(cause.as_str())
            },
            _ => self.message_with(""),
        }
    }

    /// What went wrong, in words, where the failure underneath is worded as `cause`.
    pub fn message_with(&self, cause: &str) -> (r: String)
        ensures
            r@ == message_of(*self, cause@),
    {
        match self {
            WriteError::Io(_) => {
                let mut s: String = "config.txt I/O error: ".to_owned();
                s.append(cause);
                s
            },
            WriteError::NoParentDir => {
                "config.txt path has no parent directory for the temp file".to_owned()
            },
            WriteError::NotUtf8 => {
                "config.txt is not valid UTF-8 (CAGE requires UTF-8; re-save it as UTF-8)".to_owned()
            },
        }
    }

    /// The failure underneath, where there is one.
    pub fn source(&self) -> (r: Option<&std::io::Error>)
        ensures
            match *self {
                WriteError::Io(e) => r == Some(&e),
                _ => r is None,
            },
    {
        match self {
            WriteError::Io(e) => Some(e),
            _ => None,
        }
    }
}

/// Set the managed block for `device`: from what reading the file came to, the text to write and the
/// fingerprint that now stands on its first line. A file that is not there yet is an ordinary first
/// run.
pub fn write_managed_block(
    has_parent: bool,
    current: Result<String, ReadFailure>,
    device: &str,
    preamp_db: Double,
    filters: &[Filter],
) -> (r: Result<(String, String), WriteError>)
    ensures
        !has_parent ==> (r matches Err(e) && e is NoParentDir),
        has_parent ==> match current {
            Err(ReadFailure::InvalidData) => r matches Err(e) && e is NotUtf8,
            Err(ReadFailure::Other(cause)) => r matches Err(e) && e == WriteError::Io(cause),
            Err(ReadFailure::NotFound) => r matches Ok(w) && w.0@ == spliced(
                Seq::empty(),
                device@,
                block_text(preamp_db, filters@),
            ) && w.1@ == fingerprint::text_fingerprint(body_text(preamp_db, filters@)),
            Ok(s) => r matches Ok(w) && w.0@ == spliced(
                s@,
                device@,
                block_text(preamp_db, filters@),
            ) && w.1@ == fingerprint::text_fingerprint(body_text(preamp_db, filters@)),
        },
{
    if !has_parent {
        return Err(WriteError::NoParentDir);
    }
    let text: String = match current {
        Ok(s) => s,
        Err(ReadFailure::NotFound) => String::new(),
        Err(ReadFailure::InvalidData) => {
            return Err(WriteError::NotUtf8);
        },
        Err(ReadFailure::Other(cause)) => {
            return Err(WriteError::Io(cause));
        },
    };
    let (block, hash) = render_cage_block(preamp_db, filters);
    Ok((splice_cage_block(text.as_str(), device, block.as_str()), hash))
}

/// The state of the managed block for `device`, from what reading the file came to.
pub fn read_block_state(current: Result<String, ReadFailure>, device: &str) -> (r: Result<
    BlockState,
    WriteError,
>)
    ensures
        match current {
            Err(ReadFailure::InvalidData) => r matches Err(e) && e is NotUtf8,
            Err(ReadFailure::Other(cause)) => r matches Err(e) && e == WriteError::Io(cause),
            Err(ReadFailure::NotFound) => r matches Ok(b) && b is Absent,
            Ok(s) => r matches Ok(b) && state_is(b, s@, device@),
        },
{
    match current {
        Ok(s) => Ok(block_state(s.as_str(), device)),
        Err(ReadFailure::NotFound) => Ok(BlockState::Absent),
        Err(ReadFailure::InvalidData) => Err(WriteError::NotUtf8),
        Err(ReadFailure::Other(cause)) => Err(WriteError::Io(cause)),
    }
}

} // verus!
