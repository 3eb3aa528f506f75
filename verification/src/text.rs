//! Text, as sequences of characters.
//!
//! The formats here are line- and token-based. This module says what a line, a token and a trimmed
//! piece of text are, and finds them.
use vstd::prelude::*;
use vstd::seq_lib::*;
use vstd::slice::*;
use vstd::utf8::*;

verus! {

/// `String::push` appends one character.
pub assume_specification[ String::push ](s: &mut String, c: char)
    ensures
        final(s)@ == old(s)@.push(c),
;

/// Unicode's `White_Space` property.
pub open spec fn is_space(c: char) -> bool {
    ||| '\u{9}' <= c <= '\u{d}'
    ||| c == '\u{20}'
    ||| c == '\u{85}'
    ||| c == '\u{a0}'
    ||| c == '\u{1680}'
    ||| '\u{2000}' <= c <= '\u{200a}'
    ||| c == '\u{2028}'
    ||| c == '\u{2029}'
    ||| c == '\u{202f}'
    ||| c == '\u{205f}'
    ||| c == '\u{3000}'
}

/// Text without its leading white space.
pub open spec fn trim_start(s: Seq<char>) -> Seq<char>
    decreases s.len(),
{
    if s.len() > 0 && is_space(s[0]) {
        trim_start(s.skip(1))
    } else {
        s
    }
}

/// Text without its trailing white space.
pub open spec fn trim_end(s: Seq<char>) -> Seq<char>
    decreases s.len(),
{
    if s.len() > 0 && is_space(s.last()) {
        trim_end(s.drop_last())
    } else {
        s
    }
}

/// Text without white space at either end.
pub open spec fn trim(s: Seq<char>) -> Seq<char> {
    trim_end(trim_start(s))
}

/// Does `s` begin with `p`?
pub open spec fn starts_with(s: Seq<char>, p: Seq<char>) -> bool {
    p.len() <= s.len() && s.take(p.len() as int) == p
}

/// Does `p` stand in `s` at index `i`?
pub open spec fn stands_at(s: Seq<char>, p: Seq<char>, i: int) -> bool {
    0 <= i && i + p.len() <= s.len() && s.subrange(i, i + p.len()) == p
}

/// Does `p` stand anywhere in `s`?
pub open spec fn contains(s: Seq<char>, p: Seq<char>) -> bool {
    exists|i: int| stands_at(s, p, i)
}

/// The index of the first `c` in `s`, or the length of `s` where there is none.
pub open spec fn index_of(s: Seq<char>, c: char) -> int
    decreases s.len(),
{
    if s.len() == 0 || s[0] == c {
        0
    } else {
        1 + index_of(s.skip(1), c)
    }
}

/// How many characters stand before the first white space.
pub open spec fn word_len(s: Seq<char>) -> int
    decreases s.len(),
{
    if s.len() == 0 || is_space(s[0]) {
        0
    } else {
        1 + word_len(s.skip(1))
    }
}

pub proof fn lemma_word_len(s: Seq<char>)
    ensures
        0 <= word_len(s) <= s.len(),
        s.len() > 0 && !is_space(s[0]) ==> word_len(s) > 0,
    decreases s.len(),
{
    if s.len() > 0 && !is_space(s[0]) {
        lemma_word_len(s.skip(1));
    }
}

pub proof fn lemma_trim_start_shrinks(s: Seq<char>)
    ensures
        trim_start(s).len() <= s.len(),
        trim_start(s).len() > 0 ==> !is_space(trim_start(s)[0]),
    decreases s.len(),
{
    if s.len() > 0 && is_space(s[0]) {
        lemma_trim_start_shrinks(s.skip(1));
    }
}

/// The words of `s`: its longest runs without white space, in order.
pub open spec fn words(s: Seq<char>) -> Seq<Seq<char>>
    decreases s.len(),
{
    let t = trim_start(s);
    if t.len() == 0 {
        Seq::empty()
    } else {
        proof {
            lemma_trim_start_shrinks(s);
            lemma_word_len(t);
        }
        seq![t.take(word_len(t))] + words(t.skip(word_len(t)))
    }
}

pub proof fn lemma_index_of(s: Seq<char>, c: char)
    ensures
        0 <= index_of(s, c) <= s.len(),
        index_of(s, c) < s.len() ==> s[index_of(s, c)] == c,
        forall|i: int| 0 <= i < index_of(s, c) ==> s[i] != c,
    decreases s.len(),
{
    if s.len() > 0 && s[0] != c {
        lemma_index_of(s.skip(1), c);
        assert forall|i: int| 0 <= i < index_of(s, c) implies s[i] != c by {
            if i > 0 {
                assert(s[i] == s.skip(1)[i - 1]);
            }
        }
    }
}

/// The pieces of `s` that end at each line feed, the line feed kept; what follows the last one is
/// a piece too, unless it is empty.
pub open spec fn pieces(s: Seq<char>) -> Seq<Seq<char>>
    decreases s.len(),
{
    if s.len() == 0 {
        Seq::empty()
    } else {
        let i = index_of(s, '\n');
        proof {
            lemma_index_of(s, '\n');
        }
        if i >= s.len() {
            seq![s]
        } else {
            seq![s.take(i + 1)] + pieces(s.skip(i + 1))
        }
    }
}

/// A piece without its line ending, `\n` or `\r\n`.
pub open spec fn without_ending(p: Seq<char>) -> Seq<char> {
    if p.len() > 0 && p.last() == '\n' {
        let q = p.drop_last();
        if q.len() > 0 && q.last() == '\r' {
            q.drop_last()
        } else {
            q
        }
    } else {
        p
    }
}

/// The lines of `s`.
pub open spec fn lines(s: Seq<char>) -> Seq<Seq<char>> {
    pieces(s).map_values(|p: Seq<char>| without_ending(p))
}

/// The texts of a list of slices.
pub open spec fn texts(v: Seq<&[char]>) -> Seq<Seq<char>> {
    v.map_values(|x: &[char]| x@)
}

/// The characters of a string.
pub fn chars_of(s: &str) -> (r: Vec<char>)
    ensures
        r@ == s@,
{
    let mut r: Vec<char> = Vec::new();
    for c in it: s.chars()
        invariant
            it.seq() == s@,
            r@ == s@.take(it.index()),
    {
        r.push(c);
        assert(r@ =~= s@.take(it.index() + 1));
    }
    assert(r@ =~= s@);
    r
}

/// Append characters to a string.
pub fn push_chars(out: &mut String, cs: &[char])
    ensures
        final(out)@ == old(out)@ + cs@,
{
    let mut i: usize = 0;
    assert(out@ =~= old(out)@ + cs@.take(0));
    while i < cs.len()
        invariant
            i <= cs.len(),
            out@ == old(out)@ + cs@.take(i as int),
        decreases cs.len() - i,
    {
        out.push(cs[i]);
        assert(out@ =~= old(out)@ + cs@.take(i + 1));
        i = i + 1;
    }
    assert(cs@.take(cs@.len() as int) =~= cs@);
}

/// The string of those characters.
pub fn string_of(cs: &[char]) -> (r: String)
    ensures
        r@ == cs@,
{
    let mut r: String = String::new();
    push_chars(&mut r, cs);
    assert(r@ =~= cs@);
    r
}

pub fn space(c: char) -> (r: bool)
    ensures
        r == is_space(c),
{
    ('\u{9}' <= c && c <= '\u{d}') || c == '\u{20}' || c == '\u{85}' || c == '\u{a0}' || c
        == '\u{1680}' || ('\u{2000}' <= c && c <= '\u{200a}') || c == '\u{2028}' || c == '\u{2029}'
        || c == '\u{202f}' || c == '\u{205f}' || c == '\u{3000}'
}

/// Are two runs of characters the same?
pub fn same(a: &[char], b: &[char]) -> (r: bool)
    ensures
        r == (a@ == b@),
{
    if a.len() != b.len() {
        return false;
    }
    let mut i: usize = 0;
    while i < a.len()
        invariant
            a.len() == b.len(),
            i <= a.len(),
            forall|j: int| 0 <= j < i ==> a@[j] == b@[j],
        decreases a.len() - i,
    {
        if a[i] != b[i] {
            return false;
        }
        i = i + 1;
    }
    assert(a@ =~= b@);
    true
}

/// Are those characters this text?
pub fn is_text(a: &[char], b: &str) -> (r: bool)
    ensures
        r == (a@ == b@),
{
    let c: Vec<char> = chars_of(b);
    same(a, c.as_slice())
}

pub fn trimmed_start(s: &[char]) -> (r: &[char])
    ensures
        r@ == trim_start(s@),
{
    let mut i: usize = 0;
    assert(s@.skip(0) =~= s@);
    while i < s.len() && space(s[i])
        invariant
            i <= s.len(),
            trim_start(s@) == trim_start(s@.skip(i as int)),
        decreases s.len() - i,
    {
        assert(s@.skip(i as int).skip(1) =~= s@.skip(i + 1));
        i = i + 1;
    }
    assert(s@.skip(i as int) =~= s@.subrange(i as int, s@.len() as int));
    slice_subrange(s, i, s.len())
}

pub fn trimmed_end(s: &[char]) -> (r: &[char])
    ensures
        r@ == trim_end(s@),
{
    let mut i: usize = s.len();
    assert(s@.take(s@.len() as int) =~= s@);
    while i > 0 && space(s[i - 1])
        invariant
            i <= s.len(),
            trim_end(s@) == trim_end(s@.take(i as int)),
        decreases i,
    {
        assert(s@.take(i as int).drop_last() =~= s@.take(i - 1));
        i = i - 1;
    }
    assert(s@.take(i as int) =~= s@.subrange(0, i as int));
    slice_subrange(s, 0, i)
}

pub fn trimmed(s: &[char]) -> (r: &[char])
    ensures
        r@ == trim(s@),
{
    trimmed_end(trimmed_start(s))
}

/// The index of the first `c`, or the length.
pub fn find_char(s: &[char], c: char) -> (r: usize)
    ensures
        r == index_of(s@, c),
        r <= s.len(),
{
    let mut i: usize = 0;
    assert(s@.skip(0) =~= s@);
    while i < s.len() && s[i] != c
        invariant
            i <= s.len(),
            index_of(s@, c) == i + index_of(s@.skip(i as int), c),
        decreases s.len() - i,
    {
        assert(s@.skip(i as int).skip(1) =~= s@.skip(i + 1));
        i = i + 1;
    }
    i
}

pub fn split_words(s: &[char]) -> (r: Vec<&[char]>)
    ensures
        texts(r@) == words(s@),
{
    let mut out: Vec<&[char]> = Vec::new();
    let mut rest: &[char] = trimmed_start(s);
    proof {
        lemma_trim_idempotent(s@);
        lemma_words_trimmed(s@);
        assert(texts(out@) + words(rest@) =~= words(s@));
    }
    while rest.len() > 0
        invariant
            trim_start(rest@) == rest@,
            texts(out@) + words(rest@) == words(s@),
        decreases rest.len(),
    {
        let n: usize = word_end(rest);
        let word: &[char] = slice_subrange(rest, 0, n);
        let after: &[char] = slice_subrange(rest, n, rest.len());
        proof {
            lemma_word_len(rest@);
            lemma_trim_start_shrinks(rest@);
            assert(word@ =~= rest@.take(word_len(rest@)));
            assert(after@ =~= rest@.skip(word_len(rest@)));
            lemma_words_trimmed(after@);
            lemma_trim_idempotent(after@);
            lemma_trim_start_shrinks(after@);
            assert(texts(out@.push(word)) =~= texts(out@).push(word@));
            assert(texts(out@) + (seq![word@] + words(after@)) =~= texts(out@).push(word@) + words(
                after@,
            ));
        }
        out.push(word);
        rest = trimmed_start(after);
    }
    assert(words(rest@) =~= Seq::empty());
    assert(texts(out@) + words(rest@) =~= texts(out@));
    out
}

fn word_end(s: &[char]) -> (r: usize)
    ensures
        r == word_len(s@),
        r <= s.len(),
{
    let mut i: usize = 0;
    assert(s@.skip(0) =~= s@);
    while i < s.len() && !space(s[i])
        invariant
            i <= s.len(),
            word_len(s@) == i + word_len(s@.skip(i as int)),
        decreases s.len() - i,
    {
        assert(s@.skip(i as int).skip(1) =~= s@.skip(i + 1));
        i = i + 1;
    }
    i
}

pub proof fn lemma_trim_idempotent(s: Seq<char>)
    ensures
        trim_start(trim_start(s)) == trim_start(s),
{
    lemma_trim_start_shrinks(s);
}

pub proof fn lemma_words_trimmed(s: Seq<char>)
    ensures
        words(trim_start(s)) == words(s),
{
    lemma_trim_idempotent(s);
}

/// Trimming is settled after one step.
pub proof fn lemma_trim_twice(s: Seq<char>)
    ensures
        trim(trim(s)) == trim(s),
{
    let t = trim_start(s);
    lemma_trim_start_shrinks(s);
    lemma_trim_end_keeps_start(t);
    lemma_trim_end_settles(t);
    if trim(s).len() > 0 {
        assert(trim(s)[0] == t[0]);
    }
}

proof fn lemma_trim_end_settles(s: Seq<char>)
    ensures
        trim_end(trim_end(s)) == trim_end(s),
    decreases s.len(),
{
    if s.len() > 0 && is_space(s.last()) {
        lemma_trim_end_settles(s.drop_last());
    }
}

/// Text that begins with something other than white space is not blank.
pub proof fn lemma_trim_not_blank(s: Seq<char>)
    requires
        s.len() > 0,
        !is_space(s[0]),
    ensures
        trim(s).len() > 0,
    decreases s.len(),
{
    if s.len() > 1 && is_space(s.last()) {
        lemma_trim_not_blank(s.drop_last());
    }
}

/// Text that is not blank has a word.
pub proof fn lemma_words_of_trimmed(s: Seq<char>)
    ensures
        trim(s).len() > 0 ==> words(trim(s)).len() > 0,
{
    let t = trim_start(s);
    lemma_trim_start_shrinks(s);
    lemma_trim_end_keeps_start(t);
    if trim(s).len() > 0 {
        assert(trim(s)[0] == t[0]);
        assert(trim_start(trim(s)) == trim(s));
    }
}

proof fn lemma_trim_end_keeps_start(s: Seq<char>)
    ensures
        trim_end(s).len() <= s.len(),
        trim_end(s) == s.take(trim_end(s).len() as int),
    decreases s.len(),
{
    if s.len() > 0 && is_space(s.last()) {
        lemma_trim_end_keeps_start(s.drop_last());
        let n = trim_end(s).len() as int;
        assert(s.drop_last().take(n) =~= s.take(n));
    } else {
        assert(s.take(s.len() as int) =~= s);
    }
}

/// The pieces of `s`, each with its line feed.
pub fn split_pieces(s: &[char]) -> (r: Vec<&[char]>)
    ensures
        texts(r@) == pieces(s@),
{
    let mut out: Vec<&[char]> = Vec::new();
    let mut rest: &[char] = s;
    assert(texts(out@) + pieces(rest@) =~= pieces(s@));
    while rest.len() > 0
        invariant
            texts(out@) + pieces(rest@) == pieces(s@),
        decreases rest.len(),
    {
        let i: usize = find_char(rest, '\n');
        let n: usize = if i < rest.len() { i + 1 } else { i };
        let piece: &[char] = slice_subrange(rest, 0, n);
        let after: &[char] = slice_subrange(rest, n, rest.len());
        proof {
            assert(texts(out@.push(piece)) =~= texts(out@).push(piece@));
            if i < rest.len() {
                assert(piece@ =~= rest@.take(i + 1));
                assert(after@ =~= rest@.skip(i + 1));
            } else {
                assert(piece@ =~= rest@);
                assert(after@ =~= Seq::empty());
                assert(pieces(after@) =~= Seq::empty());
            }
            assert(texts(out@) + pieces(rest@) =~= texts(out@).push(piece@) + pieces(after@));
        }
        out.push(piece);
        rest = after;
    }
    assert(texts(out@) + pieces(rest@) =~= texts(out@));
    out
}

pub fn strip_ending(p: &[char]) -> (r: &[char])
    ensures
        r@ == without_ending(p@),
{
    let n: usize = p.len();
    if n > 0 && p[n - 1] == '\n' {
        if n > 1 && p[n - 2] == '\r' {
            assert(p@.drop_last().drop_last() =~= p@.subrange(0, n - 2));
            slice_subrange(p, 0, n - 2)
        } else {
            assert(p@.drop_last() =~= p@.subrange(0, n - 1));
            slice_subrange(p, 0, n - 1)
        }
    } else {
        p
    }
}

/// The lines of `s`.
pub fn split_lines(s: &[char]) -> (r: Vec<&[char]>)
    ensures
        texts(r@) == lines(s@),
{
    let all: Vec<&[char]> = split_pieces(s);
    let mut out: Vec<&[char]> = Vec::new();
    let mut i: usize = 0;
    while i < all.len()
        invariant
            i <= all.len(),
            texts(all@) == pieces(s@),
            texts(out@) == lines(s@).take(i as int),
        decreases all.len() - i,
    {
        let line: &[char] = strip_ending(all[i]);
        proof {
            assert(texts(all@)[i as int] == all@[i as int]@);
            assert(texts(out@.push(line)) =~= texts(out@).push(line@));
            assert(lines(s@).take(i + 1) =~= lines(s@).take(i as int).push(line@));
        }
        out.push(line);
        i = i + 1;
    }
    assert(lines(s@).take(all@.len() as int) =~= lines(s@));
    out
}

pub fn begins(s: &[char], p: &[char]) -> (r: bool)
    ensures
        r == starts_with(s@, p@),
{
    if p.len() > s.len() {
        return false;
    }
    let head: &[char] = slice_subrange(s, 0, p.len());
    assert(head@ =~= s@.take(p@.len() as int));
    same(head, p)
}

pub fn begins_text(s: &[char], p: &str) -> (r: bool)
    ensures
        r == starts_with(s@, p@),
{
    let c: Vec<char> = chars_of(p);
    begins(s, c.as_slice())
}

/// Lines put together into text, each ended by a line feed.
pub open spec fn unlines(ls: Seq<Seq<char>>) -> Seq<char>
    decreases ls.len(),
{
    if ls.len() == 0 {
        Seq::empty()
    } else {
        ls[0] + seq!['\n'] + unlines(ls.skip(1))
    }
}

/// Tokens put together with single spaces between them.
pub open spec fn spaced(ts: Seq<Seq<char>>) -> Seq<char>
    decreases ts.len(),
{
    if ts.len() == 0 {
        Seq::empty()
    } else if ts.len() == 1 {
        ts[0]
    } else {
        ts[0] + seq![' '] + spaced(ts.skip(1))
    }
}

/// Can `t` stand as a token: is it not empty, and free of white space?
pub open spec fn is_token(t: Seq<char>) -> bool {
    t.len() > 0 && forall|i: int| 0 <= i < t.len() ==> !is_space(#[trigger] t[i])
}

/// Can `l` stand as a line: is it free of line feeds, and not ended by a carriage return?
pub open spec fn is_line(l: Seq<char>) -> bool {
    &&& forall|i: int| 0 <= i < l.len() ==> #[trigger] l[i] != '\n'
    &&& l.len() > 0 ==> l.last() != '\r'
}

pub proof fn lemma_unlines_push(ls: Seq<Seq<char>>, l: Seq<char>)
    ensures
        unlines(ls.push(l)) == unlines(ls) + l + seq!['\n'],
    decreases ls.len(),
{
    if ls.len() == 0 {
        assert(ls.push(l).skip(1) =~= Seq::empty());
        assert(unlines(ls.push(l).skip(1)) =~= Seq::empty());
        assert(unlines(ls.push(l)) =~= unlines(ls) + l + seq!['\n']);
    } else {
        lemma_unlines_push(ls.skip(1), l);
        assert(ls.push(l).skip(1) =~= ls.skip(1).push(l));
        assert(unlines(ls.push(l)) =~= unlines(ls) + l + seq!['\n']);
    }
}

pub proof fn lemma_index_of_is(s: Seq<char>, c: char, n: int)
    requires
        0 <= n < s.len(),
        s[n] == c,
        forall|i: int| 0 <= i < n ==> s[i] != c,
    ensures
        index_of(s, c) == n,
{
    lemma_index_of(s, c);
}

/// Lines put together are found again.
pub proof fn lemma_lines_of_unlines(ls: Seq<Seq<char>>)
    requires
        forall|i: int| 0 <= i < ls.len() ==> is_line(#[trigger] ls[i]),
    ensures
        lines(unlines(ls)) == ls,
    decreases ls.len(),
{
    if ls.len() == 0 {
        assert(lines(unlines(ls)) =~= ls);
    } else {
        let rest = ls.skip(1);
        assert forall|i: int| 0 <= i < rest.len() implies is_line(#[trigger] rest[i]) by {
            assert(is_line(ls[i + 1]));
        }
        lemma_lines_of_unlines(rest);
        let s = unlines(ls);
        let n = ls[0].len() as int;
        assert(is_line(ls[0]));
        assert forall|i: int| 0 <= i < n implies s[i] != '\n' by {
            assert(s[i] == ls[0][i]);
        }
        lemma_index_of_is(s, '\n', n);
        assert(s.skip(n + 1) =~= unlines(rest));
        let first = s.take(n + 1);
        assert(first.drop_last() =~= ls[0]);
        assert(without_ending(first) == ls[0]);
        assert(lines(s) =~= seq![ls[0]] + lines(unlines(rest)));
        assert(seq![ls[0]] + rest =~= ls);
    }
}

proof fn lemma_word_len_is(s: Seq<char>, n: int)
    requires
        0 <= n <= s.len(),
        forall|i: int| 0 <= i < n ==> !is_space(#[trigger] s[i]),
        n < s.len() ==> is_space(s[n]),
    ensures
        word_len(s) == n,
    decreases n,
{
    if n > 0 {
        let t = s.skip(1);
        assert(!is_space(s[0]));
        assert forall|i: int| 0 <= i < n - 1 implies !is_space(#[trigger] t[i]) by {
            assert(!is_space(s[i + 1]));
        }
        lemma_word_len_is(t, n - 1);
    }
}

/// Tokens put together with spaces are found again, and the text has nothing to trim.
#[verifier::spinoff_prover]
pub proof fn lemma_words_of_spaced(ts: Seq<Seq<char>>)
    requires
        ts.len() > 0,
        forall|i: int| 0 <= i < ts.len() ==> is_token(#[trigger] ts[i]),
    ensures
        words(spaced(ts)) == ts,
        trim(spaced(ts)) == spaced(ts),
        spaced(ts).len() > 0,
        spaced(ts)[0] == ts[0][0],
        !is_space(spaced(ts).last()),
    decreases ts.len(),
{
    let s = spaced(ts);
    let t = ts[0];
    let n = t.len() as int;
    assert(is_token(t));
    assert(!is_space(t[0]));
    if ts.len() == 1 {
        assert forall|i: int| 0 <= i < n implies !is_space(#[trigger] s[i]) by {}
        lemma_word_len_is(s, n);
        assert(s.take(n) =~= t);
        assert(s.skip(n) =~= Seq::empty());
        assert(words(s.skip(n)) =~= Seq::empty());
        assert(words(s) =~= ts);
        assert(!is_space(t[n - 1]));
    } else {
        let rest = ts.skip(1);
        assert forall|i: int| 0 <= i < rest.len() implies is_token(#[trigger] rest[i]) by {
            assert(is_token(ts[i + 1]));
        }
        lemma_words_of_spaced(rest);
        assert(s =~= t + seq![' '] + spaced(rest));
        assert forall|i: int| 0 <= i < n implies !is_space(#[trigger] s[i]) by {
            assert(!is_space(t[i]));
        }
        assert(s[n] == ' ');
        lemma_word_len_is(s, n);
        assert(trim_start(s) == s);
        assert(s.take(n) =~= t);
        let after = s.skip(n);
        assert(after[0] == ' ');
        assert(after.skip(1) =~= spaced(rest));
        assert(trim_start(after) == trim_start(spaced(rest)));
        assert(words(after) == words(spaced(rest)));
        assert(words(s) =~= ts);
        assert(s.last() == spaced(rest).last());
    }
}

/// Tokens put together with spaces make one line.
pub proof fn lemma_spaced_is_line(ts: Seq<Seq<char>>)
    requires
        ts.len() > 0,
        forall|i: int| 0 <= i < ts.len() ==> is_token(#[trigger] ts[i]),
    ensures
        is_line(spaced(ts)),
    decreases ts.len(),
{
    lemma_words_of_spaced(ts);
    let s = spaced(ts);
    assert(is_token(ts[0]));
    if ts.len() > 1 {
        let rest = ts.skip(1);
        assert forall|i: int| 0 <= i < rest.len() implies is_token(#[trigger] rest[i]) by {
            assert(is_token(ts[i + 1]));
        }
        lemma_spaced_is_line(rest);
        let n = ts[0].len() as int;
        assert forall|i: int| 0 <= i < s.len() implies #[trigger] s[i] != '\n' by {
            if i < n {
                assert(!is_space(ts[0][i]));
            } else if i > n {
                assert(s[i] == spaced(rest)[i - n - 1]);
            }
        }
    } else {
        assert forall|i: int| 0 <= i < s.len() implies #[trigger] s[i] != '\n' by {
            assert(!is_space(ts[0][i]));
        }
    }
}

/// Does `p` stand anywhere in `s`?
pub fn holds_text(s: &[char], p: &[char]) -> (r: bool)
    ensures
        r == contains(s@, p@),
{
    if p.len() > s.len() {
        return false;
    }
    let last: usize = s.len() - p.len();
    let mut i: usize = 0;
    while i <= last
        invariant
            p.len() <= s.len(),
            last == s.len() - p.len(),
            i <= last + 1,
            forall|j: int| 0 <= j < i ==> !#[trigger] stands_at(s@, p@, j),
        decreases last + 1 - i,
    {
        let here: &[char] = slice_subrange(s, i, i + p.len());
        if same(here, p) {
            assert(stands_at(s@, p@, i as int));
            return true;
        }
        if i == last {
            assert(forall|j: int| !#[trigger] stands_at(s@, p@, j));
            return false;
        }
        i = i + 1;
    }
    false
}

/// An ASCII letter in upper case; any other character as it is.
pub open spec fn upper(c: char) -> char {
    if 'a' <= c <= 'z' {
        (c as int - 32) as char
    } else {
        c
    }
}

/// Text with its ASCII letters in upper case.
pub open spec fn uppered(s: Seq<char>) -> Seq<char> {
    s.map_values(|c: char| upper(c))
}

fn upper_char(c: char) -> (r: char)
    ensures
        r == upper(c),
{
    if 'a' <= c && c <= 'z' {
        ((c as u8) - 32u8) as char
    } else {
        c
    }
}

/// Text with its ASCII letters in upper case.
pub fn to_upper(s: &[char]) -> (r: Vec<char>)
    ensures
        r@ == uppered(s@),
{
    let mut r: Vec<char> = Vec::new();
    let mut i: usize = 0;
    while i < s.len()
        invariant
            i <= s.len(),
            r@ =~= uppered(s@).take(i as int),
        decreases s.len() - i,
    {
        r.push(upper_char(s[i]));
        i = i + 1;
    }
    assert(uppered(s@).take(s@.len() as int) =~= uppered(s@));
    r
}

/// Are two texts the same, the case of ASCII letters aside?
pub open spec fn same_letters(a: Seq<char>, b: Seq<char>) -> bool {
    uppered(a) == uppered(b)
}

/// Are two texts the same, the case of ASCII letters aside?
pub fn matches_letters(a: &[char], b: &[char]) -> (r: bool)
    ensures
        r == same_letters(a@, b@),
{
    let x: Vec<char> = to_upper(a);
    let y: Vec<char> = to_upper(b);
    same(x.as_slice(), y.as_slice())
}

/// The order of bytes: by the first that differs, a prefix before what it is a prefix of.
pub open spec fn bytes_le(a: Seq<u8>, b: Seq<u8>) -> bool
    decreases a.len(),
{
    if a.len() == 0 {
        true
    } else if b.len() == 0 {
        false
    } else if a[0] == b[0] {
        bytes_le(a.skip(1), b.skip(1))
    } else {
        a[0] < b[0]
    }
}

pub proof fn lemma_bytes_le_total(a: Seq<u8>, b: Seq<u8>)
    ensures
        bytes_le(a, b) || bytes_le(b, a),
    decreases a.len(),
{
    if a.len() > 0 && b.len() > 0 && a[0] == b[0] {
        lemma_bytes_le_total(a.skip(1), b.skip(1));
    }
}

pub proof fn lemma_bytes_le_transitive(a: Seq<u8>, b: Seq<u8>, c: Seq<u8>)
    requires
        bytes_le(a, b),
        bytes_le(b, c),
    ensures
        bytes_le(a, c),
    decreases a.len(),
{
    if a.len() > 0 && b.len() > 0 && c.len() > 0 && a[0] == b[0] && b[0] == c[0] {
        lemma_bytes_le_transitive(a.skip(1), b.skip(1), c.skip(1));
    }
}

/// Bytes that come before each other are the same.
pub proof fn lemma_bytes_le_antisymmetric(a: Seq<u8>, b: Seq<u8>)
    requires
        bytes_le(a, b),
        bytes_le(b, a),
    ensures
        a == b,
    decreases a.len(),
{
    if a.len() > 0 && b.len() > 0 {
        lemma_bytes_le_antisymmetric(a.skip(1), b.skip(1));
        assert(a =~= seq![a[0]] + a.skip(1));
        assert(b =~= seq![b[0]] + b.skip(1));
    } else {
        assert(a =~= b);
    }
}

/// Do the bytes `a` come before `b`, or equal them?
pub fn is_le(a: &[u8], b: &[u8]) -> (r: bool)
    ensures
        r == bytes_le(a@, b@),
{
    let mut i: usize = 0;
    assert(a@.skip(0) =~= a@);
    assert(b@.skip(0) =~= b@);
    while i < a.len() && i < b.len()
        invariant
            i <= a.len(),
            i <= b.len(),
            bytes_le(a@, b@) == bytes_le(a@.skip(i as int), b@.skip(i as int)),
        decreases a.len() - i,
    {
        if a[i] != b[i] {
            return a[i] < b[i];
        }
        assert(a@.skip(i as int).skip(1) =~= a@.skip(i + 1));
        assert(b@.skip(i as int).skip(1) =~= b@.skip(i + 1));
        i = i + 1;
    }
    i == a.len()
}

/// The order of texts: that of their UTF-8 bytes.
pub open spec fn text_le(a: Seq<char>, b: Seq<char>) -> bool {
    bytes_le(encode_utf8(a), encode_utf8(b))
}

/// Are texts in order?
pub open spec fn in_order(s: Seq<Seq<char>>) -> bool {
    forall|i: int, j: int| 0 <= i < j < s.len() ==> text_le(#[trigger] s[i], #[trigger] s[j])
}

/// The texts of strings.
pub open spec fn string_texts(v: Seq<String>) -> Seq<Seq<char>> {
    v.map_values(|s: String| s@)
}

/// Put strings in order.
pub fn sort_strings(v: Vec<String>) -> (r: Vec<String>)
    ensures
        in_order(string_texts(r@)),
        string_texts(r@).to_multiset() == string_texts(v@).to_multiset(),
{
    let mut out: Vec<String> = Vec::new();
    let ghost all = string_texts(v@);
    let mut k: usize = 0;
    assert(all.take(0) =~= Seq::empty());
    assert(string_texts(out@) =~= Seq::empty());
    while k < v.len()
        invariant
            k <= v.len(),
            all == string_texts(v@),
            in_order(string_texts(out@)),
            string_texts(out@).to_multiset() == all.take(k as int).to_multiset(),
        decreases v.len() - k,
    {
        let item: &String = &v[k];
        let mut i: usize = 0;
        while i < out.len() && is_le(out[i].as_str().as_bytes(), item.as_str().as_bytes())
            invariant
                i <= out.len(),
                forall|j: int| 0 <= j < i ==> text_le(#[trigger] string_texts(out@)[j], item@),
            decreases out.len() - i,
        {
            assert(string_texts(out@)[i as int] == out@[i as int]@);
            i = i + 1;
        }
        let ghost before = string_texts(out@);
        out.insert(i, item.clone());
        proof {
            let after = string_texts(out@);
            assert(after =~= before.insert(i as int, item@));
            if i < before.len() {
                lemma_bytes_le_total(encode_utf8(before[i as int]), encode_utf8(item@));
            }
            assert forall|a: int, b: int| 0 <= a < b < after.len() implies text_le(
                #[trigger] after[a],
                #[trigger] after[b],
            ) by {
                if b < i {
                    assert(after[a] == before[a] && after[b] == before[b]);
                } else if b == i {
                    assert(after[a] == before[a]);
                } else if a < i {
                    assert(after[a] == before[a] && after[b] == before[b - 1]);
                } else if a == i {
                    assert(after[b] == before[b - 1]);
                    if b - 1 > i {
                        assert(text_le(before[i as int], before[b - 1]));
                        lemma_bytes_le_transitive(
                            encode_utf8(item@),
                            encode_utf8(before[i as int]),
                            encode_utf8(before[b - 1]),
                        );
                    }
                } else {
                    assert(after[a] == before[a - 1] && after[b] == before[b - 1]);
                }
            }
            to_multiset_insert(before, i as int, item@);
            assert(all.take(k + 1) =~= all.take(k as int).push(all[k as int]));
            to_multiset_build(all.take(k as int), all[k as int]);
        }
        k = k + 1;
    }
    assert(all.take(all.len() as int) =~= all);
    out
}

/// The parts of `s` between the separators `c`; there is always one.
pub open spec fn split(s: Seq<char>, c: char) -> Seq<Seq<char>>
    decreases s.len(),
{
    let i = index_of(s, c);
    if s.len() == 0 || i >= s.len() {
        seq![s]
    } else {
        proof {
            lemma_index_of(s, c);
        }
        seq![s.take(i)] + split(s.skip(i + 1), c)
    }
}

/// Parts put together with the separator `c` between them.
pub open spec fn join(ts: Seq<Seq<char>>, c: char) -> Seq<char>
    decreases ts.len(),
{
    if ts.len() == 0 {
        Seq::empty()
    } else if ts.len() == 1 {
        ts[0]
    } else {
        ts[0] + seq![c] + join(ts.skip(1), c)
    }
}

/// Is `s` free of the character `c`?
pub open spec fn lacks(s: Seq<char>, c: char) -> bool {
    forall|i: int| 0 <= i < s.len() ==> #[trigger] s[i] != c
}

/// Parts put together are found again.
pub proof fn lemma_split_join(ts: Seq<Seq<char>>, c: char)
    requires
        ts.len() > 0,
        forall|i: int| 0 <= i < ts.len() ==> lacks(#[trigger] ts[i], c),
    ensures
        split(join(ts, c), c) == ts,
    decreases ts.len(),
{
    let s = join(ts, c);
    let t = ts[0];
    assert(lacks(t, c));
    lemma_index_of(s, c);
    if ts.len() == 1 {
        if s.len() > 0 && index_of(s, c) < s.len() {
            assert(t[index_of(s, c)] == c);
        }
        assert(split(s, c) =~= ts);
    } else {
        let rest = ts.skip(1);
        assert forall|i: int| 0 <= i < rest.len() implies lacks(#[trigger] rest[i], c) by {
            assert(lacks(ts[i + 1], c));
        }
        lemma_split_join(rest, c);
        let n = t.len() as int;
        assert(s[n] == c);
        assert forall|i: int| 0 <= i < n implies s[i] != c by {
            assert(s[i] == t[i]);
        }
        lemma_index_of_is(s, c, n);
        assert(s.take(n) =~= t);
        assert(s.skip(n + 1) =~= join(rest, c));
        assert(split(s, c) =~= seq![t] + rest);
        assert(seq![t] + rest =~= ts);
    }
}

pub proof fn lemma_join_push(ts: Seq<Seq<char>>, t: Seq<char>, c: char)
    requires
        ts.len() > 0,
    ensures
        join(ts.push(t), c) == join(ts, c) + seq![c] + t,
    decreases ts.len(),
{
    if ts.len() == 1 {
        assert(ts.push(t).skip(1) =~= seq![t]);
        assert(join(ts.push(t).skip(1), c) == t);
        assert(join(ts.push(t), c) =~= join(ts, c) + seq![c] + t);
    } else {
        lemma_join_push(ts.skip(1), t, c);
        assert(ts.push(t).skip(1) =~= ts.skip(1).push(t));
        assert(join(ts.push(t), c) =~= join(ts, c) + seq![c] + t);
    }
}

/// The parts of `s` between the separators `c`.
pub fn split_at(s: &[char], c: char) -> (r: Vec<&[char]>)
    ensures
        texts(r@) == split(s@, c),
{
    let mut out: Vec<&[char]> = Vec::new();
    let mut rest: &[char] = s;
    assert(texts(out@) + split(rest@, c) =~= split(s@, c));
    loop
        invariant
            texts(out@) + split(rest@, c) == split(s@, c),
        decreases rest.len(),
    {
        let i: usize = find_char(rest, c);
        if i >= rest.len() {
            assert(texts(out@.push(rest)) =~= texts(out@).push(rest@));
            assert(texts(out@) + split(rest@, c) =~= texts(out@).push(rest@));
            out.push(rest);
            return out;
        }
        let part: &[char] = slice_subrange(rest, 0, i);
        let after: &[char] = slice_subrange(rest, i + 1, rest.len());
        proof {
            assert(part@ =~= rest@.take(i as int));
            assert(after@ =~= rest@.skip(i + 1));
            assert(texts(out@.push(part)) =~= texts(out@).push(part@));
            assert(texts(out@) + split(rest@, c) =~= texts(out@).push(part@) + split(after@, c));
        }
        out.push(part);
        rest = after;
    }
}

proof fn lemma_assoc(a: Seq<char>, b: Seq<char>, c: Seq<char>)
    ensures
        a + (b + c) == a + b + c,
{
    assert(a + (b + c) =~= a + b + c);
}

/// Five tokens with spaces between them, written out.
pub proof fn lemma_spaced_five(
    a: Seq<char>,
    b: Seq<char>,
    c: Seq<char>,
    d: Seq<char>,
    e: Seq<char>,
)
    ensures
        spaced(seq![a, b, c, d, e]) == a + seq![' '] + b + seq![' '] + c + seq![' '] + d + seq![
            ' ',
        ] + e,
{
    let sp = seq![' '];
    assert(seq![d, e].skip(1) =~= seq![e]);
    assert(seq![c, d, e].skip(1) =~= seq![d, e]);
    assert(seq![b, c, d, e].skip(1) =~= seq![c, d, e]);
    assert(seq![a, b, c, d, e].skip(1) =~= seq![b, c, d, e]);
    assert(spaced(seq![e]) == e);
    assert(spaced(seq![d, e]) == d + sp + e);
    assert(spaced(seq![c, d, e]) == c + sp + (d + sp + e));
    assert(spaced(seq![b, c, d, e]) == b + sp + (c + sp + (d + sp + e)));
    assert(spaced(seq![a, b, c, d, e]) == a + sp + (b + sp + (c + sp + (d + sp + e))));
    let x = a + sp;
    lemma_assoc(x, b + sp, c + sp + (d + sp + e));
    lemma_assoc(x, b, sp);
    let y = x + b + sp;
    lemma_assoc(y, c + sp, d + sp + e);
    lemma_assoc(y, c, sp);
    let z = y + c + sp;
    lemma_assoc(z, d + sp, e);
    lemma_assoc(z, d, sp);
}

/// Trimming takes white space off the ends and nothing else: what is left is one stretch of the text
/// that neither begins nor ends with white space, and all around it is white space.
pub proof fn law_trimming_takes_white_space_only(s: Seq<char>) -> (at: (int, int))
    ensures
        0 <= at.0 <= at.1 <= s.len(),
        trim(s) == s.subrange(at.0, at.1),
        forall|i: int| 0 <= i < at.0 ==> is_space(#[trigger] s[i]),
        forall|i: int| at.1 <= i < s.len() ==> is_space(#[trigger] s[i]),
        trim(s).len() > 0 ==> !is_space(trim(s)[0]) && !is_space(trim(s).last()),
{
    let a = lemma_trim_start_at(s);
    let t = s.skip(a);
    let b = lemma_trim_end_at(t);
    assert(t.take(b) =~= s.subrange(a, a + b));
    assert forall|i: int| a + b <= i < s.len() implies is_space(#[trigger] s[i]) by {
        assert(t[i - a] == s[i]);
    }
    if b > 0 {
        assert(trim(s)[0] == t[0]);
    }
    (a, a + b)
}

proof fn lemma_trim_start_at(s: Seq<char>) -> (a: int)
    ensures
        0 <= a <= s.len(),
        trim_start(s) == s.skip(a),
        forall|i: int| 0 <= i < a ==> is_space(#[trigger] s[i]),
        a < s.len() ==> !is_space(s[a]),
    decreases s.len(),
{
    if s.len() > 0 && is_space(s[0]) {
        let rest = s.skip(1);
        let a = lemma_trim_start_at(rest);
        assert(rest.skip(a) =~= s.skip(a + 1));
        assert forall|i: int| 0 <= i < a + 1 implies is_space(#[trigger] s[i]) by {
            if i > 0 {
                assert(rest[i - 1] == s[i]);
            }
        }
        a + 1
    } else {
        assert(s.skip(0) =~= s);
        0
    }
}

proof fn lemma_trim_end_at(s: Seq<char>) -> (b: int)
    ensures
        0 <= b <= s.len(),
        trim_end(s) == s.take(b),
        forall|i: int| b <= i < s.len() ==> is_space(#[trigger] s[i]),
        b > 0 ==> !is_space(s[b - 1]),
    decreases s.len(),
{
    if s.len() > 0 && is_space(s.last()) {
        let front = s.drop_last();
        let b = lemma_trim_end_at(front);
        assert(front.take(b) =~= s.take(b));
        assert forall|i: int| b <= i < s.len() implies is_space(#[trigger] s[i]) by {
            if i < front.len() {
                assert(front[i] == s[i]);
            }
        }
        b
    } else {
        assert(s.take(s.len() as int) =~= s);
        s.len() as int
    }
}

/// Upper case changes the small ASCII letters, each into its capital, and nothing else.
pub proof fn law_upper_case_changes_small_letters(c: char, d: char)
    ensures
        !('a' <= c <= 'z') ==> upper(c) == c,
        'a' <= c <= 'z' ==> 'A' <= upper(c) <= 'Z',
        upper('a') == 'A',
        'a' <= c < 'z' && d as int == c as int + 1 ==> upper(d) as int == upper(c) as int + 1,
        upper(upper(c)) == upper(c),
{
}

/// Every word is a word: not empty, and free of white space.
pub proof fn law_words_hold_no_white_space(s: Seq<char>, i: int)
    requires
        0 <= i < words(s).len(),
    ensures
        is_token(words(s)[i]),
    decreases s.len(),
{
    let t = trim_start(s);
    if t.len() > 0 {
        let n = word_len(t);
        let a = lemma_trim_start_at(s);
        lemma_word_len(t);
        lemma_trim_start_shrinks(s);
        lemma_word_is_token(t);
        if i > 0 {
            law_words_hold_no_white_space(t.skip(n), i - 1);
        }
    }
}

proof fn lemma_word_is_token(t: Seq<char>)
    ensures
        0 <= word_len(t) <= t.len(),
        forall|i: int| 0 <= i < word_len(t) ==> !is_space(#[trigger] t[i]),
    decreases t.len(),
{
    if t.len() > 0 && !is_space(t[0]) {
        let rest = t.skip(1);
        lemma_word_is_token(rest);
        assert forall|i: int| 0 <= i < word_len(t) implies !is_space(#[trigger] t[i]) by {
            if i > 0 {
                assert(rest[i - 1] == t[i]);
            }
        }
    }
}

/// Nothing is lost between words but white space: put together, they are the text without it.
pub proof fn law_words_hold_everything_else(s: Seq<char>)
    ensures
        words(s).flatten() == s.filter(|c: char| !is_space(c)),
    decreases s.len(),
{
    let p = |c: char| !is_space(c);
    let t = trim_start(s);
    let a = lemma_trim_start_at(s);
    let blank = s.take(a);
    assert(s =~= blank + t);
    Seq::filter_distributes_over_add(blank, t, p);
    assert forall|i: int| 0 <= i < blank.len() implies !p(#[trigger] blank[i]) by {
        assert(blank[i] == s[i]);
    }
    lemma_filter_none(blank, p);
    assert(s.filter(p) =~= t.filter(p));
    if t.len() == 0 {
        assert(t =~= Seq::empty());
        reveal(Seq::filter);
        assert(words(s).flatten() =~= Seq::empty());
    } else {
        let n = word_len(t);
        lemma_word_len(t);
        lemma_word_is_token(t);
        lemma_trim_start_shrinks(s);
        let w = t.take(n);
        let rest = t.skip(n);
        law_words_hold_everything_else(rest);
        assert(t =~= w + rest);
        Seq::filter_distributes_over_add(w, rest, p);
        assert forall|i: int| 0 <= i < w.len() implies p(#[trigger] w[i]) by {
            assert(w[i] == t[i]);
        }
        lemma_filter_all(w, p);
        let ws = words(s);
        assert(ws.first() == w);
        assert(ws.drop_first() =~= words(rest));
        assert(ws.flatten() =~= w + words(rest).flatten());
    }
}

proof fn lemma_filter_none(s: Seq<char>, p: spec_fn(char) -> bool)
    requires
        forall|i: int| 0 <= i < s.len() ==> !p(#[trigger] s[i]),
    ensures
        s.filter(p) == Seq::<char>::empty(),
    decreases s.len(),
{
    reveal(Seq::filter);
    if s.len() > 0 {
        assert(!p(s[s.len() - 1]));
        assert forall|i: int| 0 <= i < s.drop_last().len() implies !p(
            #[trigger] s.drop_last()[i],
        ) by {
            assert(s.drop_last()[i] == s[i]);
        }
        lemma_filter_none(s.drop_last(), p);
    }
}

proof fn lemma_filter_all(s: Seq<char>, p: spec_fn(char) -> bool)
    requires
        forall|i: int| 0 <= i < s.len() ==> p(#[trigger] s[i]),
    ensures
        s.filter(p) == s,
    decreases s.len(),
{
    reveal(Seq::filter);
    if s.len() > 0 {
        assert(p(s[s.len() - 1]));
        assert forall|i: int| 0 <= i < s.drop_last().len() implies p(
            #[trigger] s.drop_last()[i],
        ) by {
            assert(s.drop_last()[i] == s[i]);
        }
        lemma_filter_all(s.drop_last(), p);
        assert(s.drop_last().push(s.last()) =~= s);
    }
}

/// Lines are cut behind their line feeds and nowhere else: the pieces put together are the text, and a
/// line feed stands in a piece at its end alone.
pub proof fn law_lines_are_cut_at_line_feeds(s: Seq<char>, k: int, i: int)
    ensures
        pieces(s).flatten() == s,
        0 <= k < pieces(s).len() ==> pieces(s)[k].len() > 0,
        0 <= k < pieces(s).len() && 0 <= i < pieces(s)[k].len() - 1 ==> pieces(s)[k][i] != '\n',
        0 <= k < pieces(s).len() - 1 ==> pieces(s)[k].last() == '\n',
    decreases s.len(),
{
    lemma_first_at(s, '\n');
    let at = index_of(s, '\n');
    if s.len() == 0 {
        assert(pieces(s).flatten() =~= s);
    } else if at >= s.len() {
        assert(pieces(s) =~= seq![s]);
        assert(seq![s].drop_first() =~= Seq::<Seq<char>>::empty());
        assert(seq![s].flatten() =~= s + Seq::<Seq<char>>::empty().flatten());
        assert(pieces(s).flatten() =~= s);
    } else {
        let head = s.take(at + 1);
        let rest = s.skip(at + 1);
        law_lines_are_cut_at_line_feeds(rest, k - 1, i);
        let ps = pieces(s);
        assert(ps.first() == head);
        assert(ps.drop_first() =~= pieces(rest));
        assert(ps.flatten() =~= head + pieces(rest).flatten());
        assert(head + rest =~= s);
        if k == 0 {
            assert(ps[k] == head);
            if 0 <= i < head.len() - 1 {
                assert(head[i] == s[i]);
            }
        } else if 0 < k < ps.len() {
            assert(ps[k] == pieces(rest)[k - 1]);
        }
    }
}

proof fn lemma_first_at(s: Seq<char>, c: char)
    ensures
        0 <= index_of(s, c) <= s.len(),
        forall|i: int| 0 <= i < index_of(s, c) ==> #[trigger] s[i] != c,
        index_of(s, c) < s.len() ==> s[index_of(s, c)] == c,
    decreases s.len(),
{
    if s.len() > 0 && s[0] != c {
        let rest = s.skip(1);
        lemma_first_at(rest, c);
        assert forall|i: int| 0 <= i < index_of(s, c) implies #[trigger] s[i] != c by {
            if i > 0 {
                assert(rest[i - 1] == s[i]);
            }
        }
    }
}

/// A line ends before its line feed, and before a carriage return that stands right before that.
pub proof fn law_line_endings_are_dropped(l: Seq<char>)
    ensures
        l.len() == 0 || l.last() != '\r' ==> without_ending(l + seq!['\n']) == l,
        without_ending(l + seq!['\r', '\n']) == l,
        l.len() == 0 || l.last() != '\n' ==> without_ending(l) == l,
{
    let a = l + seq!['\n'];
    assert(a.last() == '\n' && a.drop_last() =~= l);
    let b = l + seq!['\r', '\n'];
    assert(b.last() == '\n');
    assert(b.drop_last() =~= l + seq!['\r']);
    assert((l + seq!['\r']).last() == '\r' && (l + seq!['\r']).drop_last() =~= l);
}

/// Splitting loses nothing: the parts are free of the separator, and put together with it between them
/// they are the text.
pub proof fn law_split_parts_make_the_text(s: Seq<char>, c: char, k: int)
    ensures
        join(split(s, c), c) == s,
        split(s, c).len() > 0,
        0 <= k < split(s, c).len() ==> lacks(split(s, c)[k], c),
    decreases s.len(),
{
    lemma_first_at(s, c);
    let at = index_of(s, c);
    if s.len() > 0 && at < s.len() {
        let head = s.take(at);
        let rest = s.skip(at + 1);
        law_split_parts_make_the_text(rest, c, k - 1);
        let ps = split(s, c);
        assert(ps[0] == head);
        assert(ps.skip(1) =~= split(rest, c));
        assert(head + seq![c] + rest =~= s);
        if k == 0 {
            assert forall|i: int| 0 <= i < head.len() implies #[trigger] head[i] != c by {
                assert(head[i] == s[i]);
            }
        } else if 0 < k < ps.len() {
            assert(ps[k] == split(rest, c)[k - 1]);
        }
    } else if k == 0 {
        assert(split(s, c)[0] == s);
    }
}

/// The order of bytes goes by the first that differs; and what is a beginning of something comes first.
pub proof fn law_first_difference_decides(p: Seq<u8>, x: u8, a: Seq<u8>, y: u8, b: Seq<u8>)
    ensures
        x != y ==> (bytes_le(p + seq![x] + a, p + seq![y] + b) <==> x < y),
        bytes_le(p, p + a),
        a.len() > 0 ==> !bytes_le(p + a, p),
    decreases p.len(),
{
    let s = p + seq![x] + a;
    let t = p + seq![y] + b;
    if p.len() > 0 {
        let q = p.skip(1);
        law_first_difference_decides(q, x, a, y, b);
        assert(s.skip(1) =~= q + seq![x] + a);
        assert(t.skip(1) =~= q + seq![y] + b);
        assert((p + a).skip(1) =~= q + a);
        assert(s[0] == p[0] && t[0] == p[0]);
    } else {
        assert(s[0] == x && t[0] == y);
    }
}

} // verus!
