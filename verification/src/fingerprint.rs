//! Content fingerprints: the first four bytes of a SHA-256 digest, in hex.
//!
//! A change detector, not a security hash. It is written to disk and read again by a possibly newer
//! build, so the algorithm has to be stable across builds and platforms.
use vstd::prelude::*;
use vstd::utf8::*;

verus! {

/// The SHA-256 digest of `data`.
pub uninterp spec fn sha256(data: Seq<u8>) -> Seq<u8>;

/// Calls `sha2::Sha256::digest`. Claims that the result depends on the bytes alone, and is the 32
/// bytes of a SHA-256 digest; which bytes they are is left to the crate.
#[verifier::external_body]
fn sha256_digest(data: &[u8]) -> (r: Vec<u8>)
    ensures
        r@ == sha256(data@),
        r@.len() == 32,
{
    <sha2::Sha256 as sha2::Digest>::digest(data).to_vec()
}

/// The hex digit of value `n`.
pub open spec fn hex_char(n: int) -> char {
    if n < 10 {
        ('0' as int + n) as char
    } else {
        ('a' as int + (n - 10)) as char
    }
}

/// A byte as two hex digits.
pub open spec fn hex_byte(b: u8) -> Seq<char> {
    seq![hex_char((b / 16) as int), hex_char((b % 16) as int)]
}

/// The first four bytes of a digest in hex.
pub open spec fn short(digest: Seq<u8>) -> Seq<char> {
    hex_byte(digest[0]) + hex_byte(digest[1]) + hex_byte(digest[2]) + hex_byte(digest[3])
}

/// The fingerprint of some bytes.
pub open spec fn fingerprint(data: Seq<u8>) -> Seq<char> {
    short(sha256(data))
}

/// The fingerprint of some text, over its UTF-8 bytes.
pub open spec fn text_fingerprint(s: Seq<char>) -> Seq<char> {
    fingerprint(encode_utf8(s))
}

fn hex_digit(n: u8) -> (c: char)
    requires
        n < 16,
    ensures
        c == hex_char(n as int),
{
    if n < 10 {
        (48u8 + n) as char
    } else {
        (97u8 + (n - 10)) as char
    }
}

/// The first four bytes of a digest in hex.
pub fn short_hex(digest: &[u8]) -> (r: String)
    requires
        digest@.len() >= 4,
    ensures
        r@ == short(digest@),
{
    let mut s: String = String::new();
    let mut i: usize = 0;
    while i < 4
        invariant
            i <= 4,
            digest@.len() >= 4,
            s@ == (if i == 0 {
                Seq::empty()
            } else if i == 1 {
                hex_byte(digest@[0])
            } else if i == 2 {
                hex_byte(digest@[0]) + hex_byte(digest@[1])
            } else if i == 3 {
                hex_byte(digest@[0]) + hex_byte(digest@[1]) + hex_byte(digest@[2])
            } else {
                short(digest@)
            }),
        decreases 4 - i,
    {
        let b: u8 = digest[i];
        let ghost before = s@;
        s.push(hex_digit(b / 16));
        s.push(hex_digit(b % 16));
        assert(s@ =~= before + hex_byte(b));
        i = i + 1;
    }
    s
}

/// The fingerprint of some bytes.
pub fn hash_bytes(data: &[u8]) -> (r: String)
    ensures
        r@ == fingerprint(data@),
{
    let digest: Vec<u8> = sha256_digest(data);
    short_hex(digest.as_slice())
}

/// The whole digest of a file's contents, or none where it could not be read.
pub fn file_hash(contents: Option<&[u8]>) -> (r: Option<Vec<u8>>)
    ensures
        match contents {
            Some(c) => r matches Some(d) && d@ == sha256(c@),
            None => r is None,
        },
{
    match contents {
        Some(c) => Some(sha256_digest(c)),
        None => None,
    }
}

/// Short content fingerprint over some text.
pub fn content_hash(body: &str) -> (r: String)
    ensures
        r@ == text_fingerprint(body@),
{
    hash_bytes(body.as_bytes())
}

/// A hex digit is no white space, and neither the start of a token nor of a comment is one.
pub proof fn lemma_hex_char(n: int)
    requires
        0 <= n < 16,
    ensures
        '0' <= hex_char(n) <= '9' || 'a' <= hex_char(n) <= 'f',
{
}

/// A fingerprint is eight hex digits.
pub proof fn law_fingerprint_is_eight_hex_digits(data: Seq<u8>, i: int)
    requires
        0 <= i < 8,
    ensures
        fingerprint(data).len() == 8,
        '0' <= fingerprint(data)[i] <= '9' || 'a' <= fingerprint(data)[i] <= 'f',
{
    let d = sha256(data);
    let b = d[i / 2];
    assert(fingerprint(data)[i] == hex_byte(b)[i % 2]);
    lemma_hex_char((b / 16) as int);
    lemma_hex_char((b % 16) as int);
}

/// A 32-bit number as eight hex digits.
pub open spec fn hex_word(n: u32) -> Seq<char> {
    hex_byte((n / 0x100_0000) as u8) + hex_byte((n / 0x1_0000 % 0x100) as u8) + hex_byte(
        (n / 0x100 % 0x100) as u8,
    ) + hex_byte((n % 0x100) as u8)
}

fn push_byte(out: &mut String, b: u8)
    ensures
        final(out)@ == old(out)@ + hex_byte(b),
{
    out.push(hex_digit(b / 16));
    out.push(hex_digit(b % 16));
    assert(out@ =~= old(out)@ + hex_byte(b));
}

/// Append a 32-bit number as eight hex digits.
pub fn push_hex_word(out: &mut String, n: u32)
    ensures
        final(out)@ == old(out)@ + hex_word(n),
{
    push_byte(out, (n / 0x100_0000) as u8);
    push_byte(out, (n / 0x1_0000 % 0x100) as u8);
    push_byte(out, (n / 0x100 % 0x100) as u8);
    push_byte(out, (n % 0x100) as u8);
    assert(out@ =~= old(out)@ + hex_word(n));
}

/// Eight hex digits are eight hex digits.
pub proof fn lemma_hex_word(n: u32, i: int)
    requires
        0 <= i < 8,
    ensures
        hex_word(n).len() == 8,
        '0' <= hex_word(n)[i] <= '9' || 'a' <= hex_word(n)[i] <= 'f',
{
    let b = if i < 2 {
        (n / 0x100_0000) as u8
    } else if i < 4 {
        (n / 0x1_0000 % 0x100) as u8
    } else if i < 6 {
        (n / 0x100 % 0x100) as u8
    } else {
        (n % 0x100) as u8
    };
    assert(hex_word(n)[i] == hex_byte(b)[i % 2]);
    lemma_hex_char((b / 16) as int);
    lemma_hex_char((b % 16) as int);
}

proof fn lemma_hex_char_differs(m: int, n: int)
    requires
        0 <= m < 16,
        0 <= n < 16,
        m != n,
    ensures
        hex_char(m) != hex_char(n),
{
}

/// Different bytes have different hex digits: the first is the byte's sixteens, the second the rest.
pub proof fn law_hex_bytes_differ(a: u8, b: u8)
    ensures
        hex_byte(a).len() == 2,
        hex_byte(a) == hex_byte(b) <==> a == b,
{
    if a / 16 != b / 16 {
        lemma_hex_char_differs((a / 16) as int, (b / 16) as int);
        assert(hex_byte(a)[0] != hex_byte(b)[0]);
    } else if a % 16 != b % 16 {
        lemma_hex_char_differs((a % 16) as int, (b % 16) as int);
        assert(hex_byte(a)[1] != hex_byte(b)[1]);
    }
}

/// Different words have different hex digits.
pub proof fn law_hex_words_differ(m: u32, n: u32)
    ensures
        hex_word(m) == hex_word(n) <==> m == n,
{
    if hex_word(m) == hex_word(n) {
        let x = hex_word(m);
        let y = hex_word(n);
        assert(x.subrange(0, 2) =~= hex_byte((m / 0x100_0000) as u8));
        assert(y.subrange(0, 2) =~= hex_byte((n / 0x100_0000) as u8));
        assert(x.subrange(2, 4) =~= hex_byte((m / 0x1_0000 % 0x100) as u8));
        assert(y.subrange(2, 4) =~= hex_byte((n / 0x1_0000 % 0x100) as u8));
        assert(x.subrange(4, 6) =~= hex_byte((m / 0x100 % 0x100) as u8));
        assert(y.subrange(4, 6) =~= hex_byte((n / 0x100 % 0x100) as u8));
        assert(x.subrange(6, 8) =~= hex_byte((m % 0x100) as u8));
        assert(y.subrange(6, 8) =~= hex_byte((n % 0x100) as u8));
        law_hex_bytes_differ((m / 0x100_0000) as u8, (n / 0x100_0000) as u8);
        law_hex_bytes_differ((m / 0x1_0000 % 0x100) as u8, (n / 0x1_0000 % 0x100) as u8);
        law_hex_bytes_differ((m / 0x100 % 0x100) as u8, (n / 0x100 % 0x100) as u8);
        law_hex_bytes_differ((m % 0x100) as u8, (n % 0x100) as u8);
    }
}

/// A fingerprint shows exactly the first four bytes of the digest: two are the same exactly where those
/// are.
pub proof fn law_fingerprint_shows_four_bytes(a: Seq<u8>, b: Seq<u8>)
    requires
        a.len() >= 4,
        b.len() >= 4,
    ensures
        short(a) == short(b) <==> a.take(4) == b.take(4),
{
    let x = short(a);
    let y = short(b);
    if x == y {
        assert(x.subrange(0, 2) =~= hex_byte(a[0]) && y.subrange(0, 2) =~= hex_byte(b[0]));
        assert(x.subrange(2, 4) =~= hex_byte(a[1]) && y.subrange(2, 4) =~= hex_byte(b[1]));
        assert(x.subrange(4, 6) =~= hex_byte(a[2]) && y.subrange(4, 6) =~= hex_byte(b[2]));
        assert(x.subrange(6, 8) =~= hex_byte(a[3]) && y.subrange(6, 8) =~= hex_byte(b[3]));
        law_hex_bytes_differ(a[0], b[0]);
        law_hex_bytes_differ(a[1], b[1]);
        law_hex_bytes_differ(a[2], b[2]);
        law_hex_bytes_differ(a[3], b[3]);
        assert(a.take(4) =~= b.take(4));
    }
    if a.take(4) == b.take(4) {
        assert forall|i: int| 0 <= i < 4 implies a[i] == b[i] by {
            assert(a.take(4)[i] == b.take(4)[i]);
        }
    }
}

} // verus!
