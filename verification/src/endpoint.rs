//! Endpoint ids: the GUIDs that audio endpoints are known by, and the file each one's configuration
//! lives in.
use crate::text;
use vstd::prelude::*;
use vstd::slice::*;

verus! {

pub open spec fn is_hex(c: char) -> bool {
    '0' <= c <= '9' || 'a' <= c <= 'f' || 'A' <= c <= 'F'
}

/// May `c` stand in an endpoint id?
pub open spec fn is_id_char(c: char) -> bool {
    is_hex(c) || c == '{' || c == '}' || c == '-'
}

/// Is `s` a plausible endpoint GUID?
pub open spec fn is_plausible(s: Seq<char>) -> bool {
    0 < s.len() <= 64 && forall|i: int| 0 <= i < s.len() ==> is_id_char(#[trigger] s[i])
}

/// Is `s` a GUID without braces: groups of hex digits with dashes between them?
pub open spec fn is_guid(s: Seq<char>) -> bool {
    s.len() == 36 && forall|i: int|
        0 <= i < 36 ==> if i == 8 || i == 13 || i == 18 || i == 23 {
            #[trigger] s[i] == '-'
        } else {
            is_hex(s[i])
        }
}

/// An ASCII letter in lower case.
pub open spec fn lower(c: char) -> char {
    if 'A' <= c <= 'Z' {
        (c as int + 32) as char
    } else {
        c
    }
}

/// Text without its enclosing braces, where it has both.
pub open spec fn unbraced(s: Seq<char>) -> Seq<char> {
    if s.len() >= 2 && s[0] == '{' && s.last() == '}' {
        s.subrange(1, s.len() - 1)
    } else {
        s
    }
}

/// The one form of an endpoint id: a lower-case GUID in braces; none where `s` is no GUID.
pub open spec fn normal_id(s: Seq<char>) -> Option<Seq<char>> {
    if is_guid(unbraced(s)) {
        Some(seq!['{'] + unbraced(s).map_values(|c: char| lower(c)) + seq!['}'])
    } else {
        None
    }
}

pub fn hex(c: char) -> (r: bool)
    ensures
        r == is_hex(c),
{
    ('0' <= c && c <= '9') || ('a' <= c && c <= 'f') || ('A' <= c && c <= 'F')
}

/// Is `endpoint_id` a plausible endpoint GUID? Guards the config directory against an id that
/// could walk out of it, since ids come from the audio engine rather than from this program.
pub fn is_valid_endpoint_id(endpoint_id: &str) -> (r: bool)
    ensures
        r == is_plausible(endpoint_id@),
{
    let cs: Vec<char> = text::chars_of(endpoint_id);
    if cs.len() == 0 || cs.len() > 64 {
        return false;
    }
    let mut i: usize = 0;
    while i < cs.len()
        invariant
            cs@ == endpoint_id@,
            i <= cs.len(),
            forall|j: int| 0 <= j < i ==> is_id_char(#[trigger] cs@[j]),
        decreases cs.len() - i,
    {
        let c: char = cs[i];
        if !(hex(c) || c == '{' || c == '}' || c == '-') {
            assert(!is_id_char(cs@[i as int]));
            return false;
        }
        i = i + 1;
    }
    true
}

fn lowered(c: char) -> (r: char)
    requires
        is_hex(c) || c == '-',
    ensures
        r == lower(c),
{
    match c {
        'A' => 'a',
        'B' => 'b',
        'C' => 'c',
        'D' => 'd',
        'E' => 'e',
        'F' => 'f',
        _ => c,
    }
}

/// Bring an endpoint id to its one form, so that a bare GUID and a braced one address one
/// endpoint.
pub fn normalize_endpoint_id(endpoint_id: &str) -> (r: Option<String>)
    ensures
        match r {
            Some(id) => normal_id(endpoint_id@) == Some(id@),
            None => normal_id(endpoint_id@) is None,
        },
{
    let cs: Vec<char> = text::chars_of(endpoint_id);
    let n: usize = cs.len();
    let braced: bool = n >= 2 && cs[0] == '{' && cs[n - 1] == '}';
    let bare: &[char] = if braced {
        slice_subrange(cs.as_slice(), 1, n - 1)
    } else {
        cs.as_slice()
    };
    assert(bare@ =~= unbraced(endpoint_id@));
    if bare.len() != 36 {
        return None;
    }
    let mut id: String = String::new();
    id.push('{');
    let ghost low = bare@.map_values(|c: char| lower(c));
    let mut i: usize = 0;
    assert(id@ =~= seq!['{'] + low.take(0));
    while i < 36
        invariant
            i <= 36,
            bare@.len() == 36,
            bare@ == unbraced(endpoint_id@),
            low == bare@.map_values(|c: char| lower(c)),
            forall|j: int|
                0 <= j < i ==> if j == 8 || j == 13 || j == 18 || j == 23 {
                    #[trigger] bare@[j] == '-'
                } else {
                    is_hex(bare@[j])
                },
            id@ == seq!['{'] + low.take(i as int),
        decreases 36 - i,
    {
        let c: char = bare[i];
        let dash: bool = i == 8 || i == 13 || i == 18 || i == 23;
        if (dash && c != '-') || (!dash && !hex(c)) {
            assert(!is_guid(bare@)) by {
                assert(bare@[i as int] == c);
            }
            return None;
        }
        id.push(lowered(c));
        assert(low.take(i + 1) =~= low.take(i as int).push(lower(c)));
        assert(id@ =~= seq!['{'] + low.take(i + 1));
        i = i + 1;
    }
    id.push('}');
    assert(low.take(36) =~= low);
    assert(id@ =~= seq!['{'] + low + seq!['}']);
    Some(id)
}

/// The name of an endpoint's configuration file.
pub open spec fn file_name(id: Seq<char>) -> Seq<char> {
    id + ".cfg"@
}

/// The name of an endpoint's configuration file.
pub fn config_file_name(endpoint_id: &str) -> (r: String)
    ensures
        r@ == file_name(endpoint_id@),
{
    let mut s: String = String::new();
    s.append(endpoint_id);
    s.append(".cfg");
    assert(s@ =~= file_name(endpoint_id@));
    s
}

/// Where an endpoint's configuration lives, as the components of a path: under the machine-wide
/// program data directory, by endpoint. `program_data` is that directory where the machine says
/// which it is.
pub fn config_path(program_data: Option<String>, endpoint_id: &str) -> (r: Vec<String>)
    ensures
        r.len() == 4,
        r[0]@ == (match program_data {
            Some(d) => d@,
            None => "C:\\ProgramData"@,
        }),
        r[1]@ == "CAGEq"@,
        r[2]@ == "apo"@,
        r[3]@ == file_name(endpoint_id@),
{
    let root: String = match program_data {
        Some(d) => d,
        None => "C:\\ProgramData".to_owned(),
    };
    let mut r: Vec<String> = Vec::new();
    r.push(root);
    r.push("CAGEq".to_owned());
    r.push("apo".to_owned());
    r.push(config_file_name(endpoint_id));
    r
}

/// The name of an endpoint's control section: machine-wide, and one for each endpoint. None for an id
/// that could not name a real endpoint, so that it never becomes part of an object's name.
pub fn section_name(endpoint_id: &str) -> (r: Option<String>)
    ensures
        match r {
            Some(name) => is_plausible(endpoint_id@) && name@ == "Global\\CAGEqApo_"@ + endpoint_id@,
            None => !is_plausible(endpoint_id@),
        },
{
    if !is_valid_endpoint_id(endpoint_id) {
        return None;
    }
    let mut s: String = "Global\\CAGEqApo_".to_owned();
    s.append(endpoint_id);
    Some(s)
}

/// An accepted id cannot walk out of the config directory: it holds no separator, no drive mark and
/// no dot.
pub proof fn law_valid_id_stays_in_its_directory(s: Seq<char>, i: int)
    requires
        is_plausible(s),
        0 <= i < s.len(),
    ensures
        s[i] != '/' && s[i] != '\\' && s[i] != ':' && s[i] != '.',
{
    assert(is_id_char(s[i]));
}

/// Normalising is settled after one step, and its result is an accepted id.
pub proof fn law_normal_id_is_normal(s: Seq<char>)
    requires
        normal_id(s) is Some,
    ensures
        is_plausible(normal_id(s)->0),
        normal_id(normal_id(s)->0) == normal_id(s),
{
    let g = unbraced(s);
    let low = g.map_values(|c: char| lower(c));
    let id = normal_id(s)->0;
    assert(id.len() == 38);
    assert forall|i: int| 0 <= i < id.len() implies is_id_char(#[trigger] id[i]) by {
        if 1 <= i < 37 {
            assert(id[i] == lower(g[i - 1]));
        }
    }
    assert(unbraced(id) =~= low);
    assert(is_guid(low)) by {
        assert forall|i: int| 0 <= i < 36 implies if i == 8 || i == 13 || i == 18 || i == 23 {
            #[trigger] low[i] == '-'
        } else {
            is_hex(low[i])
        } by {
            assert(low[i] == lower(g[i]));
        }
    }
    assert(low.map_values(|c: char| lower(c)) =~= low) by {
        assert forall|i: int| 0 <= i < 36 implies lower(#[trigger] low[i]) == low[i] by {
            assert(low[i] == lower(g[i]));
        }
    }
}

/// A GUID means the same endpoint with and without braces.
pub proof fn law_braces_do_not_matter(g: Seq<char>)
    requires
        is_guid(g),
    ensures
        normal_id(seq!['{'] + g + seq!['}']) == normal_id(g),
{
    let b = seq!['{'] + g + seq!['}'];
    assert(b[0] == '{' && b.last() == '}');
    assert(unbraced(b) =~= g);
    assert(is_hex(g[0]));
    assert(unbraced(g) == g);
}

/// The normal form is the same GUID: in braces, without a capital letter, and letter for letter what
/// it was but for the case.
pub proof fn law_normal_id_is_the_same_guid(s: Seq<char>)
    requires
        normal_id(s) is Some,
    ensures
        ({
            let id = normal_id(s)->0;
            &&& id.len() == 38
            &&& id[0] == '{' && id[37] == '}'
            &&& text::uppered(id.subrange(1, 37)) == text::uppered(unbraced(s))
            &&& forall|i: int| 0 <= i < 38 ==> !('A' <= #[trigger] id[i] <= 'Z')
        }),
{
    let id = normal_id(s)->0;
    let g = unbraced(s);
    assert forall|i: int| 0 <= i < 36 implies #[trigger] text::uppered(id.subrange(1, 37))[i]
        == text::uppered(g)[i] by {
        assert(id.subrange(1, 37)[i] == lower(g[i]));
    }
    assert(text::uppered(id.subrange(1, 37)) =~= text::uppered(g));
    assert forall|i: int| 0 <= i < 38 implies !('A' <= #[trigger] id[i] <= 'Z') by {
        if 1 <= i < 37 {
            assert(id[i] == lower(g[i - 1]));
        }
    }
}

/// Endpoints are told apart: two GUIDs have one normal form exactly where they differ in the case of
/// their letters alone.
pub proof fn law_ids_are_told_apart(g: Seq<char>, h: Seq<char>)
    requires
        is_guid(g),
        is_guid(h),
    ensures
        normal_id(g) is Some,
        normal_id(g) == normal_id(h) <==> text::uppered(g) == text::uppered(h),
{
    assert(is_hex(g[0]) && is_hex(h[0]));
    assert(unbraced(g) == g && unbraced(h) == h);
    let a = normal_id(g)->0;
    let b = normal_id(h)->0;
    if a == b {
        assert(text::uppered(g) =~= text::uppered(h)) by {
            law_normal_id_is_the_same_guid(g);
            law_normal_id_is_the_same_guid(h);
        }
    }
    if text::uppered(g) == text::uppered(h) {
        assert forall|i: int| 0 <= i < 38 implies #[trigger] a[i] == b[i] by {
            if 1 <= i < 37 {
                assert(a[i] == lower(g[i - 1]) && b[i] == lower(h[i - 1]));
                assert(text::uppered(g)[i - 1] == text::upper(g[i - 1]));
                assert(text::uppered(h)[i - 1] == text::upper(h[i - 1]));
            }
        }
        assert(a =~= b);
    }
}

/// Every GUID, with braces or without, is an accepted id; nothing is accepted that is empty or longer
/// than 64 characters.
pub proof fn law_guids_are_accepted(s: Seq<char>)
    ensures
        is_guid(unbraced(s)) ==> is_plausible(s),
        s.len() == 0 || s.len() > 64 ==> !is_plausible(s),
{
    if is_guid(unbraced(s)) {
        let g = unbraced(s);
        assert forall|i: int| 0 <= i < s.len() implies is_id_char(#[trigger] s[i]) by {
            if s.len() >= 2 && s[0] == '{' && s.last() == '}' {
                if 1 <= i < s.len() - 1 {
                    assert(g[i - 1] == s[i]);
                }
            } else {
                assert(g[i] == s[i]);
            }
        }
    }
}

/// Two endpoints never share a file, and the file's name is the id with its ending.
pub proof fn law_each_endpoint_has_its_file(a: Seq<char>, b: Seq<char>)
    ensures
        file_name(a) == file_name(b) ==> a == b,
        file_name(a).len() == a.len() + 4,
        file_name(a).take(a.len() as int) == a,
        file_name(a).skip(a.len() as int) == ".cfg"@,
{
    reveal_strlit(".cfg");
    assert(file_name(a).take(a.len() as int) =~= a);
    assert(file_name(b).take(b.len() as int) =~= b);
    assert(file_name(a).skip(a.len() as int) =~= ".cfg"@);
}

} // verus!
