//! Text as Windows takes it.
use crate::text;
use vstd::prelude::*;

verus! {

/// A character in UTF-16: one unit, or a pair of surrogates.
pub open spec fn units(c: char) -> Seq<u16> {
    if (c as int) < 0x1_0000 {
        seq![(c as int) as u16]
    } else {
        seq![
            (0xd800 + (c as int - 0x1_0000) / 0x400) as u16,
            (0xdc00 + (c as int - 0x1_0000) % 0x400) as u16,
        ]
    }
}

/// Text in UTF-16.
pub open spec fn utf16(s: Seq<char>) -> Seq<u16>
    decreases s.len(),
{
    if s.len() == 0 {
        Seq::empty()
    } else {
        utf16(s.drop_last()) + units(s.last())
    }
}

fn push_units(out: &mut Vec<u16>, ch: char)
    ensures
        final(out)@ == old(out)@ + units(ch),
{
    let c: u32 = ch as u32;
    if c < 0x1_0000 {
        out.push(c as u16);
    } else {
        let d: u32 = c - 0x1_0000;
        out.push((0xd800 + d / 0x400) as u16);
        out.push((0xdc00 + d % 0x400) as u16);
    }
    assert(out@ =~= old(out)@ + units(ch));
}

/// Text in UTF-16 with a zero at its end.
pub fn wide(s: &str) -> (r: Vec<u16>)
    ensures
        r@ == utf16(s@).push(0),
{
    let cs: Vec<char> = text::chars_of(s);
    let mut out: Vec<u16> = Vec::new();
    let mut i: usize = 0;
    assert(cs@.take(0) =~= Seq::empty());
    while i < cs.len()
        invariant
            i <= cs.len(),
            cs@ == s@,
            out@ == utf16(cs@.take(i as int)),
        decreases cs.len() - i,
    {
        proof {
            assert(cs@.take(i + 1).drop_last() =~= cs@.take(i as int));
            assert(cs@.take(i + 1).last() == cs@[i as int]);
        }
        push_units(&mut out, cs[i]);
        i = i + 1;
    }
    assert(cs@.take(cs@.len() as int) =~= cs@);
    out.push(0);
    out
}

/// A character is found again in its units: one unit that is no surrogate and is its number, or an
/// upper and a lower surrogate that hold ten bits of it each.
pub proof fn law_units_hold_the_character(c: char)
    ensures
        ({
            let u = units(c);
            &&& u.len() == 1 || u.len() == 2
            &&& u.len() == 1 ==> u[0] == c as int && !(0xd800 <= u[0] < 0xe000)
            &&& u.len() == 2 ==> 0xd800 <= u[0] < 0xdc00 && 0xdc00 <= u[1] < 0xe000 && c as int
                == 0x1_0000 + (u[0] - 0xd800) * 0x400 + (u[1] - 0xdc00)
        }),
{
}

/// Text is written character by character, in order.
pub proof fn law_text_is_written_in_order(a: Seq<char>, b: Seq<char>, c: char)
    ensures
        utf16(a + b) == utf16(a) + utf16(b),
        utf16(seq![c]) == units(c),
        utf16(Seq::empty()) == Seq::<u16>::empty(),
    decreases b.len(),
{
    assert(seq![c].drop_last() =~= Seq::empty());
    assert(utf16(seq![c].drop_last()) =~= Seq::<u16>::empty());
    assert(utf16(seq![c]) =~= units(c));
    if b.len() == 0 {
        assert(a + b =~= a);
        assert(utf16(a) + utf16(b) =~= utf16(a));
    } else {
        law_text_is_written_in_order(a, b.drop_last(), c);
        assert((a + b).drop_last() =~= a + b.drop_last());
        assert(utf16(a) + utf16(b.drop_last()) + units(b.last()) =~= utf16(a) + (utf16(
            b.drop_last(),
        ) + units(b.last())));
    }
}

} // verus!
