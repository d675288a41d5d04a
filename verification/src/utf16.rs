//! UTF-16 code units of text.

use vstd::prelude::*;

verus! {

/// The code units that encode one character: the code point itself inside
/// the basic plane, a high and a low surrogate outside it.
pub open spec fn char_units(c: char) -> Seq<u16> {
    let u = c as u32;
    if u < 0x1_0000 {
        seq![u as u16]
    } else {
        seq![
            (0xD800 + (u - 0x1_0000) / 0x400) as u16,
            (0xDC00 + (u - 0x1_0000) % 0x400) as u16,
        ]
    }
}

/// The UTF-16 encoding of a text: the code units of its characters, in order.
pub open spec fn utf16(s: Seq<char>) -> Seq<u16>
    decreases s.len(),
{
    if s.len() == 0 {
        Seq::empty()
    } else {
        utf16(s.drop_last()) + char_units(s.last())
    }
}

/// Encoding one more character appends its code units.
pub proof fn lemma_utf16_push(s: Seq<char>, c: char)
    ensures
        utf16(s.push(c)) == utf16(s) + char_units(c),
{
    assert(s.push(c).drop_last() =~= s);
}

/// The text of one space, which seeding hashes before the seed.
pub open spec fn space() -> Seq<char> {
    seq![' ']
}

/// A space is the single code unit 32.
pub proof fn lemma_utf16_space()
    ensures
        utf16(space()) == seq![32u16],
{
    assert(space().drop_last() =~= Seq::<char>::empty());
    assert(utf16(space().drop_last()) =~= Seq::<u16>::empty());
    assert(char_units(' ') =~= seq![32u16]);
    assert(utf16(space()) =~= seq![32u16]);
}

} // verus!
