//! Wide (UTF-16) strings as the game's name pool takes them.
use vstd::prelude::*;

verus! {

/// The UTF-16 code units of one character: itself below U+10000, otherwise
/// a high and a low surrogate.
pub open spec fn utf16_units(c: char) -> Seq<u16> {
    let v = c as int;
    if v < 0x10000 {
        seq![v as u16]
    } else {
        seq![(0xD800 + (v - 0x10000) / 0x400) as u16, (0xDC00 + (v - 0x10000) % 0x400) as u16]
    }
}

/// The UTF-16 encoding of a character sequence (what `str::encode_utf16`
/// yields).
pub open spec fn utf16_encode(s: Seq<char>) -> Seq<u16>
    decreases s.len(),
{
    if s.len() == 0 {
        Seq::empty()
    } else {
        utf16_encode(s.drop_last()) + utf16_units(s.last())
    }
}

/// The UTF-16 encoding of `s` followed by a terminating zero unit.
pub open spec fn wide_nul_terminated(s: Seq<char>) -> Seq<u16> {
    utf16_encode(s).push(0)
}

/// Appends the UTF-16 code units of `c` to `out`.
fn push_utf16(out: &mut Vec<u16>, c: char)
    ensures
        final(out)@ == old(out)@ + utf16_units(c),
{
    let v = c as u32;
    if v < 0x10000 {
        out.push(v as u16);
    } else {
        let w = v - 0x10000;
        assert(w < 0x100000);
        out.push((0xD800 + w / 0x400) as u16);
        out.push((0xDC00 + w % 0x400) as u16);
    }
    assert(final(out)@ =~= old(out)@ + utf16_units(c));
}

/// `name` encoded as UTF-16 with a terminating zero unit, the form a wide C
/// string has.
pub fn wide_nul(name: &str) -> (wide: Vec<u16>)
    ensures
        wide@ == wide_nul_terminated(name@),
{
    let n = name.unicode_len();
    let mut out: Vec<u16> = Vec::new();
    let mut i: usize = 0;
    while i < n
        invariant
            n == name@.len(),
            i <= n,
            out@ == utf16_encode(name@.take(i as int)),
        decreases n - i,
    {
        let c = name.get_char(i);
        proof {
            let t = name@.take(i + 1);
            assert(t.drop_last() =~= name@.take(i as int));
        }
        push_utf16(&mut out, c);
        i = i + 1;
    }
    assert(name@.take(n as int) =~= name@);
    out.push(0);
    out
}

/// The units of a character below U+10000 and of one above it.
proof fn lemma_units_of_char(c: char)
    ensures
        (c as int) < 0x10000 ==> utf16_units(c).len() == 1 && utf16_units(c)[0] as int == c as int,
        (c as int) >= 0x10000 ==> utf16_units(c).len() == 2 && utf16_units(c)[0] as int >= 0xD800
            && utf16_units(c)[1] as int >= 0xDC00,
{
    vstd::utf8::char_is_scalar(c);
}

/// A string without characters beyond U+FFFF has one code unit per
/// character, plus the terminator, and each unit is the character's value.
pub proof fn lemma_basic_plane_one_unit_per_char(s: Seq<char>)
    requires
        forall|i: int| 0 <= i < s.len() ==> (#[trigger] s[i] as int) < 0x10000,
    ensures
        utf16_encode(s).len() == s.len(),
        forall|i: int| 0 <= i < s.len() ==> #[trigger] utf16_encode(s)[i] as int == s[i] as int,
        wide_nul_terminated(s).len() == s.len() + 1,
        wide_nul_terminated(s)[s.len() as int] == 0,
    decreases s.len(),
{
    if s.len() > 0 {
        let p = s.drop_last();
        assert forall|i: int| 0 <= i < p.len() implies (#[trigger] p[i] as int) < 0x10000 by {
            assert(p[i] == s[i]);
        }
        lemma_basic_plane_one_unit_per_char(p);
        assert((s.last() as int) < 0x10000);
        assert(utf16_encode(s) == utf16_encode(p) + utf16_units(s.last()));
        lemma_units_of_char(s.last());
        assert forall|i: int| 0 <= i < s.len() implies #[trigger] utf16_encode(s)[i] as int
            == s[i] as int by {
            if i < p.len() {
                assert(utf16_encode(s)[i] == utf16_encode(p)[i]);
                assert(utf16_encode(p)[i] as int == p[i] as int);
                assert(p[i] == s[i]);
            } else {
                let c = s.last();
                assert(utf16_encode(s)[i] == utf16_units(c)[0]);
                assert(s[i] == c);
            }
        }
    }
}

/// The terminating zero is the only zero unit when the string holds no
/// U+0000: no other character encodes to a zero unit.
pub proof fn lemma_single_terminator(s: Seq<char>)
    requires
        forall|i: int| 0 <= i < s.len() ==> (#[trigger] s[i] as int) != 0,
    ensures
        forall|i: int| 0 <= i < utf16_encode(s).len() ==> #[trigger] utf16_encode(s)[i] != 0,
    decreases s.len(),
{
    if s.len() > 0 {
        let p = s.drop_last();
        assert forall|i: int| 0 <= i < p.len() implies (#[trigger] p[i] as int) != 0 by {
            assert(p[i] == s[i]);
        }
        lemma_single_terminator(p);
        let c = s.last();
        assert((c as int) != 0);
        let v = c as int;
        lemma_units_of_char(c);
        assert(utf16_encode(s) == utf16_encode(p) + utf16_units(c));
        assert forall|i: int| 0 <= i < utf16_encode(s).len() implies #[trigger] utf16_encode(s)[i]
            != 0 by {
            if i >= utf16_encode(p).len() {
                let k = i - utf16_encode(p).len();
                assert(utf16_encode(s)[i] == utf16_units(c)[k]);

            } else {
                assert(utf16_encode(s)[i] == utf16_encode(p)[i]);
            }
        }
    }
}

/// True for a UTF-16 high surrogate.
pub open spec fn is_high_surrogate(u: u16) -> bool {
    0xD800 <= u < 0xDC00
}

/// True for a UTF-16 low surrogate.
pub open spec fn is_low_surrogate(u: u16) -> bool {
    0xDC00 <= u < 0xE000
}

/// The code points that UTF-16 `units` stand for, read from the end: a low
/// surrogate preceded by a high surrogate stands for one code point above
/// U+FFFF, any other unit for itself.
pub open spec fn utf16_code_points(units: Seq<u16>) -> Seq<int>
    decreases units.len(),
{
    if units.len() == 0 {
        Seq::empty()
    } else if units.len() >= 2 && is_low_surrogate(units.last()) && is_high_surrogate(
        units[units.len() - 2],
    ) {
        utf16_code_points(units.take(units.len() - 2)).push(
            0x10000 + (units[units.len() - 2] - 0xD800) * 0x400 + (units.last() - 0xDC00),
        )
    } else {
        utf16_code_points(units.drop_last()).push(units.last() as int)
    }
}

/// A character below U+10000 is one unit equal to its value; a character at
/// or above it is a high surrogate followed by a low surrogate that together
/// give back its value.
pub proof fn lemma_units_give_back_char(c: char)
    ensures
        (c as int) < 0x10000 ==> utf16_units(c) == seq![(c as int) as u16] && (utf16_units(c)[0]
            as int) == c as int,
        (c as int) >= 0x10000 ==> {
            let u = utf16_units(c);
            &&& u.len() == 2
            &&& is_high_surrogate(u[0])
            &&& is_low_surrogate(u[1])
            &&& 0x10000 + (u[0] - 0xD800) * 0x400 + (u[1] - 0xDC00) == c as int
        },
{
    vstd::utf8::char_is_scalar(c);
    let v = c as int;
    if v >= 0x10000 {
        let w = v - 0x10000;
        assert(w < 0x100000);
        assert(0x400 * (w / 0x400) + w % 0x400 == w);
    }
}

/// Decoding the UTF-16 encoding of a string gives back its characters'
/// values, so a name handed to the names pool (without its terminator) reads
/// back as the same name.
pub proof fn lemma_utf16_decodes_to_string(s: Seq<char>)
    ensures
        utf16_code_points(utf16_encode(s)) == s.map_values(|c: char| c as int),
    decreases s.len(),
{
    if s.len() > 0 {
        let p = s.drop_last();
        let c = s.last();
        lemma_utf16_decodes_to_string(p);
        lemma_units_give_back_char(c);
        vstd::utf8::char_is_scalar(c);
        let e = utf16_encode(s);
        let ep = utf16_encode(p);
        assert(e == ep + utf16_units(c));
        if (c as int) < 0x10000 {
            assert(e.drop_last() =~= ep);
            assert(!is_low_surrogate(e.last()));
        } else {
            assert(e.take(e.len() - 2) =~= ep);
            assert(e[e.len() - 2] == utf16_units(c)[0]);
            assert(e.last() == utf16_units(c)[1]);
        }
        assert(s.map_values(|c: char| c as int) =~= p.map_values(|c: char| c as int).push(c as int));
    } else {
        assert(s.map_values(|c: char| c as int) =~= Seq::<int>::empty());
    }
}

/// `wide_nul` gives a name's UTF-16 encoding, which decodes back to the
/// name, followed by a single terminating zero.
pub proof fn lemma_wide_nul_reads_back(s: Seq<char>)
    ensures
        wide_nul_terminated(s).last() == 0,
        utf16_code_points(wide_nul_terminated(s).drop_last()) == s.map_values(|c: char| c as int),
{
    lemma_utf16_decodes_to_string(s);
    assert(wide_nul_terminated(s).drop_last() =~= utf16_encode(s));
}

} // verus!

