//! Explicit conversions at the UTF-8 and UTF-16 boundaries.
use vstd::prelude::*;
use crate::chars::{char_from_u32, chars_of, push_char};

verus! {

broadcast use vstd::utf8::group_utf8_lib;

/// UTF-16 code units that do not form valid UTF-16 text.
#[derive(Clone, Copy, Debug, PartialEq, Eq, Structural)]
pub struct FromUtf16Error;

/// The replacement character that lossy decoding puts in place of an
/// unpaired surrogate.
pub open spec fn replacement_char() -> char {
    '\u{FFFD}'
}

pub open spec fn is_surrogate(u: u16) -> bool {
    0xD800 <= u <= 0xDFFF
}

pub open spec fn is_high_surrogate(u: u16) -> bool {
    0xD800 <= u <= 0xDBFF
}

pub open spec fn is_low_surrogate(u: u16) -> bool {
    0xDC00 <= u <= 0xDFFF
}

/// The scalar value that a high and a low surrogate encode together.
pub open spec fn surrogate_pair_value(high: u16, low: u16) -> u32 {
    (0x10000 + (high - 0xD800) * 0x400 + (low - 0xDC00)) as u32
}

/// The UTF-16 code units of one character.
pub open spec fn utf16_units_of(c: char) -> Seq<u16> {
    let v = c as u32;
    if v < 0x10000 {
        seq![v as u16]
    } else {
        seq![(0xD800 + (v - 0x10000) / 0x400) as u16, (0xDC00 + (v - 0x10000) % 0x400) as u16]
    }
}

/// The UTF-16 encoding of a character sequence.
pub open spec fn encode_utf16(chars: Seq<char>) -> Seq<u16>
    decreases chars.len(),
{
    if chars.len() == 0 {
        Seq::empty()
    } else {
        utf16_units_of(chars[0]) + encode_utf16(chars.drop_first())
    }
}

/// The characters that UTF-16 code units encode, or `None` when a surrogate
/// is unpaired.
pub open spec fn decode_utf16(units: Seq<u16>) -> Option<Seq<char>>
    decreases units.len(),
{
    if units.len() == 0 {
        Some(Seq::empty())
    } else if !is_surrogate(units[0]) {
        match decode_utf16(units.drop_first()) {
            Some(rest) => Some(seq![(units[0] as u32) as char] + rest),
            None => None,
        }
    } else if is_high_surrogate(units[0]) && units.len() >= 2 && is_low_surrogate(units[1]) {
        match decode_utf16(units.skip(2)) {
            Some(rest) => Some(seq![surrogate_pair_value(units[0], units[1]) as char] + rest),
            None => None,
        }
    } else {
        None
    }
}

/// The characters that UTF-16 code units encode, with each unpaired
/// surrogate replaced by the replacement character.
pub open spec fn decode_utf16_lossy(units: Seq<u16>) -> Seq<char>
    decreases units.len(),
{
    if units.len() == 0 {
        Seq::empty()
    } else if !is_surrogate(units[0]) {
        seq![(units[0] as u32) as char] + decode_utf16_lossy(units.drop_first())
    } else if is_high_surrogate(units[0]) && units.len() >= 2 && is_low_surrogate(units[1]) {
        seq![surrogate_pair_value(units[0], units[1]) as char] + decode_utf16_lossy(units.skip(2))
    } else {
        seq![replacement_char()] + decode_utf16_lossy(units.drop_first())
    }
}

/// Decodes a scalar that a decoding step produced.
fn scalar_char(value: u32) -> (c: char)
    requires
        value <= 0x10FFFF,
        !(0xD800 <= value <= 0xDFFF),
    ensures
        c == value as char,
{
    match char_from_u32(value) {
        Some(c) => c,
        None => {
            assert(false);
            '\0'
        },
    }
}

proof fn lemma_pair_value_is_scalar(high: u16, low: u16)
    requires
        is_high_surrogate(high),
        is_low_surrogate(low),
    ensures
        0x10000 <= surrogate_pair_value(high, low) <= 0x10FFFF,
{
}

/// Converts UTF-16 code units into a `String`.
pub fn from_utf16(value: &[u16]) -> (r: Result<String, FromUtf16Error>)
    ensures
        match decode_utf16(value@) {
            Some(chars) => r matches Ok(s) && s@ == chars,
            None => r is Err,
        },
{
    let mut out = String::new();
    let mut i: usize = 0;
    let len = value.len();
    proof {
        assert(value@.skip(0) =~= value@);
        match decode_utf16(value@) {
            Some(all) => { assert(out@ + all =~= all); },
            None => {},
        }
    }
    while i < len
        invariant
            len == value@.len(),
            i <= len,
            decode_utf16(value@) == match decode_utf16(value@.skip(i as int)) {
                Some(rest) => Some(out@ + rest),
                None => None::<Seq<char>>,
            },
        decreases len - i,
    {
        let ghost rest_units = value@.skip(i as int);
        let u = value[i];
        if u < 0xD800 || u > 0xDFFF {
            let c = scalar_char(u as u32);
            let ghost before = out@;
            push_char(&mut out, c);
            proof {
                assert(rest_units.drop_first() =~= value@.skip(i as int + 1));
                match decode_utf16(value@.skip(i as int + 1)) {
                    Some(rest) => {
                        assert(before + (seq![c] + rest) =~= out@ + rest);
                    },
                    None => {},
                }
            }
            i = i + 1;
        } else if u <= 0xDBFF && i + 1 < len && 0xDC00 <= value[i + 1] && value[i + 1] <= 0xDFFF {
            let low = value[i + 1];
            proof { lemma_pair_value_is_scalar(u, low); }
            let scalar: u32 = 0x10000 + ((u - 0xD800) as u32) * 0x400 + ((low - 0xDC00) as u32);
            let c = scalar_char(scalar);
            let ghost before = out@;
            push_char(&mut out, c);
            proof {
                assert(rest_units.skip(2) =~= value@.skip(i as int + 2));
                match decode_utf16(value@.skip(i as int + 2)) {
                    Some(rest) => {
                        assert(before + (seq![c] + rest) =~= out@ + rest);
                    },
                    None => {},
                }
            }
            i = i + 2;
        } else {
            return Err(FromUtf16Error);
        }
    }
    proof {
        assert(value@.skip(i as int) =~= Seq::<u16>::empty());
        assert(out@ + Seq::<char>::empty() =~= out@);
    }
    Ok(out)
}

/// Converts UTF-16 code units into a `String`, replacing each unpaired
/// surrogate with the replacement character.
pub fn from_utf16_lossy(value: &[u16]) -> (s: String)
    ensures
        s@ == decode_utf16_lossy(value@),
{
    let mut out = String::new();
    let mut i: usize = 0;
    let len = value.len();
    assert(value@.skip(0) =~= value@);
    assert(out@ + decode_utf16_lossy(value@) =~= decode_utf16_lossy(value@));
    while i < len
        invariant
            len == value@.len(),
            i <= len,
            decode_utf16_lossy(value@) == out@ + decode_utf16_lossy(value@.skip(i as int)),
        decreases len - i,
    {
        let ghost rest_units = value@.skip(i as int);
        let ghost before = out@;
        let u = value[i];
        if u < 0xD800 || u > 0xDFFF {
            let c = scalar_char(u as u32);
            push_char(&mut out, c);
            assert(rest_units.drop_first() =~= value@.skip(i as int + 1));
            assert(before + (seq![c] + decode_utf16_lossy(value@.skip(i as int + 1))) =~= out@ + decode_utf16_lossy(value@.skip(i as int + 1)));
            i = i + 1;
        } else if u <= 0xDBFF && i + 1 < len && 0xDC00 <= value[i + 1] && value[i + 1] <= 0xDFFF {
            let low = value[i + 1];
            proof { lemma_pair_value_is_scalar(u, low); }
            let scalar: u32 = 0x10000 + ((u - 0xD800) as u32) * 0x400 + ((low - 0xDC00) as u32);
            let c = scalar_char(scalar);
            push_char(&mut out, c);
            assert(rest_units.skip(2) =~= value@.skip(i as int + 2));
            assert(before + (seq![c] + decode_utf16_lossy(value@.skip(i as int + 2))) =~= out@ + decode_utf16_lossy(value@.skip(i as int + 2)));
            i = i + 2;
        } else {
            push_char(&mut out, '\u{FFFD}');
            assert(rest_units.drop_first() =~= value@.skip(i as int + 1));
            assert(before + (seq![replacement_char()] + decode_utf16_lossy(value@.skip(i as int + 1))) =~= out@ + decode_utf16_lossy(value@.skip(i as int + 1)));
            i = i + 1;
        }
    }
    assert(value@.skip(i as int) =~= Seq::<u16>::empty());
    assert(out@ + Seq::<char>::empty() =~= out@);
    out
}

proof fn lemma_encode_utf16_append(a: Seq<char>, b: Seq<char>)
    ensures
        encode_utf16(a + b) == encode_utf16(a) + encode_utf16(b),
    decreases a.len(),
{
    if a.len() == 0 {
        assert(a + b =~= b);
    } else {
        assert((a + b).drop_first() =~= a.drop_first() + b);
        lemma_encode_utf16_append(a.drop_first(), b);
    }
}

/// Appends the UTF-16 code units of `c` to `units`.
fn push_utf16_units(units: &mut Vec<u16>, c: char)
    ensures
        final(units)@ == old(units)@ + utf16_units_of(c),
{
    let v = c as u32;
    if v < 0x10000 {
        units.push(v as u16);
        assert(final(units)@ =~= old(units)@ + utf16_units_of(c));
    } else {
        proof { vstd::utf8::char_is_scalar(c); }
        let w = v - 0x10000;
        units.push((0xD800 + w / 0x400) as u16);
        units.push((0xDC00 + w % 0x400) as u16);
        assert(final(units)@ =~= old(units)@ + utf16_units_of(c));
    }
}

/// Converts a string into UTF-16 code units.
pub fn to_utf16(value: &str) -> (units: Vec<u16>)
    ensures
        units@ == encode_utf16(value@),
{
    let chars = chars_of(value);
    let mut units: Vec<u16> = Vec::new();
    let mut i: usize = 0;
    while i < chars.len()
        invariant
            i <= chars@.len(),
            chars@ == value@,
            units@ == encode_utf16(chars@.take(i as int)),
        decreases chars@.len() - i,
    {
        push_utf16_units(&mut units, chars[i]);
        proof {
            let c = chars@[i as int];
            assert(chars@.take(i as int + 1) =~= chars@.take(i as int) + seq![c]);
            lemma_encode_utf16_append(chars@.take(i as int), seq![c]);
            assert(seq![c].drop_first() =~= Seq::<char>::empty());
            assert(encode_utf16(Seq::<char>::empty()) =~= Seq::<u16>::empty());
            assert(encode_utf16(seq![c]) =~= utf16_units_of(c));
        }
        i = i + 1;
    }
    assert(chars@.take(i as int) =~= chars@);
    units
}

proof fn lemma_decode_units_of(c: char, rest: Seq<u16>)
    ensures
        decode_utf16(utf16_units_of(c) + rest) == match decode_utf16(rest) {
            Some(tail) => Some(seq![c] + tail),
            None => None::<Seq<char>>,
        },
        decode_utf16_lossy(utf16_units_of(c) + rest) == seq![c] + decode_utf16_lossy(rest),
{
    vstd::utf8::char_is_scalar(c);
    let v = c as u32;
    let all = utf16_units_of(c) + rest;
    if v < 0x10000 {
        assert(all.drop_first() =~= rest);
        vstd::utf8::char_u32_cast(c, ((v as u16) as u32));
    } else {
        let w = v - 0x10000;
        let high = (0xD800 + w / 0x400) as u16;
        let low = (0xDC00 + w % 0x400) as u16;
        assert(all[0] == high);
        assert(all[1] == low);
        assert(all.skip(2) =~= rest);
        assert(surrogate_pair_value(high, low) == v);
        vstd::utf8::char_u32_cast(c, surrogate_pair_value(high, low));
    }
}

/// Encoding to UTF-16 and decoding gives back the original text, strictly
/// and lossily alike.
pub proof fn lemma_utf16_round_trip(chars: Seq<char>)
    ensures
        decode_utf16(encode_utf16(chars)) == Some(chars),
        decode_utf16_lossy(encode_utf16(chars)) == chars,
    decreases chars.len(),
{
    if chars.len() == 0 {
        assert(encode_utf16(chars) =~= Seq::<u16>::empty());
        assert(chars =~= Seq::<char>::empty());
    } else {
        lemma_utf16_round_trip(chars.drop_first());
        lemma_decode_units_of(chars[0], encode_utf16(chars.drop_first()));
        assert(seq![chars[0]] + chars.drop_first() =~= chars);
    }
}

/// Strict and lossy decoding agree on valid UTF-16.
pub proof fn lemma_lossy_agrees_on_valid(units: Seq<u16>)
    requires
        decode_utf16(units) is Some,
    ensures
        decode_utf16_lossy(units) == decode_utf16(units)->Some_0,
    decreases units.len(),
{
    if units.len() > 0 {
        if !is_surrogate(units[0]) {
            lemma_lossy_agrees_on_valid(units.drop_first());
        } else {
            lemma_lossy_agrees_on_valid(units.skip(2));
        }
    }
}

} // verus!
