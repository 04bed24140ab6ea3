//! Application options and simple `name = value` text ingestion.
use vstd::prelude::*;
use vstd::arithmetic::power2::{pow2, lemma_pow2_pos, lemma2_to64, lemma2_to64_rest, lemma_pow2_strictly_increases};
use vstd::bits::{lemma_u64_shr_is_div, lemma_u64_shl_is_mul};
use crate::chars::{chars_of, decimal_text, digit_char, push_char, push_decimal};
use crate::text::ascii_lower_char;
use crate::strings::{drop_all_empty, lemma_next_delimiter, lemma_next_delimiter_at, lemma_parts_have_no_delimiters, lemma_split_keeping_all, next_delimiter, parts_from, split_at_delimiters, split_elements, trim_end_chars, trim_matches, trim_start_chars, SplitOptions};
use vstd::string::StrSliceExecFns;

verus! {

/// Where a specified option value came from.
#[derive(Clone, Debug, PartialEq, Eq)]
pub enum OptionSource {
    ExplicitViaCode,
    CommandLine,
    BinaryRelatedConfigFile(String),
    SystemConfigRepository,
}

/// An untyped option value. A floating-point value is held as its IEEE-754
/// binary64 bit pattern.
#[derive(Clone, Debug, PartialEq)]
pub enum OptionValue {
    String(String),
    I64(i64),
    U64(u64),
    F64(u64),
    Bool(bool),
    Bytes(Vec<u8>),
    Strings(Vec<String>),
}

/// An option value that cannot be converted to the requested type.
#[derive(Clone, Copy, Debug, PartialEq, Eq, Structural)]
pub struct ValueConversionError;

/* Decimal integers */

pub open spec fn is_decimal_digit(c: char) -> bool {
    '0' <= c <= '9'
}

pub open spec fn all_decimal_digits(s: Seq<char>) -> bool {
    forall|i: int| 0 <= i < s.len() ==> is_decimal_digit(#[trigger] s[i])
}

/// The value of a sequence of decimal digits.
pub open spec fn decimal_value(s: Seq<char>) -> nat
    decreases s.len(),
{
    if s.len() == 0 {
        0
    } else {
        decimal_value(s.drop_last()) * 10 + ((s.last() as u32) - ('0' as u32)) as nat
    }
}

/// The integer that decimal text denotes: an optional `+` (or, when
/// `signed`, `-`) followed by at least one decimal digit.
pub open spec fn parsed_integer(s: Seq<char>, signed: bool) -> Option<int> {
    if s.len() == 0 {
        None
    } else if (s[0] == '+' || s[0] == '-') && s.len() == 1 {
        None
    } else {
        let negative = signed && s[0] == '-';
        let digits = if s[0] == '+' || negative { s.skip(1) } else { s };
        if all_decimal_digits(digits) {
            Some(if negative { -(decimal_value(digits) as int) } else { decimal_value(digits) as int })
        } else {
            None
        }
    }
}

proof fn lemma_decimal_value_grows(s: Seq<char>, k: int)
    requires
        0 <= k <= s.len(),
        all_decimal_digits(s),
    ensures
        decimal_value(s.take(k)) <= decimal_value(s),
    decreases s.len() - k,
{
    if k < s.len() {
        assert(s.drop_last().take(k) =~= s.take(k));
        assert forall|i: int| 0 <= i < s.drop_last().len() implies is_decimal_digit(#[trigger] s.drop_last()[i]) by {
            assert(s.drop_last()[i] == s[i]);
        }
        lemma_decimal_value_grows(s.drop_last(), k);
    } else {
        assert(s.take(k) =~= s);
    }
}

/// Reads decimal digits from `chars[start..]`, failing when a character is
/// not a digit or the value exceeds `limit`.
fn read_decimal(chars: &Vec<char>, start: usize, limit: u64) -> (r: Option<u64>)
    requires
        start < chars@.len(),
    ensures
        match r {
            Some(v) => all_decimal_digits(chars@.skip(start as int)) && v == decimal_value(chars@.skip(start as int))
                && v <= limit,
            None => !all_decimal_digits(chars@.skip(start as int)) || decimal_value(chars@.skip(start as int)) > limit,
        },
{
    let ghost digits = chars@.skip(start as int);
    let mut acc: u64 = 0;
    let mut i: usize = start;
    assert(digits.take(0) =~= Seq::<char>::empty());
    while i < chars.len()
        invariant
            start <= i <= chars@.len(),
            digits == chars@.skip(start as int),
            forall|j: int| 0 <= j < i - start ==> is_decimal_digit(#[trigger] digits[j]),
            acc == decimal_value(digits.take(i - start)),
            acc <= limit,
        decreases chars@.len() - i,
    {
        let c = chars[i];
        if c < '0' || c > '9' {
            assert(!is_decimal_digit(digits[i - start]));
            return None;
        }
        let d = (c as u32 - '0' as u32) as u64;
        let ghost k = i - start;
        assert(digits.take(k + 1).drop_last() =~= digits.take(k));
        assert(digits.take(k + 1).last() == c);
        if d > limit || acc > (limit - d) / 10 {
            proof {
                assert(decimal_value(digits.take(k + 1)) > limit);
                if all_decimal_digits(digits) {
                    lemma_decimal_value_grows(digits, k + 1);
                }
            }
            return None;
        }
        acc = acc * 10 + d;
        i = i + 1;
    }
    assert(digits.take(i - start) =~= digits);
    Some(acc)
}

/// Parses decimal text as an `i64`, as `str::parse::<i64>` does.
pub fn parse_i64(text: &str) -> (r: Option<i64>)
    ensures
        r == match parsed_integer(text@, true) {
            Some(v) => if i64::MIN <= v <= i64::MAX { Some(v as i64) } else { None::<i64> },
            None => None::<i64>,
        },
{
    let chars = chars_of(text);
    if chars.len() == 0 {
        return None;
    }
    if (chars[0] == '+' || chars[0] == '-') && chars.len() == 1 {
        return None;
    }
    let negative = chars[0] == '-';
    let start: usize = if chars[0] == '+' || negative { 1 } else { 0 };
    assert(chars@.skip(0) =~= chars@);
    let limit: u64 = if negative { 0x8000_0000_0000_0000 } else { 0x7FFF_FFFF_FFFF_FFFF };
    match read_decimal(&chars, start, limit) {
        Some(v) => {
            if negative {
                if v == 0x8000_0000_0000_0000 {
                    Some(i64::MIN)
                } else {
                    Some(-(v as i64))
                }
            } else {
                Some(v as i64)
            }
        },
        None => None,
    }
}

/// Parses decimal text as a `u64`, as `str::parse::<u64>` does.
pub fn parse_u64(text: &str) -> (r: Option<u64>)
    ensures
        r == match parsed_integer(text@, false) {
            Some(v) => if 0 <= v <= u64::MAX { Some(v as u64) } else { None::<u64> },
            None => None::<u64>,
        },
{
    let chars = chars_of(text);
    if chars.len() == 0 {
        return None;
    }
    if (chars[0] == '+' || chars[0] == '-') && chars.len() == 1 {
        return None;
    }
    let start: usize = if chars[0] == '+' { 1 } else { 0 };
    assert(chars@.skip(0) =~= chars@);
    read_decimal(&chars, start, u64::MAX)
}

/* IEEE-754 binary64 values held as bit patterns */

pub open spec fn f64_exponent_field(bits: u64) -> u64 {
    (bits >> 52) & 0x7FF
}

pub open spec fn f64_fraction_field(bits: u64) -> u64 {
    bits & 0xF_FFFF_FFFF_FFFF
}

pub open spec fn f64_sign_set(bits: u64) -> bool {
    bits >> 63 == 1
}

/// Neither an infinity nor a NaN.
pub open spec fn f64_is_finite(bits: u64) -> bool {
    f64_exponent_field(bits) != 0x7FF
}

/// Positive or negative zero.
pub open spec fn f64_is_zero(bits: u64) -> bool {
    f64_exponent_field(bits) == 0 && f64_fraction_field(bits) == 0
}

/// The integer significand `m` of a finite value `±m * 2^e`.
pub open spec fn f64_significand(bits: u64) -> nat {
    if f64_exponent_field(bits) == 0 {
        f64_fraction_field(bits) as nat
    } else {
        f64_fraction_field(bits) as nat + pow2(52)
    }
}

/// The binary exponent `e` of a finite value `±m * 2^e`.
pub open spec fn f64_scale(bits: u64) -> int {
    if f64_exponent_field(bits) == 0 {
        -1074
    } else {
        f64_exponent_field(bits) - 1075
    }
}

/// Whether the magnitude of a finite value is at most `bound`.
pub open spec fn f64_magnitude_at_most(bits: u64, bound: nat) -> bool {
    if f64_scale(bits) >= 0 {
        f64_significand(bits) * pow2(f64_scale(bits) as nat) <= bound
    } else {
        f64_significand(bits) <= bound * pow2((-f64_scale(bits)) as nat)
    }
}

/// The magnitude of a finite value, rounded toward zero to an integer.
pub open spec fn f64_truncated_magnitude(bits: u64) -> nat {
    if f64_scale(bits) >= 0 {
        f64_significand(bits) * pow2(f64_scale(bits) as nat)
    } else {
        f64_significand(bits) / pow2((-f64_scale(bits)) as nat)
    }
}

proof fn lemma_mul_ge_one(a: nat, b: nat)
    by (nonlinear_arith)
    requires
        b >= 1,
    ensures
        a * b >= a,
{
}

proof fn lemma_mul_le(a: nat, b: nat, c: nat, d: nat)
    by (nonlinear_arith)
    requires
        a <= c,
        b <= d,
    ensures
        a * b <= c * d,
{
}

/// Splits a binary64 bit pattern into its sign and its truncated magnitude,
/// or `None` when it is not finite or its magnitude exceeds 2^64.
fn f64_truncate(bits: u64) -> (r: Option<(bool, u128)>)
    ensures
        match r {
            None => !f64_is_finite(bits) || !f64_magnitude_at_most(bits, pow2(64)),
            Some((negative, magnitude)) => {
                &&& f64_is_finite(bits)
                &&& f64_magnitude_at_most(bits, pow2(64))
                &&& negative == f64_sign_set(bits)
                &&& magnitude == f64_truncated_magnitude(bits)
                &&& magnitude <= pow2(64)
                &&& (f64_magnitude_at_most(bits, pow2(63)) <==> magnitude <= pow2(63))
            },
        },
{
    proof {
        lemma2_to64();
        lemma2_to64_rest();
    }
    let exponent = (bits >> 52) & 0x7FF;
    let fraction = bits & 0xF_FFFF_FFFF_FFFF;
    let negative = (bits >> 63) == 1;
    if exponent == 0x7FF {
        return None;
    }
    assert(fraction < 0x10_0000_0000_0000) by (bit_vector)
        requires fraction == bits & 0xF_FFFF_FFFF_FFFF;
    assert(exponent <= 0x7FF) by (bit_vector)
        requires exponent == (bits >> 52) & 0x7FF;
    let significand: u64 = if exponent == 0 { fraction } else { fraction + 0x10_0000_0000_0000 };
    assert(significand == f64_significand(bits));
    if exponent >= 1075 {
        let shift: u64 = exponent - 1075;
        assert(significand >= pow2(52));
        if shift > 12 {
            proof {
                if shift > 13 {
                    lemma_pow2_strictly_increases(13, shift as nat);
                }
                lemma_mul_le(pow2(52), pow2(13), significand as nat, pow2(shift as nat));
                vstd::arithmetic::power2::lemma_pow2_adds(52, 13);
            }
            return None;
        }
        assert(significand as nat * pow2(shift as nat) < 0x20_0000_0000_0000 * 0x1000) by {
            lemma_mul_le(significand as nat, pow2(shift as nat), 0xF_FFFF_FFFF_FFFF + 0x10_0000_0000_0000, 0x1000);
            if shift < 12 {
                lemma_pow2_strictly_increases(shift as nat, 12);
            }
        }
        proof {
            vstd::bits::lemma_u64_pow2_no_overflow(shift as nat);
            lemma_u64_shl_is_mul(1, shift);
        }
        let magnitude: u128 = (significand as u128) * ((1u64 << shift) as u128);
        if magnitude > 0x1_0000_0000_0000_0000 {
            return None;
        }
        Some((negative, magnitude))
    } else {
        let shift: u64 = if exponent == 0 { 1074 } else { 1075 - exponent };
        proof {
            lemma_pow2_pos(shift as nat);
            lemma_mul_ge_one(pow2(64), pow2(shift as nat));
            lemma_mul_ge_one(pow2(63), pow2(shift as nat));
        }
        let magnitude: u64 = if shift >= 64 {
            proof {
                if shift > 64 {
                    lemma_pow2_strictly_increases(64, shift as nat);
                }
                vstd::arithmetic::div_mod::lemma_basic_div(significand as int, pow2(shift as nat) as int);
            }
            0
        } else {
            proof {
                lemma_u64_shr_is_div(significand, shift);
            }
            significand >> shift
        };
        proof {
            vstd::arithmetic::div_mod::lemma_div_is_ordered(significand as int, 0x20_0000_0000_0000, pow2(shift as nat) as int);
            vstd::arithmetic::div_mod::lemma_div_basics(0x20_0000_0000_0000);
            vstd::arithmetic::div_mod::lemma_div_is_ordered_by_denominator(0x20_0000_0000_0000, 1, pow2(shift as nat) as int);
        }
        Some((negative, magnitude as u128))
    }
}

/// The `i64` that a binary64 value converts to: a finite value within
/// [-2^63, 2^63] is truncated toward zero, 2^63 saturating to `i64::MAX`.
pub open spec fn f64_to_i64(bits: u64) -> Result<i64, ValueConversionError> {
    if f64_is_finite(bits) && f64_magnitude_at_most(bits, pow2(63)) {
        let m = f64_truncated_magnitude(bits);
        Ok(
            if f64_sign_set(bits) {
                (-(m as int)) as i64
            } else if m >= pow2(63) {
                i64::MAX
            } else {
                m as i64
            },
        )
    } else {
        Err(ValueConversionError)
    }
}

/// The `u64` that a binary64 value converts to: a finite value within
/// [0, 2^64] (negative zero included) is truncated toward zero, 2^64
/// saturating to `u64::MAX`.
pub open spec fn f64_to_u64(bits: u64) -> Result<u64, ValueConversionError> {
    if f64_is_finite(bits) && (!f64_sign_set(bits) || f64_is_zero(bits)) && f64_magnitude_at_most(bits, pow2(64)) {
        let m = f64_truncated_magnitude(bits);
        Ok(
            if m >= pow2(64) {
                u64::MAX
            } else {
                m as u64
            },
        )
    } else {
        Err(ValueConversionError)
    }
}

/// The `i64` that text parses to.
pub open spec fn parsed_i64(text: Seq<char>) -> Option<i64> {
    match parsed_integer(text, true) {
        Some(v) => if i64::MIN <= v <= i64::MAX { Some(v as i64) } else { None },
        None => None,
    }
}

/// The `u64` that text parses to.
pub open spec fn parsed_u64(text: Seq<char>) -> Option<u64> {
    match parsed_integer(text, false) {
        Some(v) => if 0 <= v <= u64::MAX { Some(v as u64) } else { None },
        None => None,
    }
}

/// Text equal to `word` once ASCII letters are lowercased.
pub open spec fn is_word_ignoring_case(text: Seq<char>, word: Seq<char>) -> bool {
    text.map_values(|c: char| ascii_lower_char(c)) == word
}

/// The boolean that text denotes: `true` or `false` in any ASCII case, or an
/// integer, which is true when it is not zero.
pub open spec fn text_to_bool(text: Seq<char>) -> Result<bool, ValueConversionError> {
    if is_word_ignoring_case(text, seq!['t', 'r', 'u', 'e']) {
        Ok(true)
    } else if is_word_ignoring_case(text, seq!['f', 'a', 'l', 's', 'e']) {
        Ok(false)
    } else {
        match parsed_i64(text) {
            Some(v) => Ok(v != 0),
            None => Err(ValueConversionError),
        }
    }
}

fn eq_word_ignoring_case(text: &str, word: &[char]) -> (r: bool)
    ensures
        r == is_word_ignoring_case(text@, word@),
{
    let chars = chars_of(text);
    if chars.len() != word.len() {
        assert(text@.map_values(|c: char| ascii_lower_char(c)).len() == text@.len());
        return false;
    }
    let mut i: usize = 0;
    while i < chars.len()
        invariant
            chars@ == text@,
            chars@.len() == word@.len(),
            i <= chars@.len(),
            forall|j: int| 0 <= j < i ==> ascii_lower_char(#[trigger] chars@[j]) == word@[j],
        decreases chars@.len() - i,
    {
        let c = chars[i];
        let lowered = if 'A' <= c && c <= 'Z' {
            crate::chars::char_from_u32((c as u32) + 32).unwrap()
        } else {
            c
        };
        if lowered != word[i] {
            assert(text@.map_values(|c: char| ascii_lower_char(c))[i as int] != word@[i as int]);
            return false;
        }
        i = i + 1;
    }
    assert(text@.map_values(|c: char| ascii_lower_char(c)) =~= word@);
    true
}

/// The decimal text of an integer, with a minus sign when it is negative.
pub open spec fn signed_decimal_text(v: int) -> Seq<char> {
    if v < 0 {
        seq!['-'] + decimal_text((-v) as nat)
    } else {
        decimal_text(v as nat)
    }
}

proof fn lemma_decimal_text_digits(n: nat)
    ensures
        decimal_text(n).len() >= 1,
        all_decimal_digits(decimal_text(n)),
        decimal_value(decimal_text(n)) == n,
    decreases n,
{
    let t = decimal_text(n);
    if n < 10 {
        assert(digit_char(n) as u32 == n + 48);
        assert(t.drop_last() =~= Seq::<char>::empty());
        assert(decimal_value(t.drop_last()) == 0);
        assert(t.last() == digit_char(n));
        assert(('0' as u32) == 48);
    } else {
        lemma_decimal_text_digits(n / 10);
        let d = (n % 10) as nat;
        assert(digit_char(d) as u32 == d + 48);
        assert(t.drop_last() =~= decimal_text(n / 10));
        assert(t.last() == digit_char(d));
        assert(('0' as u32) == 48);
        assert((n / 10) * 10 + d == n);
        assert forall|i: int| 0 <= i < t.len() implies is_decimal_digit(#[trigger] t[i]) by {
            if i < t.len() - 1 {
                assert(t[i] == decimal_text(n / 10)[i]);
            }
        }
    }
}

/// Decimal text reads back as the number it was written from: a number's
/// digits, and a signed number's digits after a `-` when it is negative.
pub proof fn lemma_decimal_text_parses_back(v: int, n: nat)
    ensures
        parsed_integer(signed_decimal_text(v), true) == Some(v),
        parsed_integer(decimal_text(n), false) == Some(n as int),
{
    lemma_decimal_text_digits(n);
    assert(is_decimal_digit(decimal_text(n)[0]));
    if v < 0 {
        let m = (-v) as nat;
        lemma_decimal_text_digits(m);
        let t = signed_decimal_text(v);
        assert(t.skip(1) =~= decimal_text(m));
        assert(t[0] == '-');
    } else {
        lemma_decimal_text_digits(v as nat);
        assert(is_decimal_digit(decimal_text(v as nat)[0]));
    }
}

impl OptionValue {
    /// The `i64` that [`OptionValue::as_i64`] gives.
    pub open spec fn i64_value(self) -> Result<i64, ValueConversionError> {
        match self {
            OptionValue::String(s) => match parsed_i64(s@) {
                Some(v) => Ok(v),
                None => Err(ValueConversionError),
            },
            OptionValue::I64(v) => Ok(v),
            OptionValue::U64(v) => if v <= i64::MAX { Ok(v as i64) } else { Err(ValueConversionError) },
            OptionValue::F64(bits) => f64_to_i64(bits),
            OptionValue::Bool(b) => Ok(if b { 1i64 } else { 0i64 }),
            _ => Err(ValueConversionError),
        }
    }

    /// The `u64` that [`OptionValue::as_u64`] gives.
    pub open spec fn u64_value(self) -> Result<u64, ValueConversionError> {
        match self {
            OptionValue::String(s) => match parsed_u64(s@) {
                Some(v) => Ok(v),
                None => Err(ValueConversionError),
            },
            OptionValue::I64(v) => if v >= 0 { Ok(v as u64) } else { Err(ValueConversionError) },
            OptionValue::U64(v) => Ok(v),
            OptionValue::F64(bits) => f64_to_u64(bits),
            OptionValue::Bool(b) => Ok(if b { 1u64 } else { 0u64 }),
            _ => Err(ValueConversionError),
        }
    }

    /// The `bool` that [`OptionValue::as_bool`] gives.
    pub open spec fn bool_value(self) -> Result<bool, ValueConversionError> {
        match self {
            OptionValue::String(s) => text_to_bool(s@),
            OptionValue::I64(v) => Ok(v != 0),
            OptionValue::U64(v) => Ok(v != 0),
            OptionValue::F64(bits) => Ok(!f64_is_zero(bits)),
            OptionValue::Bool(b) => Ok(b),
            _ => Err(ValueConversionError),
        }
    }

    /// A text value holding a copy of `text`.
    pub fn text(text: &str) -> (r: Self)
        ensures
            r matches OptionValue::String(s) && s@ == text@,
    {
        OptionValue::String(text.to_owned())
    }

    /// The text of a value: text as it is, integers in decimal and booleans
    /// as `true` or `false`; `None` for a floating-point value, whose
    /// decimal form is left to float formatting; an error for bytes and
    /// string lists.
    pub fn text_form(&self) -> (r: Result<Option<String>, ValueConversionError>)
        ensures
            match self {
                OptionValue::String(s) => r matches Ok(Some(t)) && t@ == s@,
                OptionValue::I64(v) => r matches Ok(Some(t)) && t@ == signed_decimal_text(*v as int),
                OptionValue::U64(v) => r matches Ok(Some(t)) && t@ == decimal_text(*v as nat),
                OptionValue::Bool(b) => r matches Ok(Some(t)) && t@ == (if *b { seq!['t', 'r', 'u', 'e'] } else { seq!['f', 'a', 'l', 's', 'e'] }),
                OptionValue::F64(_) => r == Ok::<Option<String>, ValueConversionError>(None),
                _ => r == Err::<Option<String>, ValueConversionError>(ValueConversionError),
            },
    {
        match self {
            OptionValue::String(s) => Ok(Some(s.clone())),
            OptionValue::I64(v) => {
                let mut text = String::new();
                let magnitude: u64 = if *v < 0 {
                    push_char(&mut text, '-');
                    if *v == i64::MIN { 0x8000_0000_0000_0000 } else { (-*v) as u64 }
                } else {
                    *v as u64
                };
                push_decimal(&mut text, magnitude);
                Ok(Some(text))
            },
            OptionValue::U64(v) => {
                let mut text = String::new();
                push_decimal(&mut text, *v);
                assert(text@ =~= decimal_text(*v as nat));
                Ok(Some(text))
            },
            OptionValue::Bool(b) => {
                let mut text = String::new();
                if *b {
                    push_char(&mut text, 't');
                    push_char(&mut text, 'r');
                    push_char(&mut text, 'u');
                    push_char(&mut text, 'e');
                } else {
                    push_char(&mut text, 'f');
                    push_char(&mut text, 'a');
                    push_char(&mut text, 'l');
                    push_char(&mut text, 's');
                    push_char(&mut text, 'e');
                }
                assert(text@ =~= (if *b { seq!['t', 'r', 'u', 'e'] } else { seq!['f', 'a', 'l', 's', 'e'] }));
                Ok(Some(text))
            },
            OptionValue::F64(_) => Ok(None),
            OptionValue::Bytes(_) => Err(ValueConversionError),
            OptionValue::Strings(_) => Err(ValueConversionError),
        }
    }

    /// Converts to `i64`: text is parsed, integers must fit, floating-point
    /// values are truncated toward zero, and booleans give 0 or 1.
    pub fn as_i64(&self) -> (r: Result<i64, ValueConversionError>)
        ensures
            r == self.i64_value(),
    {
        match self {
            OptionValue::String(value) => match parse_i64(value.as_str()) {
                Some(v) => Ok(v),
                None => Err(ValueConversionError),
            },
            OptionValue::I64(value) => Ok(*value),
            OptionValue::U64(value) => if *value <= 0x7FFF_FFFF_FFFF_FFFF {
                Ok(*value as i64)
            } else {
                Err(ValueConversionError)
            },
            OptionValue::F64(bits) => {
                proof {
                    lemma2_to64();
                    lemma2_to64_rest();
                }
                match f64_truncate(*bits) {
                    Some((negative, magnitude)) => {
                        if magnitude > 0x8000_0000_0000_0000 {
                            Err(ValueConversionError)
                        } else if negative {
                            if magnitude == 0x8000_0000_0000_0000 {
                                Ok(i64::MIN)
                            } else {
                                Ok(-(magnitude as i64))
                            }
                        } else if magnitude == 0x8000_0000_0000_0000 {
                            Ok(i64::MAX)
                        } else {
                            Ok(magnitude as i64)
                        }
                    },
                    None => {
                        proof {
                            if f64_is_finite(*bits) && f64_magnitude_at_most(*bits, pow2(63)) {
                                lemma_magnitude_bound_weakens(*bits, pow2(63), pow2(64));
                            }
                        }
                        Err(ValueConversionError)
                    },
                }
            },
            OptionValue::Bool(value) => Ok(if *value { 1 } else { 0 }),
            OptionValue::Bytes(_) => Err(ValueConversionError),
            OptionValue::Strings(_) => Err(ValueConversionError),
        }
    }

    /// Converts to `u64`: text is parsed, integers must fit, floating-point
    /// values are truncated toward zero, and booleans give 0 or 1.
    pub fn as_u64(&self) -> (r: Result<u64, ValueConversionError>)
        ensures
            r == self.u64_value(),
    {
        match self {
            OptionValue::String(value) => match parse_u64(value.as_str()) {
                Some(v) => Ok(v),
                None => Err(ValueConversionError),
            },
            OptionValue::I64(value) => if *value >= 0 {
                Ok(*value as u64)
            } else {
                Err(ValueConversionError)
            },
            OptionValue::U64(value) => Ok(*value),
            OptionValue::F64(bits) => {
                proof {
                    lemma2_to64();
                    lemma2_to64_rest();
                }
                let zero = (*bits >> 52) & 0x7FF == 0 && *bits & 0xF_FFFF_FFFF_FFFF == 0;
                match f64_truncate(*bits) {
                    Some((negative, magnitude)) => {
                        if negative && !zero {
                            Err(ValueConversionError)
                        } else if magnitude == 0x1_0000_0000_0000_0000 {
                            Ok(u64::MAX)
                        } else {
                            Ok(magnitude as u64)
                        }
                    },
                    None => Err(ValueConversionError),
                }
            },
            OptionValue::Bool(value) => Ok(if *value { 1 } else { 0 }),
            OptionValue::Bytes(_) => Err(ValueConversionError),
            OptionValue::Strings(_) => Err(ValueConversionError),
        }
    }

    /// Converts to `bool`: text may be `true` or `false` in any ASCII case
    /// or an integer; numbers are true when not zero.
    pub fn as_bool(&self) -> (r: Result<bool, ValueConversionError>)
        ensures
            r == self.bool_value(),
            *self matches OptionValue::I64(v) ==> r == Ok::<bool, ValueConversionError>(v != 0),
            *self matches OptionValue::U64(v) ==> r == Ok::<bool, ValueConversionError>(v != 0),
            *self matches OptionValue::Bool(b) ==> r == Ok::<bool, ValueConversionError>(b),
            *self matches OptionValue::F64(bits) ==> r == Ok::<bool, ValueConversionError>(
                bits != 0 && bits != 0x8000_0000_0000_0000,
            ),
            *self matches OptionValue::Bytes(_) ==> r is Err,
            *self matches OptionValue::Strings(_) ==> r is Err,
            *self matches OptionValue::String(s) ==> {
                if s@.map_values(|c: char| ascii_lower_char(c)) == seq!['t', 'r', 'u', 'e'] {
                    r == Ok::<bool, ValueConversionError>(true)
                } else if s@.map_values(|c: char| ascii_lower_char(c)) == seq!['f', 'a', 'l', 's', 'e'] {
                    r == Ok::<bool, ValueConversionError>(false)
                } else {
                    match parsed_i64(s@) {
                        Some(v) => r == Ok::<bool, ValueConversionError>(v != 0),
                        None => r is Err,
                    }
                }
            },
    {
        match self {
            OptionValue::String(value) => {
                let t: [char; 4] = ['t', 'r', 'u', 'e'];
                let f: [char; 5] = ['f', 'a', 'l', 's', 'e'];
                assert(t@ =~= seq!['t', 'r', 'u', 'e']);
                assert(f@ =~= seq!['f', 'a', 'l', 's', 'e']);
                if eq_word_ignoring_case(value.as_str(), t.as_slice()) {
                    Ok(true)
                } else if eq_word_ignoring_case(value.as_str(), f.as_slice()) {
                    Ok(false)
                } else {
                    match parse_i64(value.as_str()) {
                        Some(v) => Ok(v != 0),
                        None => Err(ValueConversionError),
                    }
                }
            },
            OptionValue::I64(value) => Ok(*value != 0),
            OptionValue::U64(value) => Ok(*value != 0),
            OptionValue::F64(bits) => {
                let b: u64 = *bits;
                let zero = (b >> 52) & 0x7FF == 0 && b & 0xF_FFFF_FFFF_FFFF == 0;
                assert(zero == (b == 0 || b == 0x8000_0000_0000_0000)) by (bit_vector)
                    requires zero == ((b >> 52) & 0x7FF == 0 && b & 0xF_FFFF_FFFF_FFFF == 0);
                Ok(!zero)
            },
            OptionValue::Bool(value) => Ok(*value),
            OptionValue::Bytes(_) => Err(ValueConversionError),
            OptionValue::Strings(_) => Err(ValueConversionError),
        }
    }
}

/// A number converts to `true` exactly when it is not zero, whatever its
/// sign: negative numbers are true too.
pub proof fn lemma_numbers_are_true_unless_zero(v: i64, u: u64)
    ensures
        OptionValue::I64(v).bool_value() == Ok::<bool, ValueConversionError>(v != 0),
        OptionValue::U64(u).bool_value() == Ok::<bool, ValueConversionError>(u != 0),
        v < 0 ==> OptionValue::I64(v).bool_value() == Ok::<bool, ValueConversionError>(true),
{
}

proof fn lemma_magnitude_bound_weakens(bits: u64, a: nat, b: nat)
    requires
        a <= b,
        f64_magnitude_at_most(bits, a),
    ensures
        f64_magnitude_at_most(bits, b),
{
    if f64_scale(bits) < 0 {
        lemma_mul_le(a, pow2((-f64_scale(bits)) as nat), b, pow2((-f64_scale(bits)) as nat));
    }
}

impl From<&str> for OptionValue {
    /// A text value; its contents are stated by [`OptionValue::text`].
    fn from(value: &str) -> (r: Self)
        ensures
            r matches OptionValue::String(s) && s@ == value@,
    {
        OptionValue::text(value)
    }
}

/// A text value owns a copy of the text, which a spec function cannot build
/// from a `&str`; what `from` gives is stated by its own `ensures` instead.
impl vstd::std_specs::convert::FromSpecImpl<&str> for OptionValue {
    open spec fn obeys_from_spec() -> bool {
        false
    }

    open spec fn from_spec(v: &str) -> OptionValue {
        vstd::pervasive::arbitrary()
    }
}

impl From<String> for OptionValue {
    fn from(value: String) -> (r: Self) {
        OptionValue::String(value)
    }
}

impl vstd::std_specs::convert::FromSpecImpl<String> for OptionValue {
    open spec fn obeys_from_spec() -> bool {
        true
    }

    open spec fn from_spec(v: String) -> OptionValue {
        OptionValue::String(v)
    }
}

/* Option names */

/// The elements of a hierarchical option name: the non-empty pieces between
/// `:` and `.` separators, with ASCII letters lowercased.
pub open spec fn name_elements(name: Seq<char>) -> Seq<Seq<char>> {
    split_elements(name, seq![':', '.'], drop_all_empty()).map_values(
        |e: Seq<char>| e.map_values(|c: char| ascii_lower_char(c)),
    )
}

/// Option names match when their elements agree, ignoring ASCII case and
/// treating `:` and `.` alike.
pub open spec fn names_match(left: Seq<char>, right: Seq<char>) -> bool {
    name_elements(left) == name_elements(right)
}

fn lowercase_chars(text: &str) -> (r: Vec<char>)
    ensures
        r@ == text@.map_values(|c: char| ascii_lower_char(c)),
{
    let chars = chars_of(text);
    let mut out: Vec<char> = Vec::new();
    let mut i: usize = 0;
    while i < chars.len()
        invariant
            chars@ == text@,
            i <= chars@.len(),
            out@ == chars@.take(i as int).map_values(|c: char| ascii_lower_char(c)),
        decreases chars@.len() - i,
    {
        let c = chars[i];
        let lowered = if 'A' <= c && c <= 'Z' {
            crate::chars::char_from_u32((c as u32) + 32).unwrap()
        } else {
            c
        };
        out.push(lowered);
        assert(chars@.take(i as int + 1).map_values(|c: char| ascii_lower_char(c))
            =~= chars@.take(i as int).map_values(|c: char| ascii_lower_char(c)).push(ascii_lower_char(c)));
        i = i + 1;
    }
    assert(chars@.take(i as int) =~= chars@);
    out
}

fn char_vecs_equal(a: &Vec<char>, b: &Vec<char>) -> (r: bool)
    ensures
        r == (a@ == b@),
{
    if a.len() != b.len() {
        return false;
    }
    let mut i: usize = 0;
    while i < a.len()
        invariant
            a@.len() == b@.len(),
            i <= a@.len(),
            forall|j: int| 0 <= j < i ==> a@[j] == b@[j],
        decreases a@.len() - i,
    {
        if a[i] != b[i] {
            return false;
        }
        i = i + 1;
    }
    assert(a@ =~= b@);
    true
}

/// Whether two option names match, ignoring ASCII case and treating `:` and
/// `.` as the same separator.
pub fn option_names_match(left: &str, right: &str) -> (r: bool)
    ensures
        r == names_match(left@, right@),
{
    let separators: [char; 2] = [':', '.'];
    assert(separators@ =~= seq![':', '.']);
    let a = split_at_delimiters(left, separators.as_slice(), SplitOptions::default());
    let b = split_at_delimiters(right, separators.as_slice(), SplitOptions::default());
    let ghost ea = name_elements(left@);
    let ghost eb = name_elements(right@);
    if a.len() != b.len() {
        assert(ea.len() != eb.len());
        return false;
    }
    let mut i: usize = 0;
    while i < a.len()
        invariant
            a@.len() == b@.len(),
            i <= a@.len(),
            ea == name_elements(left@),
            eb == name_elements(right@),
            ea == a@.map_values(|e: &str| e@).map_values(|e: Seq<char>| e.map_values(|c: char| ascii_lower_char(c))),
            eb == b@.map_values(|e: &str| e@).map_values(|e: Seq<char>| e.map_values(|c: char| ascii_lower_char(c))),
            forall|j: int| 0 <= j < i ==> ea[j] == eb[j],
        decreases a@.len() - i,
    {
        let x = lowercase_chars(a[i]);
        let y = lowercase_chars(b[i]);
        assert(ea[i as int] == x@);
        assert(eb[i as int] == y@);
        if !char_vecs_equal(&x, &y) {
            assert(ea[i as int] != eb[i as int]);
            return false;
        }
        i = i + 1;
    }
    assert(ea =~= eb);
    true
}

/// Matching option names is an equivalence: reflexive, symmetric and
/// transitive.
pub proof fn lemma_names_match_is_equivalence(a: Seq<char>, b: Seq<char>, c: Seq<char>)
    ensures
        names_match(a, a),
        names_match(a, b) == names_match(b, a),
        names_match(a, b) && names_match(b, c) ==> names_match(a, c),
{
}

/* `name = value` text */

/// The characters that `char::is_whitespace` accepts: the Unicode
/// White_Space property.
pub open spec fn unicode_whitespace() -> Seq<char> {
    seq![
        '\u{9}', '\u{A}', '\u{B}', '\u{C}', '\u{D}', '\u{20}', '\u{85}', '\u{A0}', '\u{1680}',
        '\u{2000}', '\u{2001}', '\u{2002}', '\u{2003}', '\u{2004}', '\u{2005}', '\u{2006}',
        '\u{2007}', '\u{2008}', '\u{2009}', '\u{200A}', '\u{2028}', '\u{2029}', '\u{202F}',
        '\u{205F}', '\u{3000}',
    ]
}

fn whitespace_chars() -> (r: [char; 25])
    ensures
        r@ == unicode_whitespace(),
{
    let r: [char; 25] = [
        '\u{9}', '\u{A}', '\u{B}', '\u{C}', '\u{D}', '\u{20}', '\u{85}', '\u{A0}', '\u{1680}',
        '\u{2000}', '\u{2001}', '\u{2002}', '\u{2003}', '\u{2004}', '\u{2005}', '\u{2006}',
        '\u{2007}', '\u{2008}', '\u{2009}', '\u{200A}', '\u{2028}', '\u{2029}', '\u{202F}',
        '\u{205F}', '\u{3000}',
    ];
    assert(r@ =~= unicode_whitespace());
    r
}

/// The text without leading and trailing whitespace, as `str::trim` gives.
pub open spec fn trimmed(s: Seq<char>) -> Seq<char> {
    trim_end_chars(trim_start_chars(s, unicode_whitespace()), unicode_whitespace())
}

/// The position of the first `c` in `s`, or `s.len()`.
pub open spec fn first_index_of(s: Seq<char>, c: char) -> int {
    next_delimiter(s, seq![c], 0)
}

/// The position of the first `"` at or after `k` that does not follow a
/// backslash, or `q.len()`.
pub open spec fn closing_quote_from(q: Seq<char>, k: int) -> int
    decreases q.len() - k,
{
    if k < 0 || k >= q.len() {
        q.len() as int
    } else if q[k] == '"' && !(k > 0 && q[k - 1] == '\\') {
        k
    } else {
        closing_quote_from(q, k + 1)
    }
}

/// The name and value that one line of a basic options file holds: blank
/// lines, `#` comments and lines without `=` or without a name hold none; a
/// quoted value runs to the first unescaped closing quote, and an unquoted
/// value ends at the first `#`.
pub open spec fn basic_line(line: Seq<char>) -> Option<(Seq<char>, Seq<char>)> {
    let t = trimmed(line);
    if t.len() == 0 || t[0] == '#' {
        None
    } else {
        let eq = first_index_of(t, '=');
        if eq >= t.len() {
            None
        } else {
            let name = trimmed(t.take(eq));
            if name.len() == 0 {
                None
            } else {
                let raw = trimmed(t.skip(eq + 1));
                if raw.len() > 0 && raw[0] == '"' {
                    let q = raw.skip(1);
                    Some((name, q.take(closing_quote_from(q, 0))))
                } else {
                    Some((name, trimmed(raw.take(first_index_of(raw, '#')))))
                }
            }
        }
    }
}

/// A line of a basic options file holds no setting exactly when, once
/// trimmed, it is empty, starts a `#` comment, has no `=`, or has nothing but
/// whitespace before its first `=`.
pub proof fn lemma_basic_line_none_iff(line: Seq<char>)
    ensures
        basic_line(line) is None <==> {
            let t = trimmed(line);
            ||| t.len() == 0
            ||| t[0] == '#'
            ||| !t.contains('=')
            ||| trimmed(t.take(first_index_of(t, '='))).len() == 0
        },
{
    let t = trimmed(line);
    lemma_next_delimiter(t, seq!['='], 0);
    let eq = first_index_of(t, '=');
    if t.contains('=') {
        let k = choose|k: int| 0 <= k < t.len() && t[k] == '=';
        if eq >= t.len() {
            assert(seq!['='].contains(t[k])) by {
                assert(seq!['='][0] == t[k]);
            }
        }
    }
    if eq < t.len() {
        assert(seq!['='].contains(t[eq]));
        let k = choose|k: int| 0 <= k < 1 && seq!['='][k] == t[eq];
        assert(t.contains('='));
    }
}

fn first_index(chars: &Vec<char>, c: char) -> (r: usize)
    ensures
        r == first_index_of(chars@, c),
        r <= chars@.len(),
{
    let mut i: usize = 0;
    while i < chars.len() && chars[i] != c
        invariant
            i <= chars@.len(),
            forall|j: int| 0 <= j < i ==> chars@[j] != c,
        decreases chars@.len() - i,
    {
        i = i + 1;
    }
    proof {
        assert forall|j: int| 0 <= j < i implies !seq![c].contains(chars@[j]) by {
            if seq![c].contains(chars@[j]) {
                let k = choose|k: int| 0 <= k < 1 && seq![c][k] == chars@[j];
            }
        }
        if i < chars@.len() {
            assert(seq![c][0] == chars@[i as int]);
        }
        lemma_next_delimiter_at(chars@, seq![c], 0, i as int);
    }
    i
}

fn trim(text: &str) -> (r: &str)
    ensures
        r@ == trimmed(text@),
{
    let ws = whitespace_chars();
    trim_matches(text, ws.as_slice())
}

/// Parses one `name = value` line of a basic options file; the returned
/// name and value borrow from `line`.
pub fn parse_basic_line(line: &str) -> (r: Option<(&str, &str)>)
    ensures
        match basic_line(line@) {
            Some((name, value)) => r matches Some((n, v)) && n@ == name && v@ == value,
            None => r is None,
        },
{
    let t = trim(line);
    let tc = chars_of(t);
    if tc.len() == 0 || tc[0] == '#' {
        return None;
    }
    let eq = first_index(&tc, '=');
    if eq == tc.len() {
        return None;
    }
    assert(eq < t@.len());
    let name = trim(t.substring_char(0, eq));
    if name.unicode_len() == 0 {
        return None;
    }
    let raw = trim(t.substring_char(eq + 1, tc.len()));
    let rc = chars_of(raw);
    if rc.len() > 0 && rc[0] == '"' {
        let ghost q = rc@.skip(1);
        let mut j: usize = 1;
        while j < rc.len() && !(rc[j] == '"' && !(j > 1 && rc[j - 1] == '\\'))
            invariant
                1 <= j <= rc@.len(),
                q == rc@.skip(1),
                closing_quote_from(q, 0) == closing_quote_from(q, j - 1),
            decreases rc@.len() - j,
        {
            j = j + 1;
        }
        proof {
            assert(closing_quote_from(q, j - 1) == j - 1);
            assert(q.take(j - 1) =~= rc@.subrange(1, j as int));
        }
        return Some((name, raw.substring_char(1, j)));
    }
    let hash = first_index(&rc, '#');
    Some((name, trim(raw.substring_char(0, hash))))
}

/// A line without one trailing carriage return.
pub open spec fn without_carriage_return(line: Seq<char>) -> Seq<char> {
    if line.len() > 0 && line.last() == '\r' {
        line.drop_last()
    } else {
        line
    }
}

/// The lines of a text, as `str::lines` gives them: split at `\n`, with a
/// `\r` before a `\n` removed and no empty line after a final `\n`.
pub open spec fn text_lines(text: Seq<char>) -> Seq<Seq<char>> {
    let pieces = parts_from(text, seq!['\n'], 0);
    let terminated = Seq::new((pieces.len() - 1) as nat, |i: int| without_carriage_return(pieces[i]));
    if pieces.len() == 0 || pieces.last().len() == 0 {
        terminated
    } else {
        terminated.push(pieces.last())
    }
}

/// The text with every `\r\n` pair read as a single `\n`.
pub open spec fn crlf_as_lf(text: Seq<char>) -> Seq<char>
    decreases text.len(),
{
    if text.len() == 0 {
        text
    } else if text.len() >= 2 && text[0] == '\r' && text[1] == '\n' {
        seq!['\n'] + crlf_as_lf(text.skip(2))
    } else {
        seq![text[0]] + crlf_as_lf(text.skip(1))
    }
}

/// Each line followed by a `\n`, all run together.
pub open spec fn newline_terminated(lines: Seq<Seq<char>>) -> Seq<char>
    decreases lines.len(),
{
    if lines.len() == 0 {
        Seq::empty()
    } else {
        lines[0] + seq!['\n'] + newline_terminated(lines.drop_first())
    }
}

proof fn lemma_newline_terminated_push(lines: Seq<Seq<char>>, line: Seq<char>)
    ensures
        newline_terminated(lines.push(line)) == newline_terminated(lines) + line + seq!['\n'],
    decreases lines.len(),
{
    if lines.len() == 0 {
        assert(lines.push(line).drop_first() =~= Seq::<Seq<char>>::empty());
        assert(newline_terminated(lines.push(line).drop_first()) =~= Seq::<char>::empty());
        assert(newline_terminated(lines) =~= Seq::<char>::empty());
        assert(newline_terminated(lines.push(line)) =~= line + seq!['\n']);
        assert(newline_terminated(lines) + line + seq!['\n'] =~= line + seq!['\n']);
    } else {
        assert(lines.push(line).drop_first() =~= lines.drop_first().push(line));
        lemma_newline_terminated_push(lines.drop_first(), line);
        assert(newline_terminated(lines.push(line)) =~= newline_terminated(lines) + line + seq!['\n']);
    }
}

proof fn lemma_crlf_as_lf_plain(p: Seq<char>)
    requires
        !p.contains('\n'),
    ensures
        crlf_as_lf(p) == p,
    decreases p.len(),
{
    if p.len() > 0 {
        if p.len() >= 2 {
            assert(p[1] != '\n') by {
                if p[1] == '\n' {
                    assert(p.contains('\n'));
                }
            }
        }
        assert(!p.skip(1).contains('\n')) by {
            if p.skip(1).contains('\n') {
                let k = choose|k: int| 0 <= k < p.skip(1).len() && p.skip(1)[k] == '\n';
                assert(p[k + 1] == '\n');
            }
        }
        lemma_crlf_as_lf_plain(p.skip(1));
        assert(p =~= seq![p[0]] + p.skip(1));
    }
}

proof fn lemma_crlf_as_lf_line(p: Seq<char>, rest: Seq<char>)
    requires
        !p.contains('\n'),
    ensures
        crlf_as_lf(p + seq!['\n'] + rest) == without_carriage_return(p) + seq!['\n'] + crlf_as_lf(rest),
    decreases p.len(),
{
    let t = p + seq!['\n'] + rest;
    if p.len() == 0 {
        assert(t.skip(1) =~= rest);
        assert(t[0] == '\n');
        assert(without_carriage_return(p) =~= p);
    } else if p.len() == 1 && p[0] == '\r' {
        assert(t[0] == '\r' && t[1] == '\n');
        assert(t.skip(2) =~= rest);
        assert(without_carriage_return(p) =~= Seq::<char>::empty());
    } else {
        if p.len() >= 2 {
            assert(p[1] != '\n') by {
                if p[1] == '\n' {
                    assert(p.contains('\n'));
                }
            }
            assert(t[1] == p[1]);
        }
        assert(!(t.len() >= 2 && t[0] == '\r' && t[1] == '\n'));
        let q = p.skip(1);
        assert(!q.contains('\n')) by {
            if q.contains('\n') {
                let k = choose|k: int| 0 <= k < q.len() && q[k] == '\n';
                assert(p[k + 1] == '\n');
            }
        }
        lemma_crlf_as_lf_line(q, rest);
        assert(t.skip(1) =~= q + seq!['\n'] + rest);
        if p.len() == 1 {
            assert(q =~= Seq::<char>::empty());
            assert(without_carriage_return(p) =~= p);
            assert(without_carriage_return(q) =~= q);
            assert(seq![p[0]] =~= p);
        } else {
            assert(q.last() == p.last());
            if p.last() == '\r' {
                assert(without_carriage_return(p) =~= seq![p[0]] + without_carriage_return(q));
            } else {
                assert(without_carriage_return(p) =~= seq![p[0]] + without_carriage_return(q));
            }
        }
        assert(crlf_as_lf(t) =~= without_carriage_return(p) + seq!['\n'] + crlf_as_lf(rest));
    }
}

/// The lines before the last piece, each without a `\r` before its `\n`.
spec fn terminated_pieces(pieces: Seq<Seq<char>>) -> Seq<Seq<char>> {
    Seq::new((pieces.len() - 1) as nat, |i: int| without_carriage_return(pieces[i]))
}

proof fn lemma_pieces_rejoin(text: Seq<char>, start: int)
    requires
        0 <= start <= text.len(),
    ensures
        parts_from(text, seq!['\n'], start).len() >= 1,
        newline_terminated(terminated_pieces(parts_from(text, seq!['\n'], start))) + parts_from(
            text,
            seq!['\n'],
            start,
        ).last() == crlf_as_lf(text.skip(start)),
        (parts_from(text, seq!['\n'], start).last().len() == 0) <==> (start == text.len() || text.last() == '\n'),
    decreases text.len() - start,
{
    let nl = seq!['\n'];
    crate::strings::lemma_next_delimiter(text, nl, start);
    let end = next_delimiter(text, nl, start);
    let ps = parts_from(text, nl, start);
    let p = text.subrange(start, end);
    assert(!p.contains('\n')) by {
        if p.contains('\n') {
            let k = choose|k: int| 0 <= k < p.len() && p[k] == '\n';
            assert(text[start + k] == '\n');
            assert(nl.contains(text[start + k])) by {
                assert(nl[0] == text[start + k]);
            }
        }
    }
    if end < text.len() {
        lemma_pieces_rejoin(text, end + 1);
        let rest = parts_from(text, nl, end + 1);
        assert(ps == seq![p] + rest);
        assert(nl.contains(text[end]));
        assert(text[end] == '\n') by {
            let k = choose|k: int| 0 <= k < nl.len() && nl[k] == text[end];
        }
        assert(text.skip(start) =~= p + seq!['\n'] + text.skip(end + 1));
        lemma_crlf_as_lf_line(p, text.skip(end + 1));
        assert(terminated_pieces(ps) =~= seq![without_carriage_return(p)] + terminated_pieces(rest));
        assert((seq![without_carriage_return(p)] + terminated_pieces(rest)).drop_first() =~= terminated_pieces(rest));
        assert(ps.last() == rest.last());
        assert(newline_terminated(terminated_pieces(ps)) == without_carriage_return(p) + seq!['\n']
            + newline_terminated(terminated_pieces(rest)));
        assert(newline_terminated(terminated_pieces(ps)) + ps.last() =~= without_carriage_return(p)
            + seq!['\n'] + (newline_terminated(terminated_pieces(rest)) + rest.last()));
        if end + 1 == text.len() {
            assert(text.last() == '\n');
        }
    } else {
        assert(ps == seq![p]);
        assert(p =~= text.skip(start));
        lemma_crlf_as_lf_plain(p);
        assert(terminated_pieces(ps) =~= Seq::<Seq<char>>::empty());
        assert(newline_terminated(terminated_pieces(ps)) + ps.last() =~= p);
        if start < text.len() {
            assert(p.len() > 0);
            assert(!nl.contains(text[text.len() - 1]));
            assert(text.last() != '\n') by {
                if text.last() == '\n' {
                    assert(nl[0] == text[text.len() - 1]);
                }
            }
        }
    }
}

/// Nothing of a text is lost to its lines: each line is free of `\n`, and
/// the lines, each followed by a `\n`, give back the text with every
/// `\r\n` read as `\n`, and with a `\n` added after a last line that had
/// none. In particular a last line without a final newline is kept.
pub proof fn lemma_lines_give_back_the_text(text: Seq<char>)
    ensures
        forall|i: int| 0 <= i < text_lines(text).len() ==> !(#[trigger] text_lines(text)[i]).contains('\n'),
        newline_terminated(text_lines(text)) == if text.len() == 0 || text.last() == '\n' {
            crlf_as_lf(text)
        } else {
            crlf_as_lf(text) + seq!['\n']
        },
{
    let nl = seq!['\n'];
    let ps = parts_from(text, nl, 0);
    lemma_pieces_rejoin(text, 0);
    assert(text.skip(0) =~= text);
    lemma_parts_have_no_delimiters(text, nl, 0);
    let terminated = terminated_pieces(ps);
    assert forall|i: int| 0 <= i < text_lines(text).len() implies !(#[trigger] text_lines(text)[i]).contains('\n') by {
        let line = text_lines(text)[i];
        let piece = ps[i];
        assert(line.len() <= piece.len());
        if line.contains('\n') {
            let k = choose|k: int| 0 <= k < line.len() && line[k] == '\n';
            if i < ps.len() - 1 {
                assert(line == without_carriage_return(piece));
            }
            assert(line[k] == piece[k]);
            assert(nl.contains(piece[k])) by {
                assert(nl[0] == piece[k]);
            }
        }
    }
    if ps.last().len() == 0 {
        assert(text_lines(text) == terminated);
        assert(newline_terminated(terminated) + ps.last() =~= newline_terminated(terminated));
    } else {
        assert(text_lines(text) == terminated.push(ps.last()));
        lemma_newline_terminated_push(terminated, ps.last());
        if text.len() > 0 && text.last() == '\n' {
            assert(ps.len() > 1 || ps.len() == 1);
        }
    }
}

fn strip_carriage_return(line: &str) -> (r: &str)
    ensures
        r@ == without_carriage_return(line@),
{
    let n = line.unicode_len();
    if n > 0 && line.get_char(n - 1) == '\r' {
        line.substring_char(0, n - 1)
    } else {
        line
    }
}

/// Splits text into lines as `str::lines` does.
pub fn lines_of(text: &str) -> (r: Vec<&str>)
    ensures
        r@.map_values(|l: &str| l@) == text_lines(text@),
{
    let mut lines: Vec<&str> = Vec::new();
    if text.unicode_len() == 0 {
        proof {
            crate::strings::lemma_next_delimiter(text@, seq!['\n'], 0);
            assert(text_lines(text@) =~= Seq::<Seq<char>>::empty());
        }
        assert(lines@.map_values(|l: &str| l@) =~= Seq::<Seq<char>>::empty());
        return lines;
    }
    let separators: [char; 1] = ['\n'];
    assert(separators@ =~= seq!['\n']);
    let keep_all = SplitOptions { keep_leading_empty: true, keep_trailing_empty: true, keep_consecutive_empty: true };
    let pieces = split_at_delimiters(text, separators.as_slice(), keep_all);
    let ghost ps = parts_from(text@, seq!['\n'], 0);
    proof {
        lemma_split_keeping_all(text@, seq!['\n']);
        crate::strings::lemma_next_delimiter(text@, seq!['\n'], 0);
    }
    assert(pieces@.map_values(|l: &str| l@) == ps);
    assert(ps.len() >= 1);
    let n = pieces.len();
    assert forall|k: int| 0 <= k < n implies #[trigger] pieces@[k]@ == ps[k] by {
        assert(pieces@.map_values(|l: &str| l@)[k] == ps[k]);
    }
    let mut i: usize = 0;
    while i + 1 < n
        invariant
            n == pieces@.len(),
            n == ps.len(),
            n >= 1,
            forall|k: int| 0 <= k < n ==> #[trigger] pieces@[k]@ == ps[k],
            i + 1 <= n,
            lines@.len() == i,
            forall|k: int| 0 <= k < i ==> #[trigger] lines@[k]@ == without_carriage_return(ps[k]),
        decreases n - i,
    {
        let line = strip_carriage_return(pieces[i]);
        assert(pieces@[i as int]@ == ps[i as int]);
        lines.push(line);
        i = i + 1;
    }
    let last = pieces[n - 1];
    assert(pieces@[n - 1]@ == ps[n - 1]);
    if last.unicode_len() > 0 {
        lines.push(last);
    }
    assert(lines@.map_values(|l: &str| l@) =~= text_lines(text@));
    lines
}

/* Conversion to typed values */

/// A type that an option value can be converted to.
pub trait FromOptionValue: Sized {
    /// The outcome of converting `value`.
    spec fn converted(value: OptionValue) -> Result<Self, ValueConversionError>;

    fn from_option_value(value: &OptionValue) -> (r: Result<Self, ValueConversionError>)
        ensures
            r == Self::converted(*value),
    ;
}

impl FromOptionValue for i64 {
    open spec fn converted(value: OptionValue) -> Result<i64, ValueConversionError> {
        value.i64_value()
    }

    fn from_option_value(value: &OptionValue) -> (r: Result<i64, ValueConversionError>) {
        value.as_i64()
    }
}

impl FromOptionValue for u64 {
    open spec fn converted(value: OptionValue) -> Result<u64, ValueConversionError> {
        value.u64_value()
    }

    fn from_option_value(value: &OptionValue) -> (r: Result<u64, ValueConversionError>) {
        value.as_u64()
    }
}

impl FromOptionValue for bool {
    open spec fn converted(value: OptionValue) -> Result<bool, ValueConversionError> {
        value.bool_value()
    }

    fn from_option_value(value: &OptionValue) -> (r: Result<bool, ValueConversionError>) {
        value.as_bool()
    }
}

/* The option store */

/// How an option is to be treated.
#[derive(Clone, Copy, Debug, PartialEq, Eq, Structural)]
pub struct OptionQualifiers {
    pub sensitive: bool,
    pub return_only_default_value: bool,
    pub application_flags: u32,
}

impl Default for OptionQualifiers {
    fn default() -> (r: Self)
        ensures
            r == (OptionQualifiers { sensitive: false, return_only_default_value: false, application_flags: 0 }),
    {
        OptionQualifiers { sensitive: false, return_only_default_value: false, application_flags: 0 }
    }
}

/// A value together with where it came from and the name it was given there.
#[derive(Clone, Debug, PartialEq)]
pub struct SpecifiedValue {
    pub source: OptionSource,
    pub native_name: String,
    pub value: OptionValue,
}

impl SpecifiedValue {
    pub fn new<V: Into<OptionValue>>(source: OptionSource, native_name: &str, value: V) -> (r: Self)
        ensures
            r.source == source,
            r.native_name@ == native_name@,
            call_ensures(V::into, (value,), r.value),
    {
        SpecifiedValue { source, native_name: native_name.to_owned(), value: value.into() }
    }

    /// Whether this value's name matches `normalized_name`.
    pub fn matches(&self, normalized_name: &str) -> (r: bool)
        ensures
            r == names_match(self.native_name@, normalized_name@),
    {
        option_names_match(self.native_name.as_str(), normalized_name)
    }
}

/// True when no name occurs twice in `names`.
pub open spec fn distinct_names(names: Seq<Seq<char>>) -> bool {
    forall|i: int, j: int| 0 <= i < names.len() && 0 <= j < names.len() && i != j ==> names[i] != names[j]
}

/// True when `name` occurs in `names`.
pub open spec fn holds_name(names: Seq<Seq<char>>, name: Seq<char>) -> bool {
    exists|i: int| 0 <= i < names.len() && names[i] == name
}

/// The position of `name` in `names`, when it is there.
pub open spec fn name_index(names: Seq<Seq<char>>, name: Seq<char>) -> int {
    choose|i: int| 0 <= i < names.len() && names[i] == name
}

/// The value stored under `name`, if any.
pub open spec fn value_named<V>(names: Seq<Seq<char>>, values: Seq<V>, name: Seq<char>) -> Option<V> {
    if holds_name(names, name) {
        Some(values[name_index(names, name)])
    } else {
        None
    }
}

/// The values whose names match `name`, in the order they are stored.
pub open spec fn matching_values(values: Seq<SpecifiedValue>, name: Seq<char>) -> Seq<SpecifiedValue> {
    values.filter(name_matcher(name))
}

/// The test whether a stored value's name matches `name`.
pub open spec fn name_matcher(name: Seq<char>) -> spec_fn(SpecifiedValue) -> bool {
    |v: SpecifiedValue| names_match(v.native_name@, name)
}

/// Values stored under names, each name at most once, in the order in which
/// names were first stored.
#[derive(Clone, Debug)]
struct NameTable<V> {
    entries: Vec<(String, V)>,
}

impl<V> NameTable<V> {
    spec fn names(&self) -> Seq<Seq<char>> {
        Seq::new(self.entries@.len(), |i: int| self.entries@[i].0@)
    }

    spec fn values(&self) -> Seq<V> {
        Seq::new(self.entries@.len(), |i: int| self.entries@[i].1)
    }

    fn new() -> (t: Self)
        ensures
            t.names() == Seq::<Seq<char>>::empty(),
            t.values() == Seq::<V>::empty(),
    {
        let t = NameTable { entries: Vec::new() };
        assert(t.names() =~= Seq::<Seq<char>>::empty());
        assert(t.values() =~= Seq::<V>::empty());
        t
    }

    fn position(&self, name: &str) -> (r: Option<usize>)
        requires
            distinct_names(self.names()),
        ensures
            match r {
                Some(i) => i < self.names().len() && holds_name(self.names(), name@) && name_index(self.names(), name@) == i,
                None => !holds_name(self.names(), name@),
            },
    {
        let key = name.to_owned();
        let mut i: usize = 0;
        while i < self.entries.len()
            invariant
                i <= self.entries@.len(),
                key@ == name@,
                distinct_names(self.names()),
                forall|j: int| 0 <= j < i ==> self.names()[j] != name@,
            decreases self.entries@.len() - i,
        {
            if self.entries[i].0 == key {
                assert(self.names()[i as int] == name@);
                assert(holds_name(self.names(), name@));
                let ghost p = name_index(self.names(), name@);
                assert(p == i);
                return Some(i);
            }
            i = i + 1;
        }
        None
    }

    fn get(&self, name: &str) -> (r: Option<&V>)
        requires
            distinct_names(self.names()),
        ensures
            match r {
                Some(v) => value_named(self.names(), self.values(), name@) == Some(*v),
                None => value_named(self.names(), self.values(), name@) is None,
            },
    {
        match self.position(name) {
            Some(i) => Some(&self.entries[i].1),
            None => None,
        }
    }

    fn insert(&mut self, name: String, value: V) -> (previous: Option<V>)
        requires
            distinct_names(old(self).names()),
        ensures
            distinct_names(final(self).names()),
            previous == value_named(old(self).names(), old(self).values(), name@),
            if holds_name(old(self).names(), name@) {
                &&& final(self).names() == old(self).names()
                &&& final(self).values() == old(self).values().update(name_index(old(self).names(), name@), value)
            } else {
                &&& final(self).names() == old(self).names().push(name@)
                &&& final(self).values() == old(self).values().push(value)
            },
    {
        let ghost names0 = self.names();
        let ghost values0 = self.values();
        match self.position(name.as_str()) {
            Some(i) => {
                let (_, previous) = self.entries.remove(i);
                self.entries.insert(i, (name, value));
                assert(self.names() =~= names0);
                assert(self.values() =~= values0.update(i as int, value));
                Some(previous)
            },
            None => {
                self.entries.push((name, value));
                assert(self.names() =~= names0.push(name@));
                assert(self.values() =~= values0.push(value));
                None
            },
        }
    }

    fn remove(&mut self, name: &str) -> (removed: Option<V>)
        requires
            distinct_names(old(self).names()),
        ensures
            distinct_names(final(self).names()),
            removed == value_named(old(self).names(), old(self).values(), name@),
            if holds_name(old(self).names(), name@) {
                &&& final(self).names() == old(self).names().remove(name_index(old(self).names(), name@))
                &&& final(self).values() == old(self).values().remove(name_index(old(self).names(), name@))
            } else {
                &&& final(self).names() == old(self).names()
                &&& final(self).values() == old(self).values()
            },
    {
        let ghost names0 = self.names();
        let ghost values0 = self.values();
        match self.position(name) {
            Some(i) => {
                let (_, removed) = self.entries.remove(i);
                assert(self.names() =~= names0.remove(i as int));
                assert(self.values() =~= values0.remove(i as int));
                assert forall|a: int, b: int|
                    0 <= a < self.names().len() && 0 <= b < self.names().len() && a != b implies
                    self.names()[a] != self.names()[b] by {
                    let oa = if a < i { a } else { a + 1 };
                    let ob = if b < i { b } else { b + 1 };
                    assert(self.names()[a] == names0[oa]);
                    assert(self.names()[b] == names0[ob]);
                }
                Some(removed)
            },
            None => None,
        }
    }

    fn clear(&mut self)
        ensures
            final(self).names() == Seq::<Seq<char>>::empty(),
            final(self).values() == Seq::<V>::empty(),
    {
        self.entries.clear();
        assert(self.names() =~= Seq::<Seq<char>>::empty());
        assert(self.values() =~= Seq::<V>::empty());
    }
}

/// The names and values held by `lines`, in order.
pub open spec fn entries_of_lines(lines: Seq<Seq<char>>) -> Seq<(Seq<char>, Seq<char>)>
    decreases lines.len(),
{
    if lines.len() == 0 {
        Seq::empty()
    } else {
        let rest = entries_of_lines(lines.drop_last());
        match basic_line(lines.last()) {
            Some(entry) => rest.push(entry),
            None => rest,
        }
    }
}

/// The names and values that a basic options text holds, in order.
pub open spec fn basic_entries(text: Seq<char>) -> Seq<(Seq<char>, Seq<char>)> {
    entries_of_lines(text_lines(text))
}

/// The value that the last entry named `name` holds.
pub open spec fn last_value_for(entries: Seq<(Seq<char>, Seq<char>)>, name: Seq<char>) -> Option<Seq<char>>
    decreases entries.len(),
{
    if entries.len() == 0 {
        None
    } else if entries.last().0 == name {
        Some(entries.last().1)
    } else {
        last_value_for(entries.drop_last(), name)
    }
}

/// True when `v` is the value that reading `text` from `path` stores.
pub open spec fn read_from(v: SpecifiedValue, path: Seq<char>, name: Seq<char>, text: Seq<char>) -> bool {
    &&& v.native_name@ == name
    &&& v.value matches OptionValue::String(s) && s@ == text
    &&& v.source matches OptionSource::BinaryRelatedConfigFile(p) && p@ == path
}

/// Option values with their qualifiers and metadata.
#[derive(Clone, Debug)]
pub struct AppOptions {
    specified: NameTable<SpecifiedValue>,
    qualifiers: NameTable<OptionQualifiers>,
    metadata: NameTable<String>,
}

impl AppOptions {
    /// The native names of the stored values, in the order first stored.
    pub closed spec fn specified_names(&self) -> Seq<Seq<char>> {
        self.specified.names()
    }

    /// The stored values, in the order their names were first stored.
    pub closed spec fn specified_values(&self) -> Seq<SpecifiedValue> {
        self.specified.values()
    }

    /// The names that have qualifiers.
    pub closed spec fn qualifier_names(&self) -> Seq<Seq<char>> {
        self.qualifiers.names()
    }

    /// The qualifiers, in the order of [`AppOptions::qualifier_names`].
    pub closed spec fn qualifier_values(&self) -> Seq<OptionQualifiers> {
        self.qualifiers.values()
    }

    /// The names that have metadata.
    pub closed spec fn metadata_names(&self) -> Seq<Seq<char>> {
        self.metadata.names()
    }

    /// The metadata, in the order of [`AppOptions::metadata_names`].
    pub closed spec fn metadata_values(&self) -> Seq<String> {
        self.metadata.values()
    }

    /// Each table holds a name once, and each stored value is stored under
    /// its own native name.
    pub open spec fn well_formed(&self) -> bool {
        &&& distinct_names(self.specified_names())
        &&& distinct_names(self.qualifier_names())
        &&& distinct_names(self.metadata_names())
        &&& self.specified_names().len() == self.specified_values().len()
        &&& self.qualifier_names().len() == self.qualifier_values().len()
        &&& self.metadata_names().len() == self.metadata_values().len()
        &&& forall|i: int| 0 <= i < self.specified_names().len()
            ==> #[trigger] self.specified_names()[i] == self.specified_values()[i].native_name@
    }

    /// The value stored under the native name `name`.
    pub open spec fn specified_for(&self, name: Seq<char>) -> Option<SpecifiedValue> {
        value_named(self.specified_names(), self.specified_values(), name)
    }

    /// The qualifiers set for `name`.
    pub open spec fn qualifiers_for(&self, name: Seq<char>) -> Option<OptionQualifiers> {
        value_named(self.qualifier_names(), self.qualifier_values(), name)
    }

    /// The metadata set for `name`.
    pub open spec fn metadata_for(&self, name: Seq<char>) -> Option<String> {
        value_named(self.metadata_names(), self.metadata_values(), name)
    }

    /// The value that a lookup of `name` gives: none when its qualifiers ask
    /// for the default value only, else the first stored value whose name
    /// matches.
    pub open spec fn lookup(&self, name: Seq<char>) -> Option<OptionValue> {
        if self.qualifiers_for(name) matches Some(q) && q.return_only_default_value {
            None
        } else if matching_values(self.specified_values(), name).len() == 0 {
            None
        } else {
            Some(matching_values(self.specified_values(), name)[0].value)
        }
    }

    /// Stores `value` under its native name, replacing and returning the
    /// value stored there before.
    pub fn add(&mut self, value: SpecifiedValue) -> (previous: Option<SpecifiedValue>)
        requires
            old(self).well_formed(),
        ensures
            final(self).well_formed(),
            previous == old(self).specified_for(value.native_name@),
            adds(*old(self), *final(self), value),
    {
        let name = value.native_name.clone();
        let ghost n = value.native_name@;
        let ghost names0 = self.specified_names();
        let previous = self.specified.insert(name, value);
        proof {
            if holds_name(names0, n) {
                let k = name_index(names0, n);
                assert forall|i: int| 0 <= i < self.specified_names().len()
                    implies #[trigger] self.specified_names()[i] == self.specified_values()[i].native_name@ by {
                    if i != k {
                        assert(old(self).specified_names()[i] == old(self).specified_values()[i].native_name@);
                    }
                }
            } else {
                assert forall|i: int| 0 <= i < self.specified_names().len()
                    implies #[trigger] self.specified_names()[i] == self.specified_values()[i].native_name@ by {
                    if i < names0.len() {
                        assert(old(self).specified_names()[i] == old(self).specified_values()[i].native_name@);
                    }
                }
            }
        }
        previous
    }

    /// Stores each `name = value` line of `contents` as a text value read
    /// from the file `path`, in order, and returns how many lines held one.
    pub fn read_basic_text(&mut self, path: &str, contents: &str) -> (count: usize)
        requires
            old(self).well_formed(),
        ensures
            final(self).well_formed(),
            count == basic_entries(contents@).len(),
            forall|name: Seq<char>| match #[trigger] last_value_for(basic_entries(contents@), name) {
                Some(text) => final(self).specified_for(name) matches Some(v) && read_from(v, path@, name, text),
                None => final(self).specified_for(name) == old(self).specified_for(name),
            },
            final(self).qualifier_names() == old(self).qualifier_names(),
            final(self).qualifier_values() == old(self).qualifier_values(),
            final(self).metadata_names() == old(self).metadata_names(),
            final(self).metadata_values() == old(self).metadata_values(),
    {
        let lines = lines_of(contents);
        let ghost ls = text_lines(contents@);
        assert(lines@.len() == ls.len());
        assert forall|k: int| 0 <= k < lines@.len() implies #[trigger] lines@[k]@ == ls[k] by {
            assert(lines@.map_values(|l: &str| l@)[k] == ls[k]);
        }
        let mut count: usize = 0;
        let mut i: usize = 0;
        assert(ls.take(0) =~= Seq::<Seq<char>>::empty());
        while i < lines.len()
            invariant
                self.well_formed(),
                i <= lines@.len(),
                lines@.len() == ls.len(),
                ls == text_lines(contents@),
                forall|k: int| 0 <= k < lines@.len() ==> #[trigger] lines@[k]@ == ls[k],
                count == entries_of_lines(ls.take(i as int)).len(),
                count <= i,
                forall|name: Seq<char>| match #[trigger] last_value_for(entries_of_lines(ls.take(i as int)), name) {
                    Some(text) => self.specified_for(name) matches Some(v) && read_from(v, path@, name, text),
                    None => self.specified_for(name) == old(self).specified_for(name),
                },
                self.qualifier_names() == old(self).qualifier_names(),
                self.qualifier_values() == old(self).qualifier_values(),
                self.metadata_names() == old(self).metadata_names(),
                self.metadata_values() == old(self).metadata_values(),
            decreases lines@.len() - i,
        {
            let line = lines[i];
            assert(lines@[i as int]@ == ls[i as int]);
            assert(ls.take(i as int + 1).drop_last() =~= ls.take(i as int));
            assert(ls.take(i as int + 1).last() == ls[i as int]);
            let ghost e0 = entries_of_lines(ls.take(i as int));
            let ghost e1 = entries_of_lines(ls.take(i as int + 1));
            match parse_basic_line(line) {
                Some((name, value)) => {
                    let stored = SpecifiedValue {
                        source: OptionSource::BinaryRelatedConfigFile(path.to_owned()),
                        native_name: name.to_owned(),
                        value: OptionValue::text(value),
                    };
                    let ghost before = *self;
                    let ghost sv = stored;
                    self.add(stored);
                    proof {
                        assert(e1 == e0.push((name@, value@)));
                        assert(e1.drop_last() =~= e0);
                        lemma_add_then_find(before, *self, sv);
                        assert forall|n: Seq<char>| match #[trigger] last_value_for(e1, n) {
                            Some(text) => self.specified_for(n) matches Some(v) && read_from(v, path@, n, text),
                            None => self.specified_for(n) == old(self).specified_for(n),
                        } by {
                            if n != name@ {
                                assert(last_value_for(e1, n) == last_value_for(e0, n));
                                assert(self.specified_for(n) == before.specified_for(n));
                            }
                        }
                    }
                    count = count + 1;
                },
                None => {
                    assert(e1 == e0);
                },
            }
            i = i + 1;
        }
        assert(ls.take(i as int) =~= ls);
        count
    }

    /// The value stored under exactly the native name `name`.
    pub fn find_by_native_name(&self, name: &str) -> (r: Option<&SpecifiedValue>)
        requires
            self.well_formed(),
        ensures
            match r {
                Some(v) => self.specified_for(name@) == Some(*v),
                None => self.specified_for(name@) is None,
            },
    {
        self.specified.get(name)
    }

    /// The stored values whose names match `normalized_name`, in the order
    /// they are stored.
    pub fn find_matching(&self, normalized_name: &str) -> (r: Vec<&SpecifiedValue>)
        requires
            self.well_formed(),
        ensures
            r@.len() == matching_values(self.specified_values(), normalized_name@).len(),
            forall|i: int| 0 <= i < r@.len()
                ==> *r@[i] == #[trigger] matching_values(self.specified_values(), normalized_name@)[i],
    {
        let ghost values = self.specified_values();
        let ghost n = normalized_name@;
        let mut found: Vec<&SpecifiedValue> = Vec::new();
        let mut i: usize = 0;
        assert(values.take(0) =~= Seq::<SpecifiedValue>::empty());
        proof { reveal(Seq::filter); }
        assert(matching_values(values.take(0), n).len() == 0);
        while i < self.specified.entries.len()
            invariant
                values == self.specified_values(),
                n == normalized_name@,
                values.len() == self.specified.entries@.len(),
                i <= values.len(),
                found@.len() == matching_values(values.take(i as int), n).len(),
                forall|k: int| 0 <= k < found@.len()
                    ==> *found@[k] == #[trigger] matching_values(values.take(i as int), n)[k],
            decreases values.len() - i,
        {
            let candidate = &self.specified.entries[i].1;
            assert(*candidate == values[i as int]);
            let ghost before = found@;
            let hit = candidate.matches(normalized_name);
            if hit {
                found.push(candidate);
            }
            proof {
                assert(values.take(i as int + 1) =~= values.take(i as int).push(values[i as int]));
                values.take(i as int).lemma_filter_push(values[i as int], name_matcher(n));
                let m0 = matching_values(values.take(i as int), n);
                let m1 = matching_values(values.take(i as int + 1), n);
                if names_match(values[i as int].native_name@, n) {
                    assert(m1 == m0.push(values[i as int]));
                    assert(found@ == before.push(candidate));
                    assert forall|k: int| 0 <= k < found@.len() implies *found@[k] == #[trigger] m1[k] by {
                        if k < before.len() {
                            assert(found@[k] == before[k]);
                        }
                    }
                } else {
                    assert(m1 == m0);
                }
            }
            i = i + 1;
        }
        assert(values.take(i as int) =~= values);
        found
    }

    /// The value for `normalized_name`: none when its qualifiers ask for the
    /// default value only, else the first stored value whose name matches.
    pub fn get(&self, normalized_name: &str) -> (r: Option<&OptionValue>)
        requires
            self.well_formed(),
        ensures
            match r {
                Some(v) => self.lookup(normalized_name@) == Some(*v),
                None => self.lookup(normalized_name@) is None,
            },
    {
        match self.qualifiers.get(normalized_name) {
            Some(q) => {
                if q.return_only_default_value {
                    return None;
                }
            },
            None => {},
        }
        let found = self.find_matching(normalized_name);
        if found.len() == 0 {
            None
        } else {
            Some(&found[0].value)
        }
    }

    /// The value for `normalized_name` converted to `T`.
    pub fn get_typed<T: FromOptionValue>(&self, normalized_name: &str) -> (r: Result<Option<T>, ValueConversionError>)
        requires
            self.well_formed(),
        ensures
            r == match self.lookup(normalized_name@) {
                None => Ok(None),
                Some(v) => match T::converted(v) {
                    Ok(t) => Ok(Some(t)),
                    Err(e) => Err(e),
                },
            },
    {
        match self.get(normalized_name) {
            None => Ok(None),
            Some(v) => match T::from_option_value(v) {
                Ok(t) => Ok(Some(t)),
                Err(e) => Err(e),
            },
        }
    }

    /// Removes the value stored under exactly the native name `native_name`;
    /// true when there was one.
    pub fn clear(&mut self, native_name: &str) -> (removed: bool)
        requires
            old(self).well_formed(),
        ensures
            final(self).well_formed(),
            removed == holds_name(old(self).specified_names(), native_name@),
            if removed {
                &&& final(self).specified_names() == old(self).specified_names().remove(
                    name_index(old(self).specified_names(), native_name@))
                &&& final(self).specified_values() == old(self).specified_values().remove(
                    name_index(old(self).specified_names(), native_name@))
            } else {
                &&& final(self).specified_names() == old(self).specified_names()
                &&& final(self).specified_values() == old(self).specified_values()
            },
            final(self).qualifier_names() == old(self).qualifier_names(),
            final(self).qualifier_values() == old(self).qualifier_values(),
            final(self).metadata_names() == old(self).metadata_names(),
            final(self).metadata_values() == old(self).metadata_values(),
    {
        let ghost names0 = self.specified_names();
        let removed = self.specified.remove(native_name);
        proof {
            if holds_name(names0, native_name@) {
                let k = name_index(names0, native_name@);
                assert forall|i: int| 0 <= i < self.specified_names().len()
                    implies #[trigger] self.specified_names()[i] == self.specified_values()[i].native_name@ by {
                    let o = if i < k { i } else { i + 1 };
                    assert(old(self).specified_names()[o] == old(self).specified_values()[o].native_name@);
                }
            }
        }
        removed.is_some()
    }

    /// Removes every stored value; qualifiers and metadata stay.
    pub fn clear_all(&mut self)
        requires
            old(self).well_formed(),
        ensures
            final(self).well_formed(),
            final(self).specified_names() == Seq::<Seq<char>>::empty(),
            final(self).specified_values() == Seq::<SpecifiedValue>::empty(),
            final(self).qualifier_names() == old(self).qualifier_names(),
            final(self).qualifier_values() == old(self).qualifier_values(),
            final(self).metadata_names() == old(self).metadata_names(),
            final(self).metadata_values() == old(self).metadata_values(),
    {
        self.specified.clear();
    }

    /// Sets the qualifiers for `normalized_name`, replacing earlier ones.
    pub fn set_qualifiers(&mut self, normalized_name: &str, qualifiers: OptionQualifiers)
        requires
            old(self).well_formed(),
        ensures
            final(self).well_formed(),
            final(self).qualifiers_for(normalized_name@) == Some(qualifiers),
            forall|other: Seq<char>| other != normalized_name@
                ==> #[trigger] final(self).qualifiers_for(other) == old(self).qualifiers_for(other),
            final(self).specified_names() == old(self).specified_names(),
            final(self).specified_values() == old(self).specified_values(),
            final(self).metadata_names() == old(self).metadata_names(),
            final(self).metadata_values() == old(self).metadata_values(),
    {
        self.qualifiers.insert(normalized_name.to_owned(), qualifiers);
        proof {
            lemma_insert_lookup(old(self).qualifier_names(), old(self).qualifier_values(), normalized_name@, qualifiers,
                self.qualifier_names(), self.qualifier_values());
            assert forall|other: Seq<char>| other != normalized_name@
                implies #[trigger] self.qualifiers_for(other) == old(self).qualifiers_for(other) by {
                assert(value_named(self.qualifier_names(), self.qualifier_values(), other)
                    == value_named(old(self).qualifier_names(), old(self).qualifier_values(), other));
            }
        }
    }

    /// The qualifiers set for exactly `normalized_name`.
    pub fn qualifiers(&self, normalized_name: &str) -> (r: Option<&OptionQualifiers>)
        requires
            self.well_formed(),
        ensures
            match r {
                Some(q) => self.qualifiers_for(normalized_name@) == Some(*q),
                None => self.qualifiers_for(normalized_name@) is None,
            },
    {
        self.qualifiers.get(normalized_name)
    }

    /// Sets the metadata for `normalized_name`, replacing earlier metadata.
    pub fn set_metadata(&mut self, normalized_name: &str, metadata: &str)
        requires
            old(self).well_formed(),
        ensures
            final(self).well_formed(),
            final(self).metadata_for(normalized_name@) matches Some(m) && m@ == metadata@,
            forall|other: Seq<char>| other != normalized_name@
                ==> #[trigger] final(self).metadata_for(other) == old(self).metadata_for(other),
            final(self).specified_names() == old(self).specified_names(),
            final(self).specified_values() == old(self).specified_values(),
            final(self).qualifier_names() == old(self).qualifier_names(),
            final(self).qualifier_values() == old(self).qualifier_values(),
    {
        let text = metadata.to_owned();
        let ghost stored = text;
        self.metadata.insert(normalized_name.to_owned(), text);
        proof {
            lemma_insert_lookup(old(self).metadata_names(), old(self).metadata_values(), normalized_name@, stored,
                self.metadata_names(), self.metadata_values());
            assert forall|other: Seq<char>| other != normalized_name@
                implies #[trigger] self.metadata_for(other) == old(self).metadata_for(other) by {
                assert(value_named(self.metadata_names(), self.metadata_values(), other)
                    == value_named(old(self).metadata_names(), old(self).metadata_values(), other));
            }
        }
    }

    /// The metadata set for exactly `normalized_name`.
    pub fn metadata(&self, normalized_name: &str) -> (r: Option<&str>)
        requires
            self.well_formed(),
        ensures
            match r {
                Some(m) => self.metadata_for(normalized_name@) matches Some(s) && m@ == s@,
                None => self.metadata_for(normalized_name@) is None,
            },
    {
        match self.metadata.get(normalized_name) {
            Some(m) => Some(m.as_str()),
            None => None,
        }
    }
}

/// True when `after` is `before` with `value` stored under its native name:
/// it replaces the value stored there, or comes last when the name is new;
/// qualifiers and metadata stay.
pub open spec fn adds(before: AppOptions, after: AppOptions, value: SpecifiedValue) -> bool {
    &&& if holds_name(before.specified_names(), value.native_name@) {
        &&& after.specified_names() == before.specified_names()
        &&& after.specified_values() == before.specified_values().update(
            name_index(before.specified_names(), value.native_name@), value)
    } else {
        &&& after.specified_names() == before.specified_names().push(value.native_name@)
        &&& after.specified_values() == before.specified_values().push(value)
    }
    &&& after.qualifier_names() == before.qualifier_names()
    &&& after.qualifier_values() == before.qualifier_values()
    &&& after.metadata_names() == before.metadata_names()
    &&& after.metadata_values() == before.metadata_values()
}

/// After a value is added, looking up its native name finds it, and every
/// other name finds what it found before.
pub proof fn lemma_add_then_find(before: AppOptions, after: AppOptions, value: SpecifiedValue)
    requires
        before.well_formed(),
        adds(before, after, value),
    ensures
        after.specified_for(value.native_name@) == Some(value),
        forall|other: Seq<char>| other != value.native_name@
            ==> #[trigger] after.specified_for(other) == before.specified_for(other),
{
    lemma_insert_lookup(before.specified_names(), before.specified_values(), value.native_name@, value,
        after.specified_names(), after.specified_values());
    assert forall|other: Seq<char>| other != value.native_name@
        implies #[trigger] after.specified_for(other) == before.specified_for(other) by {
        assert(value_named(after.specified_names(), after.specified_values(), other)
            == value_named(before.specified_names(), before.specified_values(), other));
    }
}

impl Default for AppOptions {
    fn default() -> (r: Self)
        ensures
            r.well_formed(),
            r.specified_names() == Seq::<Seq<char>>::empty(),
            r.specified_values() == Seq::<SpecifiedValue>::empty(),
            r.qualifier_names() == Seq::<Seq<char>>::empty(),
            r.qualifier_values() == Seq::<OptionQualifiers>::empty(),
            r.metadata_names() == Seq::<Seq<char>>::empty(),
            r.metadata_values() == Seq::<String>::empty(),
    {
        AppOptions { specified: NameTable::new(), qualifiers: NameTable::new(), metadata: NameTable::new() }
    }
}

/// A named option with the value to use when none is stored.
#[derive(Clone, Debug, PartialEq)]
pub struct OptionDefinition<T> {
    pub name: String,
    pub default: T,
}

impl<T: Clone + FromOptionValue> OptionDefinition<T> {
    pub fn new(name: &str, default: T) -> (r: Self)
        ensures
            r.name@ == name@,
            r.default == default,
    {
        OptionDefinition { name: name.to_owned(), default }
    }

    /// The stored value for this option converted to `T`, or a clone of the
    /// default when there is none.
    pub fn get(&self, options: &AppOptions) -> (r: Result<T, ValueConversionError>)
        requires
            options.well_formed(),
        ensures
            match options.lookup(self.name@) {
                None => r matches Ok(v) && cloned(self.default, v),
                Some(value) => r == T::converted(value),
            },
    {
        match options.get_typed::<T>(self.name.as_str()) {
            Ok(Some(v)) => Ok(v),
            Ok(None) => Ok(self.default.clone()),
            Err(e) => Err(e),
        }
    }
}

/// Storing `value` under `name` makes it the value for `name` and leaves the
/// values for other names as they were.
proof fn lemma_insert_lookup<V>(
    names: Seq<Seq<char>>,
    values: Seq<V>,
    name: Seq<char>,
    value: V,
    names1: Seq<Seq<char>>,
    values1: Seq<V>,
)
    requires
        distinct_names(names),
        names.len() == values.len(),
        holds_name(names, name) ==> names1 == names && values1 == values.update(name_index(names, name), value),
        !holds_name(names, name) ==> names1 == names.push(name) && values1 == values.push(value),
    ensures
        value_named(names1, values1, name) == Some(value),
        forall|other: Seq<char>| other != name
            ==> #[trigger] value_named(names1, values1, other) == value_named(names, values, other),
{
    if holds_name(names, name) {
        let k = name_index(names, name);
        assert(names1[k] == name);
        assert(holds_name(names1, name));
    } else {
        assert(names1[names.len() as int] == name);
        assert(holds_name(names1, name));
        assert(distinct_names(names1)) by {
            assert forall|i: int, j: int| 0 <= i < names1.len() && 0 <= j < names1.len() && i != j
                implies names1[i] != names1[j] by {
                if i < names.len() && j < names.len() {
                } else if i < names.len() {
                    assert(names1[i] == names[i]);
                } else if j < names.len() {
                    assert(names1[j] == names[j]);
                }
            }
        }
    }
    assert forall|other: Seq<char>| other != name
        implies #[trigger] value_named(names1, values1, other) == value_named(names, values, other) by {
        if holds_name(names, other) {
            let k = name_index(names, other);
            assert(names1[k] == other);
            assert(holds_name(names1, other));
        } else if holds_name(names1, other) {
            let k = name_index(names1, other);
            if k < names.len() {
                assert(names[k] == other);
            }
        }
    }
}

} // verus!
