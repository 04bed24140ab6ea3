//! Human-readable sizes.
use vstd::prelude::*;
use crate::chars::{decimal_text, digit_char, push_char, push_decimal};

verus! {

/// The nearest whole number to `n / d`, ties going to the even one.
pub open spec fn half_even_quotient(n: nat, d: nat) -> nat
    recommends
        d > 0,
{
    let q = n / d;
    let r = n % d;
    if 2 * r > d || (2 * r == d && q % 2 == 1) {
        q + 1
    } else {
        q
    }
}

/// The spacing of binary64 values around a magnitude below 2^64: one up to
/// 2^53, doubling with each further power of two.
pub open spec fn f64_spacing(m: nat) -> nat {
    if m < 0x20_0000_0000_0000 {
        1
    } else if m < 0x40_0000_0000_0000 {
        2
    } else if m < 0x80_0000_0000_0000 {
        4
    } else if m < 0x100_0000_0000_0000 {
        8
    } else if m < 0x200_0000_0000_0000 {
        16
    } else if m < 0x400_0000_0000_0000 {
        32
    } else if m < 0x800_0000_0000_0000 {
        64
    } else if m < 0x1000_0000_0000_0000 {
        128
    } else if m < 0x2000_0000_0000_0000 {
        256
    } else if m < 0x4000_0000_0000_0000 {
        512
    } else if m < 0x8000_0000_0000_0000 {
        1024
    } else {
        2048
    }
}

/// The binary64 value nearest to the whole number `m`, ties to even, as
/// converting an integer to `f64` gives.
pub open spec fn nearest_f64(m: nat) -> nat {
    half_even_quotient(m, f64_spacing(m)) * f64_spacing(m)
}

/// The unit a byte count is shown in: bytes up to 1 KiB, then KB, MB and GB
/// up to 1024 of each, and GB beyond that.
pub open spec fn size_unit(bytes: i64) -> nat {
    if bytes <= 1024 {
        0
    } else if bytes <= 0x10_0000 {
        1
    } else if bytes <= 0x4000_0000 {
        2
    } else {
        3
    }
}

/// The number of bytes in a unit.
pub open spec fn unit_size(unit: nat) -> nat {
    if unit == 0 {
        1
    } else if unit == 1 {
        0x400
    } else if unit == 2 {
        0x10_0000
    } else {
        0x4000_0000
    }
}

/// The name printed after the number.
pub open spec fn unit_name(bytes: i64) -> Seq<char> {
    if bytes <= 1024 {
        seq!['b', 'y', 't', 'e', 's']
    } else if bytes <= 0x10_0000 {
        seq!['K', 'B']
    } else if bytes <= 0x4000_0000 {
        seq!['M', 'B']
    } else if bytes <= 0x100_0000_0000 {
        seq!['G', 'B']
    } else {
        seq!['G', 'B', '(', 'b', 'i', 'g', ')']
    }
}

/// The magnitude of a byte count.
pub open spec fn magnitude(bytes: i64) -> nat {
    if bytes < 0 {
        (-bytes) as nat
    } else {
        bytes as nat
    }
}

/// The byte count in its unit, in hundredths, rounded as `{:.2}` rounds the
/// `f64` quotient: the count is first rounded to the nearest `f64`, the
/// division by a power of two is exact, and ties go to the even digit.
pub open spec fn size_hundredths(bytes: i64) -> nat {
    half_even_quotient(nearest_f64(magnitude(bytes)) * 100, unit_size(size_unit(bytes)))
}

/// The text of a byte count: its value in the unit with two decimals, a
/// space and the unit's name.
pub open spec fn data_size_text(bytes: i64) -> Seq<char> {
    let h = size_hundredths(bytes);
    (if bytes < 0 { seq!['-'] } else { Seq::empty() }) + decimal_text(h / 100) + seq!['.', digit_char(h / 10 % 10),
        digit_char(h % 10), ' '] + unit_name(bytes)
}

fn spacing(m: u64) -> (d: u64)
    ensures
        d == f64_spacing(m as nat),
{
    if m < 0x20_0000_0000_0000 {
        1
    } else if m < 0x40_0000_0000_0000 {
        2
    } else if m < 0x80_0000_0000_0000 {
        4
    } else if m < 0x100_0000_0000_0000 {
        8
    } else if m < 0x200_0000_0000_0000 {
        16
    } else if m < 0x400_0000_0000_0000 {
        32
    } else if m < 0x800_0000_0000_0000 {
        64
    } else if m < 0x1000_0000_0000_0000 {
        128
    } else if m < 0x2000_0000_0000_0000 {
        256
    } else if m < 0x4000_0000_0000_0000 {
        512
    } else if m < 0x8000_0000_0000_0000 {
        1024
    } else {
        2048
    }
}

fn half_even(n: u128, d: u128) -> (r: u128)
    requires
        d > 0,
        n / d < u128::MAX,
    ensures
        r == half_even_quotient(n as nat, d as nat),
{
    let q = n / d;
    let r = n % d;
    if r > d - r || (r == d - r && q % 2 == 1) {
        q + 1
    } else {
        q
    }
}

fn nearest_double(m: u64) -> (r: u64)
    requires
        m <= 0x8000_0000_0000_0000,
    ensures
        r == nearest_f64(m as nat),
{
    let d = spacing(m);
    let q = half_even(m as u128, d as u128);
    assert(m < 0x20_0000_0000_0000 * (d as int));
    assert((m as nat) / (d as nat) < 0x20_0000_0000_0000) by (nonlinear_arith)
        requires m < 0x20_0000_0000_0000 * (d as int), d > 0;
    assert(q <= 0x20_0000_0000_0000);
    if d == 2048 {
        assert(m == 0x8000_0000_0000_0000);
        assert(q == 0x10_0000_0000_0000);
    } else {
        assert(d <= 1024);
        assert(q * d <= 0x8000_0000_0000_0000) by (nonlinear_arith)
            requires q <= 0x20_0000_0000_0000, d <= 1024;
    }
    (q as u64) * d
}

/// Formats a byte count with two decimals in the first of bytes, KB, MB and
/// GB (binary units) in which the number is at most 1024, and in GB marked
/// `(big)` beyond that.
pub fn approximate_data_size(bytes: i64) -> (r: String)
    ensures
        r@ == data_size_text(bytes),
{
    let m: u64 = if bytes < 0 {
        if bytes == i64::MIN {
            0x8000_0000_0000_0000
        } else {
            (-bytes) as u64
        }
    } else {
        bytes as u64
    };
    assert(m == magnitude(bytes));
    let rounded = nearest_double(m);
    let unit: u128 = if bytes <= 1024 {
        1
    } else if bytes <= 0x10_0000 {
        0x400
    } else if bytes <= 0x4000_0000 {
        0x10_0000
    } else {
        0x4000_0000
    };
    assert(unit == unit_size(size_unit(bytes)));
    let h = half_even((rounded as u128) * 100, unit);
    assert(h == size_hundredths(bytes));
    let mut text = String::new();
    if bytes < 0 {
        push_char(&mut text, '-');
    }
    let whole = h / 100;
    assert(whole <= u64::MAX);
    push_decimal(&mut text, whole as u64);
    push_char(&mut text, '.');
    let tens = (h / 10 % 10) as u32;
    let ones = (h % 10) as u32;
    push_char(&mut text, crate::chars::char_from_u32(tens + 48).unwrap());
    push_char(&mut text, crate::chars::char_from_u32(ones + 48).unwrap());
    push_char(&mut text, ' ');
    if bytes <= 1024 {
        push_char(&mut text, 'b');
        push_char(&mut text, 'y');
        push_char(&mut text, 't');
        push_char(&mut text, 'e');
        push_char(&mut text, 's');
    } else if bytes <= 0x10_0000 {
        push_char(&mut text, 'K');
        push_char(&mut text, 'B');
    } else if bytes <= 0x4000_0000 {
        push_char(&mut text, 'M');
        push_char(&mut text, 'B');
    } else {
        push_char(&mut text, 'G');
        push_char(&mut text, 'B');
        if bytes > 0x100_0000_0000 {
            push_char(&mut text, '(');
            push_char(&mut text, 'b');
            push_char(&mut text, 'i');
            push_char(&mut text, 'g');
            push_char(&mut text, ')');
        }
    }
    assert(text@ =~= data_size_text(bytes));
    text
}

} // verus!
