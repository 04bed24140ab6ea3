//! HRESULT values and their relation to Win32 error codes.
use vstd::prelude::*;
use crate::chars::{char_from_u32, push_char};

verus! {

/// A COM/Windows result code.
#[derive(Clone, Copy, Debug, PartialEq, Eq, Structural)]
pub struct HResult(pub i32);

/// The HRESULT for a Win32 error code: success for zero, otherwise a failure
/// in the Win32 facility carrying the low 16 bits of the code.
pub open spec fn win32_hresult(code: u32) -> i32 {
    if code == 0 {
        0
    } else {
        ((code & 0xffff) | 0x8007_0000) as i32
    }
}

/// The character of the hexadecimal digit `d`, upper case.
pub open spec fn hex_digit_char(d: u32) -> char {
    if d < 10 {
        ((d + 48) as u32) as char
    } else {
        ((d + 55) as u32) as char
    }
}

/// The eight upper-case hexadecimal digits of `n`, most significant first.
pub open spec fn hex8(n: u32) -> Seq<char> {
    Seq::new(8, |k: int| hex_digit_char((n >> ((28 - 4 * k) as u32)) & 0xF))
}

impl HResult {
    /// `S_OK`.
    pub fn ok() -> (r: HResult)
        ensures
            r.0 == 0,
    {
        HResult(0)
    }

    /// `S_FALSE`.
    pub fn false_result() -> (r: HResult)
        ensures
            r.0 == 1,
    {
        HResult(1)
    }

    /// `E_FAIL`, 0x80004005.
    pub fn fail() -> (r: HResult)
        ensures
            r.0 == 0x8000_4005u32 as i32,
    {
        proof {
            assert(0x8000_4005u32 as i32 == -2147467259i32) by (bit_vector);
        }
        HResult(-2147467259)
    }

    /// `E_INVALIDARG`, 0x80070057.
    pub fn invalid_argument() -> (r: HResult)
        ensures
            r.0 == 0x8007_0057u32 as i32,
    {
        proof {
            assert(0x8007_0057u32 as i32 == -2147024809i32) by (bit_vector);
        }
        HResult(-2147024809)
    }

    /// `E_NOTIMPL`, 0x80004001.
    pub fn not_implemented() -> (r: HResult)
        ensures
            r.0 == 0x8000_4001u32 as i32,
    {
        proof {
            assert(0x8000_4001u32 as i32 == -2147467263i32) by (bit_vector);
        }
        HResult(-2147467263)
    }

    /// The HRESULT for a Win32 error code.
    pub fn from_win32(code: u32) -> (r: HResult)
        ensures
            r.0 == win32_hresult(code),
    {
        if code == 0 {
            return HResult(0);
        }
        HResult(((code & 0xffff) | 0x8007_0000) as i32)
    }

    pub fn is_success(self) -> (r: bool)
        ensures
            r == (self.0 >= 0),
    {
        self.0 >= 0
    }

    pub fn is_failure(self) -> (r: bool)
        ensures
            r == (self.0 < 0),
    {
        self.0 < 0
    }

    /// The facility field, bits 16 to 26.
    pub fn facility(self) -> (r: u16)
        ensures
            r == ((self.0 as u32 & 0x07ff_0000) >> 16),
    {
        let bits = self.0 as u32;
        assert((bits & 0x07ff_0000) >> 16 <= 0x7ff) by (bit_vector);
        ((bits & 0x07ff_0000) >> 16) as u16
    }

    /// The code field, the low 16 bits.
    pub fn code(self) -> (r: u16)
        ensures
            r == (self.0 as u32 & 0xffff),
    {
        let bits = self.0 as u32;
        assert(bits & 0xffff <= 0xffff) by (bit_vector);
        (bits & 0xffff) as u16
    }

    /// The code as `0x` and eight upper-case hexadecimal digits.
    pub fn to_string(&self) -> (r: String)
        ensures
            r@ == seq!['0', 'x'] + hex8(self.0 as u32),
    {
        let n = self.0 as u32;
        let mut text = String::new();
        push_char(&mut text, '0');
        push_char(&mut text, 'x');
        let mut k: u32 = 0;
        while k < 8
            invariant
                k <= 8,
                n == self.0 as u32,
                text@ == seq!['0', 'x'] + hex8(n).take(k as int),
            decreases 8 - k,
        {
            let shift = 28 - 4 * k;
            let d = (n >> shift) & 0xF;
            assert(d <= 15) by (bit_vector)
                requires d == (n >> shift) & 0xF;
            let c = if d < 10 {
                char_from_u32(d + 48).unwrap()
            } else {
                char_from_u32(d + 55).unwrap()
            };
            assert(c == hex8(n)[k as int]);
            push_char(&mut text, c);
            assert(hex8(n).take(k as int + 1) =~= hex8(n).take(k as int).push(c));
            k = k + 1;
        }
        assert(hex8(n).take(8) =~= hex8(n));
        text
    }
}

/// A nonzero Win32 error code becomes a failure in the Win32 facility (7)
/// whose code field is the low 16 bits of the error code; zero becomes
/// success.
pub proof fn lemma_win32_code_fields(code: u32)
    ensures
        code == 0 ==> win32_hresult(code) == 0,
        code != 0 ==> win32_hresult(code) < 0,
        code != 0 ==> (win32_hresult(code) as u32 & 0x07ff_0000) >> 16 == 7,
        code != 0 ==> win32_hresult(code) as u32 & 0xffff == code & 0xffff,
{
    let v = (code & 0xffff) | 0x8007_0000;
    assert(v >= 0x8000_0000) by (bit_vector)
        requires v == (code & 0xffff) | 0x8007_0000;
    assert((v as i32) < 0) by (bit_vector)
        requires v >= 0x8000_0000;
    assert(((v as i32) as u32 & 0x07ff_0000) >> 16 == 7) by (bit_vector)
        requires v == (code & 0xffff) | 0x8007_0000;
    assert((v as i32) as u32 & 0xffff == code & 0xffff) by (bit_vector)
        requires v == (code & 0xffff) | 0x8007_0000;
}

} // verus!
