//! The decisions behind the C ABI: status codes, the two-call buffer
//! protocol and text comparison of raw UTF-8.
use vstd::prelude::*;
use vstd::utf8::valid_utf8;
use crate::text::{bytes_match, bytes_match_at, CaseSensitivity};

verus! {

/// The version of the C ABI.
pub const ABI_VERSION: u32 = 1;
/// The call succeeded.
pub const STATUS_OK: i32 = 0;
/// The output buffer is too small; the required size was reported.
pub const STATUS_INSUFFICIENT_BUFFER: i32 = 1;
/// An argument was missing or malformed.
pub const STATUS_INVALID_ARGUMENT: i32 = -1;
/// The text could not be converted.
pub const STATUS_CONVERSION_FAILED: i32 = -2;
/// The operation is not available on this platform.
pub const STATUS_NOT_IMPLEMENTED: i32 = -3;

/// A GUID in its C layout.
#[derive(Clone, Copy, Debug, PartialEq, Eq)]
pub struct VruGuid {
    pub data1: u32,
    pub data2: u16,
    pub data3: u16,
    pub data4: [u8; 8],
}

impl Default for VruGuid {
    fn default() -> (r: Self)
        ensures
            r.data1 == 0,
            r.data2 == 0,
            r.data3 == 0,
            r.data4@ == seq![0u8, 0, 0, 0, 0, 0, 0, 0],
    {
        let r = VruGuid { data1: 0, data2: 0, data3: 0, data4: [0u8; 8] };
        assert(r.data4@ =~= seq![0u8, 0, 0, 0, 0, 0, 0, 0]);
        r
    }
}

/// The version of the C ABI.
pub fn abi_version() -> (r: u32)
    ensures
        r == ABI_VERSION,
{
    ABI_VERSION
}

/// The status of handing `length` items to a caller's buffer: an invalid
/// argument without a place for the required size, too small a buffer when
/// the capacity falls short or there is no buffer, and success otherwise.
pub fn copy_status(has_required: bool, capacity: usize, length: usize, has_output: bool) -> (r: i32)
    ensures
        r == copy_status_of(has_required, capacity, length, has_output),
{
    if !has_required {
        STATUS_INVALID_ARGUMENT
    } else if capacity < length || !has_output {
        STATUS_INSUFFICIENT_BUFFER
    } else {
        STATUS_OK
    }
}

/// In the two-call protocol, a second call with a buffer of the size that
/// the first call reported succeeds.
pub proof fn lemma_reported_size_suffices(length: usize)
    ensures
        copy_status_of(true, length, length, true) == STATUS_OK,
{
}

/// The status that [`copy_status`] gives.
pub open spec fn copy_status_of(has_required: bool, capacity: usize, length: usize, has_output: bool) -> i32 {
    if !has_required {
        STATUS_INVALID_ARGUMENT
    } else if capacity < length || !has_output {
        STATUS_INSUFFICIENT_BUFFER
    } else {
        STATUS_OK
    }
}

/// Calls `std::str::from_utf8` and reports whether it accepted the bytes,
/// which it does exactly for valid UTF-8.
#[verifier::external_body]
fn is_utf8(bytes: &[u8]) -> (r: bool)
    ensures
        r == valid_utf8(bytes@),
{
    match std::str::from_utf8(bytes) {
        Ok(_) => true,
        Err(_) => false,
    }
}

/// Whether two byte strings are valid UTF-8 and equal, optionally ignoring
/// the case of ASCII letters.
pub fn utf8_texts_equal(left: &[u8], right: &[u8], case_insensitive: bool) -> (r: bool)
    ensures
        r == (valid_utf8(left@) && valid_utf8(right@) && bytes_match(
            if case_insensitive { CaseSensitivity::Insensitive } else { CaseSensitivity::Sensitive },
            left@,
            right@,
        )),
{
    if !is_utf8(left) || !is_utf8(right) {
        return false;
    }
    let sensitivity = if case_insensitive { CaseSensitivity::Insensitive } else { CaseSensitivity::Sensitive };
    if left.len() != right.len() {
        proof {
            if case_insensitive {
                assert(!crate::text::ascii_eq_ignore_case(left@, right@));
            } else {
                assert(left@ != right@) by {
                    assert(left@.len() != right@.len());
                }
            }
        }
        return false;
    }
    let r = bytes_match_at(sensitivity, left, 0, right, 0, left.len());
    assert(left@.subrange(0, left@.len() as int) =~= left@);
    assert(right@.subrange(0, right@.len() as int) =~= right@);
    r
}

} // verus!
