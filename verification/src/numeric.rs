//! Numeric, bit, checksum, and conversion helpers.
use vstd::prelude::*;
use vstd::std_specs::convert::TryFromSpec;
use vstd::string::StringSliceAdditionalSpecFns;

verus! {

/// Returns whether every bit in `mask` is present in `value`.
pub fn is_bit_set(value: u64, mask: u64) -> (r: bool)
    ensures
        r == (value & mask == mask),
{
    value & mask == mask
}

/// A value with exactly one set bit.
pub open spec fn single_bit(value: u64) -> bool {
    exists|k: u64| k < 64 && value == 1u64 << k
}

/// Returns whether `value` contains exactly one set bit.
pub fn is_single_bit(value: u64) -> (r: bool)
    ensures
        r == single_bit(value),
{
    let mut k: u64 = 0;
    while k < 64
        invariant
            k <= 64,
            forall|j: u64| j < k ==> value != 1u64 << j,
        decreases 64 - k,
    {
        if value == 1u64 << k {
            return true;
        }
        k = k + 1;
    }
    false
}

/// Combines the low and high halves of a 64-bit value.
pub fn combine_u32(low: u32, high: u32) -> (r: u64)
    ensures
        r == high as int * 0x1_0000_0000 + low as int,
{
    let r = (high as u64) << 32 | low as u64;
    assert(((high as u64) << 32 | low as u64) == high as int * 0x1_0000_0000 + low as int) by (bit_vector);
    r
}

/// A failed checked numeric conversion.
#[derive(Clone, Copy, Debug, PartialEq, Eq, Structural)]
pub struct OutOfRange;

/// Converts between numeric types without silent truncation: the result is
/// whatever the destination's `TryFrom` gives, with the error replaced by
/// [`OutOfRange`].
pub fn checked_cast<T, U>(value: U) -> (r: Result<T, OutOfRange>)
    where
        T: TryFrom<U>,
    ensures
        T::obeys_try_from_spec() ==> r == match T::try_from_spec(value) {
            Ok(v) => Ok::<T, OutOfRange>(v),
            Err(_) => Err(OutOfRange),
        },
{
    match T::try_from(value) {
        Ok(v) => Ok(v),
        Err(_) => Err(OutOfRange),
    }
}

/// One step of the reflected CRC-32 shift register.
pub open spec fn crc_shift(crc: u32) -> u32 {
    if crc & 1 == 1 {
        (crc >> 1) ^ 0xEDB8_8320
    } else {
        crc >> 1
    }
}

/// `n` steps of the shift register.
pub open spec fn crc_shifts(crc: u32, n: nat) -> u32
    decreases n,
{
    if n == 0 {
        crc
    } else {
        crc_shifts(crc_shift(crc), (n - 1) as nat)
    }
}

/// The register after feeding one byte.
pub open spec fn crc_feed(crc: u32, byte: u8) -> u32 {
    crc_shifts(crc ^ (byte as u32), 8)
}

/// The register after feeding `bytes` into the initial all-ones register.
pub open spec fn crc_register(bytes: Seq<u8>) -> u32
    decreases bytes.len(),
{
    if bytes.len() == 0 {
        0xFFFF_FFFF
    } else {
        crc_feed(crc_register(bytes.drop_last()), bytes.last())
    }
}

/// The standard IEEE CRC-32 checksum of `bytes`.
pub open spec fn crc32_of(bytes: Seq<u8>) -> u32 {
    crc_register(bytes) ^ 0xFFFF_FFFF
}

/// Computes a standard IEEE CRC-32 checksum.
pub fn crc32(bytes: &[u8]) -> (r: u32)
    ensures
        r == crc32_of(bytes@),
{
    let mut crc: u32 = 0xffff_ffff;
    let mut index: usize = 0;
    while index < bytes.len()
        invariant
            index <= bytes@.len(),
            crc == crc_register(bytes@.take(index as int)),
        decreases bytes@.len() - index,
    {
        let ghost start = crc ^ (bytes@[index as int] as u32);
        crc = crc ^ bytes[index] as u32;
        let mut bit: u32 = 0;
        while bit < 8
            invariant
                bit <= 8,
                crc_shifts(crc, (8 - bit) as nat) == crc_shifts(start, 8),
            decreases 8 - bit,
        {
            let ghost before = crc;
            crc = if crc & 1 == 1 {
                (crc >> 1) ^ 0xedb8_8320
            } else {
                crc >> 1
            };
            assert(crc == crc_shift(before));
            bit = bit + 1;
        }
        proof {
            assert(bytes@.take(index as int + 1).drop_last() =~= bytes@.take(index as int));
        }
        index = index + 1;
    }
    assert(bytes@.take(index as int) =~= bytes@);
    crc ^ 0xffff_ffff
}

/// Couples a resource-format string with its stable lookup checksum.
#[derive(Clone, Copy, Debug, PartialEq, Eq)]
pub struct ResourceString<'a> {
    pub format: &'a str,
    pub crc32: u32,
}

impl<'a> ResourceString<'a> {
    pub fn new(format: &'a str) -> (r: Self)
        ensures
            r.format == format,
            r.crc32 == crc32_of(format.spec_bytes()),
    {
        ResourceString { format, crc32: crc32(format.as_bytes()) }
    }
}

} // verus!
