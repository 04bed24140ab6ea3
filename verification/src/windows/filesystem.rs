//! Text returned in fixed-size buffers by the volume APIs.
use vstd::prelude::*;
use crate::conversion::{decode_utf16_lossy, from_utf16_lossy};
use crate::data::{multi_sz_values, next_nul, parse_multi_sz};
use crate::windows::error::HResult;

verus! {

/// The text in a buffer of UTF-16 units: up to the first NUL, or all of it,
/// with unpaired surrogates replaced.
pub fn utf16_buffer_to_string(buffer: &[u16]) -> (r: String)
    ensures
        r@ == decode_utf16_lossy(buffer@.take(next_nul(buffer@, 0))),
{
    let mut head: Vec<u16> = Vec::new();
    let mut i: usize = 0;
    while i < buffer.len() && buffer[i] != 0
        invariant
            i <= buffer@.len(),
            head@ == buffer@.take(i as int),
            forall|j: int| 0 <= j < i ==> buffer@[j] != 0,
        decreases buffer@.len() - i,
    {
        head.push(buffer[i]);
        assert(buffer@.take(i as int + 1) =~= buffer@.take(i as int).push(buffer@[i as int]));
        i = i + 1;
    }
    proof {
        crate::windows::registry::lemma_first_zero(buffer@, i as int);
    }
    from_utf16_lossy(head.as_slice())
}

/// The strings of a NUL-separated list that ends in two NULs, each decoded
/// with unpaired surrogates replaced; `E_FAIL` when the list is malformed.
pub fn multi_string_values(units: &[u16]) -> (r: Result<Vec<String>, HResult>)
    ensures
        match multi_sz_values(units@) {
            Ok(values) => r matches Ok(strings) && strings@.len() == values.len()
                && forall|i: int| 0 <= i < values.len() ==> #[trigger] strings@[i]@ == decode_utf16_lossy(values[i]),
            Err(_) => r matches Err(e) && e.0 == 0x8000_4005u32 as i32,
        },
{
    match parse_multi_sz(units) {
        Ok(values) => {
            let ghost expected = multi_sz_values(units@)->Ok_0;
            let mut strings: Vec<String> = Vec::new();
            let mut i: usize = 0;
            while i < values.len()
                invariant
                    i <= values@.len(),
                    values@.map_values(|v: &[u16]| v@) == expected,
                    strings@.len() == i,
                    forall|k: int| 0 <= k < i ==> #[trigger] strings@[k]@ == decode_utf16_lossy(expected[k]),
                decreases values@.len() - i,
            {
                assert(values@.map_values(|v: &[u16]| v@)[i as int] == values@[i as int]@);
                strings.push(from_utf16_lossy(values[i]));
                i = i + 1;
            }
            assert(values@.map_values(|v: &[u16]| v@).len() == values@.len());
            Ok(strings)
        },
        Err(_) => Err(HResult::fail()),
    }
}

} // verus!
