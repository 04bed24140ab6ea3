//! Registry value kinds and their byte layouts.
use vstd::prelude::*;
use crate::conversion::{decode_utf16_lossy, encode_utf16, from_utf16_lossy, to_utf16, utf16_units_of};
use crate::data::{encode_multi_sz, multi_sz_encoding, multi_sz_values, next_nul, parse_multi_sz};
use crate::windows::error::HResult;
use crate::options::{adds, lemma_add_then_find, AppOptions, OptionSource, OptionValue, SpecifiedValue};

verus! {

/// No value type (`REG_NONE`).
pub const REG_NONE: u32 = 0;
/// A NUL-terminated string (`REG_SZ`).
pub const REG_SZ: u32 = 1;
/// A NUL-terminated string with environment references (`REG_EXPAND_SZ`).
pub const REG_EXPAND_SZ: u32 = 2;
/// Binary data (`REG_BINARY`).
pub const REG_BINARY: u32 = 3;
/// A little-endian 32-bit number (`REG_DWORD`).
pub const REG_DWORD: u32 = 4;
/// A list of NUL-terminated strings (`REG_MULTI_SZ`).
pub const REG_MULTI_SZ: u32 = 7;
/// A little-endian 64-bit number (`REG_QWORD`).
pub const REG_QWORD: u32 = 11;
/// Access rights to read a key (`KEY_READ`).
pub const READ: u32 = 131097;
/// Access rights to write a key (`KEY_WRITE`).
pub const WRITE: u32 = 131078;

/// A predefined registry root key.
#[derive(Clone, Copy, Debug, PartialEq, Eq, Structural)]
pub enum RegistryRoot {
    ClassesRoot,
    CurrentUser,
    LocalMachine,
    Users,
    CurrentConfig,
}

/// A typed registry value.
#[derive(Clone, Debug, PartialEq, Eq)]
pub enum RegistryValue {
    NoType,
    String(String),
    ExpandString(String),
    MultiString(Vec<String>),
    Dword(u32),
    Qword(u64),
    Binary(Vec<u8>),
    Unknown { value_type: u32, data: Vec<u8> },
}

/// What a registry value holds, as plain values.
pub enum RegistryData {
    NoType,
    String(Seq<char>),
    ExpandString(Seq<char>),
    MultiString(Seq<Seq<char>>),
    Dword(u32),
    Qword(u64),
    Binary(Seq<u8>),
    Unknown(u32, Seq<u8>),
}

impl View for RegistryValue {
    type V = RegistryData;

    open spec fn view(&self) -> RegistryData {
        match self {
            RegistryValue::NoType => RegistryData::NoType,
            RegistryValue::String(s) => RegistryData::String(s@),
            RegistryValue::ExpandString(s) => RegistryData::ExpandString(s@),
            RegistryValue::MultiString(values) => RegistryData::MultiString(
                Seq::new(values@.len(), |i: int| values@[i]@),
            ),
            RegistryValue::Dword(v) => RegistryData::Dword(*v),
            RegistryValue::Qword(v) => RegistryData::Qword(*v),
            RegistryValue::Binary(b) => RegistryData::Binary(b@),
            RegistryValue::Unknown { value_type, data } => RegistryData::Unknown(*value_type, data@),
        }
    }
}

/// The value that a type code and data decode to, or `None` when a string
/// list is malformed: strings end at the first NUL, numbers are
/// little-endian, and a number too short for its type or an unknown type
/// keeps the raw data.
pub open spec fn registry_decoding(value_type: u32, data: Seq<u8>) -> Option<RegistryData> {
    if value_type == REG_NONE {
        Some(RegistryData::NoType)
    } else if value_type == REG_SZ {
        Some(RegistryData::String(registry_text(data)))
    } else if value_type == REG_EXPAND_SZ {
        Some(RegistryData::ExpandString(registry_text(data)))
    } else if value_type == REG_DWORD && data.len() >= 4 {
        Some(RegistryData::Dword(le32(data)))
    } else if value_type == REG_QWORD && data.len() >= 8 {
        Some(RegistryData::Qword(le64(data)))
    } else if value_type == REG_MULTI_SZ {
        match multi_sz_values(le_units_of(data)) {
            Ok(values) => Some(RegistryData::MultiString(
                Seq::new(values.len(), |i: int| decode_utf16_lossy(values[i])),
            )),
            Err(_) => None,
        }
    } else if value_type == REG_BINARY {
        Some(RegistryData::Binary(data))
    } else {
        Some(RegistryData::Unknown(value_type, data))
    }
}

/// Bytes read as little-endian 16-bit units; a trailing odd byte is ignored.
pub open spec fn le_units_of(bytes: Seq<u8>) -> Seq<u16> {
    Seq::new(bytes.len() / 2, |i: int| (bytes[2 * i] + 256 * bytes[2 * i + 1]) as u16)
}

/// 16-bit units written as little-endian bytes.
pub open spec fn le_bytes_of_units(units: Seq<u16>) -> Seq<u8> {
    Seq::new(units.len() * 2, |i: int| if i % 2 == 0 { (units[i / 2] % 256) as u8 } else { (units[i / 2] / 256) as u8 })
}

/// The text of a string value: its units up to the first NUL, decoded with
/// unpaired surrogates replaced.
pub open spec fn registry_text(data: Seq<u8>) -> Seq<char> {
    decode_utf16_lossy(le_units_of(data).take(next_nul(le_units_of(data), 0)))
}

/// The first four bytes read as a little-endian number.
pub open spec fn le32(b: Seq<u8>) -> u32 {
    (b[0] + 0x100 * b[1] + 0x1_0000 * b[2] + 0x100_0000 * b[3]) as u32
}

/// The first eight bytes read as a little-endian number.
pub open spec fn le64(b: Seq<u8>) -> u64 {
    (b[0] + 0x100 * b[1] + 0x1_0000 * b[2] + 0x100_0000 * b[3] + 0x1_0000_0000 * b[4]
        + 0x100_0000_0000 * b[5] + 0x1_0000_0000_0000 * b[6] + 0x100_0000_0000_0000 * b[7]) as u64
}

/// The little-endian bytes of a 32-bit number.
pub open spec fn le_bytes32(v: u32) -> Seq<u8> {
    seq![(v % 0x100) as u8, (v / 0x100 % 0x100) as u8, (v / 0x1_0000 % 0x100) as u8, (v / 0x100_0000) as u8]
}

/// The little-endian bytes of a 64-bit number.
pub open spec fn le_bytes64(v: u64) -> Seq<u8> {
    seq![
        (v % 0x100) as u8,
        (v / 0x100 % 0x100) as u8,
        (v / 0x1_0000 % 0x100) as u8,
        (v / 0x100_0000 % 0x100) as u8,
        (v / 0x1_0000_0000 % 0x100) as u8,
        (v / 0x100_0000_0000 % 0x100) as u8,
        (v / 0x1_0000_0000_0000 % 0x100) as u8,
        (v / 0x100_0000_0000_0000) as u8,
    ]
}

/// The UTF-16 encodings of a list of strings.
pub open spec fn utf16_values(values: Seq<String>) -> Seq<Seq<u16>> {
    Seq::new(values.len(), |i: int| encode_utf16(values[i]@))
}

/// The little-endian bytes of a string's UTF-16 units and a terminating NUL.
pub open spec fn string_bytes(s: Seq<char>) -> Seq<u8> {
    le_bytes_of_units(encode_utf16(s).push(0))
}

/// The UTF-16 encodings of a list of texts.
pub open spec fn utf16_texts(values: Seq<Seq<char>>) -> Seq<Seq<u16>> {
    Seq::new(values.len(), |i: int| encode_utf16(values[i]))
}

/// The type code and data under which a value is stored.
pub open spec fn raw_form(d: RegistryData) -> (u32, Seq<u8>) {
    match d {
        RegistryData::NoType => (REG_NONE, Seq::empty()),
        RegistryData::String(s) => (REG_SZ, string_bytes(s)),
        RegistryData::ExpandString(s) => (REG_EXPAND_SZ, string_bytes(s)),
        RegistryData::MultiString(values) => (REG_MULTI_SZ, match multi_sz_encoding(utf16_texts(values)) {
            Ok(e) => le_bytes_of_units(e),
            Err(_) => Seq::empty(),
        }),
        RegistryData::Dword(v) => (REG_DWORD, le_bytes32(v)),
        RegistryData::Qword(v) => (REG_QWORD, le_bytes64(v)),
        RegistryData::Binary(b) => (REG_BINARY, b),
        RegistryData::Unknown(t, b) => (t, b),
    }
}

/// True when a value has a stored form: every string of a list is
/// non-empty, and the stored units fit in memory.
pub open spec fn storable(d: RegistryData) -> bool {
    match d {
        RegistryData::String(s) => (encode_utf16(s).len() + 1) * 2 <= usize::MAX,
        RegistryData::ExpandString(s) => (encode_utf16(s).len() + 1) * 2 <= usize::MAX,
        RegistryData::MultiString(values) => {
            &&& forall|i: int| 0 <= i < values.len() ==> #[trigger] values[i].len() > 0
            &&& multi_sz_encoding(utf16_texts(values)) matches Ok(e) ==> e.len() * 2 <= usize::MAX
        },
        _ => true,
    }
}

/// The UTF-16 units of `value` and a terminating NUL, as Windows APIs take
/// text.
pub fn wide(value: &str) -> (r: Vec<u16>)
    ensures
        r@ == encode_utf16(value@).push(0),
{
    let mut units = to_utf16(value);
    units.push(0);
    units
}

fn string_raw(s: &str) -> (r: Vec<u8>)
    requires
        (encode_utf16(s@).len() + 1) * 2 <= usize::MAX,
    ensures
        r@ == string_bytes(s@),
{
    let units = wide(s);
    le_bytes(units.as_slice())
}

fn le_units(data: &[u8]) -> (r: Vec<u16>)
    ensures
        r@ == le_units_of(data@),
{
    let len = data.len();
    let n = len / 2;
    let mut out: Vec<u16> = Vec::new();
    let mut i: usize = 0;
    while i < n
        invariant
            len == data@.len(),
            n == data@.len() / 2,
            i <= n,
            out@ == le_units_of(data@).take(i as int),
        decreases n - i,
    {
        assert(2 * i + 1 < data@.len()) by (nonlinear_arith)
            requires i < n, n == len / 2, len == data@.len();
        let lo = data[2 * i];
        let hi = data[2 * i + 1];
        let unit = (lo as u16) | ((hi as u16) << 8);
        assert(unit == (lo + 256 * hi) as u16) by (bit_vector)
            requires unit == (lo as u16) | ((hi as u16) << 8);
        out.push(unit);
        assert(le_units_of(data@).take(i as int + 1) =~= le_units_of(data@).take(i as int).push(unit));
        i = i + 1;
    }
    assert(le_units_of(data@).take(n as int) =~= le_units_of(data@));
    out
}

fn le_bytes(units: &[u16]) -> (r: Vec<u8>)
    requires
        units@.len() * 2 <= usize::MAX,
    ensures
        r@ == le_bytes_of_units(units@),
{
    let mut out: Vec<u8> = Vec::new();
    let mut i: usize = 0;
    while i < units.len()
        invariant
            i <= units@.len(),
            units@.len() * 2 <= usize::MAX,
            out@ == le_bytes_of_units(units@).take(2 * i as int),
        decreases units@.len() - i,
    {
        let u = units[i];
        let lo = (u & 0xff) as u8;
        let hi = (u >> 8) as u8;
        assert(lo == (u % 256) as u8 && hi == (u / 256) as u8) by (bit_vector)
            requires lo == (u & 0xff) as u8, hi == (u >> 8) as u8;
        out.push(lo);
        out.push(hi);
        assert(le_bytes_of_units(units@).take(2 * i as int + 2)
            =~= le_bytes_of_units(units@).take(2 * i as int).push(lo).push(hi));
        i = i + 1;
    }
    assert(le_bytes_of_units(units@).take(2 * i as int) =~= le_bytes_of_units(units@));
    out
}

/// The text of a string value's bytes: little-endian UTF-16 up to the first
/// NUL, with unpaired surrogates replaced.
pub fn decode_utf16_bytes(data: &[u8]) -> (r: String)
    ensures
        r@ == registry_text(data@),
{
    let units = le_units(data);
    let ghost u = units@;
    let mut head: Vec<u16> = Vec::new();
    let mut i: usize = 0;
    while i < units.len() && units[i] != 0
        invariant
            u == units@,
            i <= u.len(),
            head@ == u.take(i as int),
            forall|j: int| 0 <= j < i ==> u[j] != 0,
        decreases u.len() - i,
    {
        head.push(units[i]);
        assert(u.take(i as int + 1) =~= u.take(i as int).push(u[i as int]));
        i = i + 1;
    }
    proof {
        lemma_first_zero(u, i as int);
    }
    from_utf16_lossy(head.as_slice())
}

fn copy_bytes(b: &Vec<u8>) -> (r: Vec<u8>)
    ensures
        r@ == b@,
{
    let mut out: Vec<u8> = Vec::new();
    let mut i: usize = 0;
    while i < b.len()
        invariant
            i <= b@.len(),
            out@ == b@.take(i as int),
        decreases b@.len() - i,
    {
        out.push(b[i]);
        assert(b@.take(i as int + 1) =~= b@.take(i as int).push(b@[i as int]));
        i = i + 1;
    }
    assert(b@.take(i as int) =~= b@);
    out
}

/// A non-empty text has a non-empty UTF-16 encoding.
pub(crate) proof fn lemma_encode_nonempty(s: Seq<char>)
    requires
        s.len() > 0,
    ensures
        encode_utf16(s).len() > 0,
{
    assert(utf16_units_of(s[0]).len() > 0);
}

/// The option value that a registry value gives: strings as text, numbers as
/// unsigned integers, binary data as bytes and string lists as strings; an
/// untyped or unknown value gives none.
pub fn option_value_of(value: RegistryValue) -> (r: Option<OptionValue>)
    ensures
        r == option_value_for(value),
{
    match value {
        RegistryValue::String(s) => Some(OptionValue::String(s)),
        RegistryValue::ExpandString(s) => Some(OptionValue::String(s)),
        RegistryValue::Dword(v) => Some(OptionValue::U64(v as u64)),
        RegistryValue::Qword(v) => Some(OptionValue::U64(v)),
        RegistryValue::Binary(b) => Some(OptionValue::Bytes(b)),
        RegistryValue::MultiString(values) => Some(OptionValue::Strings(values)),
        RegistryValue::NoType => None,
        RegistryValue::Unknown { .. } => None,
    }
}

/// The option value that [`option_value_of`] gives.
pub open spec fn option_value_for(value: RegistryValue) -> Option<OptionValue> {
    match value {
        RegistryValue::String(s) => Some(OptionValue::String(s)),
        RegistryValue::ExpandString(s) => Some(OptionValue::String(s)),
        RegistryValue::Dword(v) => Some(OptionValue::U64(v as u64)),
        RegistryValue::Qword(v) => Some(OptionValue::U64(v)),
        RegistryValue::Binary(b) => Some(OptionValue::Bytes(b)),
        RegistryValue::MultiString(values) => Some(OptionValue::Strings(values)),
        _ => None,
    }
}

/// Stores a value read from the registry under `name` as an option from the
/// system configuration repository; says whether it had an option value.
pub fn store_registry_value(options: &mut AppOptions, name: &str, value: RegistryValue) -> (stored: bool)
    requires
        old(options).well_formed(),
    ensures
        final(options).well_formed(),
        stored == (option_value_for(value) is Some),
        stored ==> (final(options).specified_for(name@) matches Some(v) && v.native_name@ == name@
            && v.source == OptionSource::SystemConfigRepository && Some(v.value) == option_value_for(value)),
        stored ==> forall|other: Seq<char>| other != name@
            ==> #[trigger] final(options).specified_for(other) == old(options).specified_for(other),
        !stored ==> *final(options) == *old(options),
{
    match option_value_of(value) {
        Some(v) => {
            let specified = SpecifiedValue { source: OptionSource::SystemConfigRepository, native_name: name.to_owned(), value: v };
            let ghost sv = specified;
            options.add(specified);
            proof {
                lemma_add_then_find(*old(options), *options, sv);
            }
            true
        },
        None => false,
    }
}

/// The first zero unit is at `k` when none comes before it.
pub(crate) proof fn lemma_first_zero(u: Seq<u16>, k: int)
    requires
        0 <= k <= u.len(),
        forall|j: int| 0 <= j < k ==> u[j] != 0,
        k < u.len() ==> u[k] == 0,
    ensures
        next_nul(u, 0) == k,
{
    lemma_first_zero_from(u, 0, k);
}

proof fn lemma_first_zero_from(u: Seq<u16>, start: int, k: int)
    requires
        0 <= start <= k <= u.len(),
        forall|j: int| start <= j < k ==> u[j] != 0,
        k < u.len() ==> u[k] == 0,
    ensures
        next_nul(u, start) == k,
    decreases k - start,
{
    if start < k {
        lemma_first_zero_from(u, start + 1, k);
    }
}

impl RegistryValue {

    /// The type code and little-endian data under which the value is
    /// stored; strings are UTF-16 with a terminating NUL.
    pub fn to_raw(&self) -> (r: (u32, Vec<u8>))
        requires
            storable(self@),
        ensures
            r.0 == raw_form(self@).0,
            r.1@ == raw_form(self@).1,
    {
        match self {
            RegistryValue::NoType => (REG_NONE, Vec::new()),
            RegistryValue::String(s) => (REG_SZ, string_raw(s.as_str())),
            RegistryValue::ExpandString(s) => (REG_EXPAND_SZ, string_raw(s.as_str())),
            RegistryValue::MultiString(values) => {
                let ghost texts = Seq::new(values@.len(), |i: int| values@[i]@);
                let mut wide: Vec<Vec<u16>> = Vec::new();
                let mut i: usize = 0;
                while i < values.len()
                    invariant
                        i <= values@.len(),
                        texts == Seq::new(values@.len(), |k: int| values@[k]@),
                        wide@.len() == i,
                        forall|k: int| 0 <= k < i ==> #[trigger] wide@[k]@ == encode_utf16(texts[k]),
                    decreases values@.len() - i,
                {
                    wide.push(to_utf16(values[i].as_str()));
                    i = i + 1;
                }
                let mut slices: Vec<&[u16]> = Vec::new();
                let mut j: usize = 0;
                while j < wide.len()
                    invariant
                        j <= wide@.len(),
                        slices@.len() == j,
                        forall|k: int| 0 <= k < j ==> #[trigger] slices@[k]@ == wide@[k]@,
                    decreases wide@.len() - j,
                {
                    slices.push(wide[j].as_slice());
                    j = j + 1;
                }
                assert(slices@.map_values(|v: &[u16]| v@) =~= utf16_texts(texts));
                match encode_multi_sz(slices.as_slice()) {
                    Ok(encoded) => (REG_MULTI_SZ, le_bytes(encoded.as_slice())),
                    Err(_) => {
                        proof {
                            assert forall|k: int| 0 <= k < texts.len() implies #[trigger] utf16_texts(texts)[k].len() > 0 by {
                                assert(texts[k].len() > 0);
                                lemma_encode_nonempty(texts[k]);
                            }
                        }
                        (REG_MULTI_SZ, Vec::new())
                    },
                }
            },
            RegistryValue::Dword(v) => {
                let v = *v;
                let bytes = vec![(v & 0xff) as u8, ((v >> 8) & 0xff) as u8, ((v >> 16) & 0xff) as u8, (v >> 24) as u8];
                assert((v & 0xff) as u8 == (v % 0x100) as u8 && ((v >> 8) & 0xff) as u8 == (v / 0x100 % 0x100) as u8
                    && ((v >> 16) & 0xff) as u8 == (v / 0x1_0000 % 0x100) as u8 && (v >> 24) as u8 == (v / 0x100_0000) as u8) by (bit_vector);
                assert(bytes@ =~= le_bytes32(v));
                (REG_DWORD, bytes)
            },
            RegistryValue::Qword(v) => {
                let v = *v;
                let bytes = vec![
                    (v & 0xff) as u8,
                    ((v >> 8) & 0xff) as u8,
                    ((v >> 16) & 0xff) as u8,
                    ((v >> 24) & 0xff) as u8,
                    ((v >> 32) & 0xff) as u8,
                    ((v >> 40) & 0xff) as u8,
                    ((v >> 48) & 0xff) as u8,
                    (v >> 56) as u8,
                ];
                assert((v & 0xff) as u8 == (v % 0x100) as u8 && ((v >> 8) & 0xff) as u8 == (v / 0x100 % 0x100) as u8
                    && ((v >> 16) & 0xff) as u8 == (v / 0x1_0000 % 0x100) as u8
                    && ((v >> 24) & 0xff) as u8 == (v / 0x100_0000 % 0x100) as u8
                    && ((v >> 32) & 0xff) as u8 == (v / 0x1_0000_0000 % 0x100) as u8
                    && ((v >> 40) & 0xff) as u8 == (v / 0x100_0000_0000 % 0x100) as u8
                    && ((v >> 48) & 0xff) as u8 == (v / 0x1_0000_0000_0000 % 0x100) as u8
                    && (v >> 56) as u8 == (v / 0x100_0000_0000_0000) as u8) by (bit_vector);
                assert(bytes@ =~= le_bytes64(v));
                (REG_QWORD, bytes)
            },
            RegistryValue::Binary(b) => (REG_BINARY, copy_bytes(b)),
            RegistryValue::Unknown { value_type, data } => (*value_type, copy_bytes(data)),
        }
    }
    /// The value that a registry query returned as a type code and data:
    /// strings end at the first NUL, numbers are little-endian, a number
    /// too short for its type and an unknown type keep the raw data, and a
    /// malformed string list fails with `E_FAIL`.
    pub fn decode(value_type: u32, data: Vec<u8>) -> (r: Result<RegistryValue, HResult>)
        ensures
            match registry_decoding(value_type, data@) {
                Some(d) => r matches Ok(v) && v@ == d,
                None => r matches Err(e) && e.0 == 0x8000_4005u32 as i32,
            },
    {
        if value_type == REG_NONE {
            Ok(RegistryValue::NoType)
        } else if value_type == REG_SZ {
            Ok(RegistryValue::String(decode_utf16_bytes(data.as_slice())))
        } else if value_type == REG_EXPAND_SZ {
            Ok(RegistryValue::ExpandString(decode_utf16_bytes(data.as_slice())))
        } else if value_type == REG_DWORD && data.len() >= 4 {
            let v = (data[0] as u32) | ((data[1] as u32) << 8) | ((data[2] as u32) << 16) | ((data[3] as u32) << 24);
            let (b0, b1, b2, b3) = (data[0], data[1], data[2], data[3]);
            assert(v == (b0 + 0x100 * b1 + 0x1_0000 * b2 + 0x100_0000 * b3) as u32) by (bit_vector)
                requires v == (b0 as u32) | ((b1 as u32) << 8) | ((b2 as u32) << 16) | ((b3 as u32) << 24);
            Ok(RegistryValue::Dword(v))
        } else if value_type == REG_QWORD && data.len() >= 8 {
            let v = (data[0] as u64) | ((data[1] as u64) << 8) | ((data[2] as u64) << 16) | ((data[3] as u64) << 24)
                | ((data[4] as u64) << 32) | ((data[5] as u64) << 40) | ((data[6] as u64) << 48) | ((data[7] as u64) << 56);
            let (b0, b1, b2, b3, b4, b5, b6, b7) = (data[0], data[1], data[2], data[3], data[4], data[5], data[6], data[7]);
            assert(v == (b0 + 0x100 * b1 + 0x1_0000 * b2 + 0x100_0000 * b3 + 0x1_0000_0000 * b4
                + 0x100_0000_0000 * b5 + 0x1_0000_0000_0000 * b6 + 0x100_0000_0000_0000 * b7) as u64) by (bit_vector)
                requires v == (b0 as u64) | ((b1 as u64) << 8) | ((b2 as u64) << 16) | ((b3 as u64) << 24)
                    | ((b4 as u64) << 32) | ((b5 as u64) << 40) | ((b6 as u64) << 48) | ((b7 as u64) << 56);
            Ok(RegistryValue::Qword(v))
        } else if value_type == REG_MULTI_SZ {
            let units = le_units(data.as_slice());
            match parse_multi_sz(units.as_slice()) {
                Ok(values) => {
                    let ghost expected = multi_sz_values(units@)->Ok_0;
                    let mut strings: Vec<String> = Vec::new();
                    let mut i: usize = 0;
                    while i < values.len()
                        invariant
                            i <= values@.len(),
                            values@.map_values(|v: &[u16]| v@) == expected,
                            strings@.len() == i,
                            forall|k: int| 0 <= k < i ==> #[trigger] strings@[k]@ == decode_utf16_lossy(expected[k]),
                        decreases values@.len() - i,
                    {
                        assert(values@.map_values(|v: &[u16]| v@)[i as int] == values@[i as int]@);
                        strings.push(from_utf16_lossy(values[i]));
                        i = i + 1;
                    }
                    assert(values@.map_values(|v: &[u16]| v@).len() == values@.len());
                    assert(Seq::new(strings@.len(), |k: int| strings@[k]@)
                        =~= Seq::new(expected.len(), |k: int| decode_utf16_lossy(expected[k])));
                    let r = RegistryValue::MultiString(strings);
                    assert(r@ == registry_decoding(value_type, data@)->Some_0);
                    Ok(r)
                },
                Err(_) => Err(HResult::fail()),
            }
        } else if value_type == REG_BINARY {
            Ok(RegistryValue::Binary(data))
        } else {
            Ok(RegistryValue::Unknown { value_type, data })
        }
    }
}

/// True when a value survives being stored and read back: its strings hold
/// no NUL, and an unknown type code is not one that is read as a known type.
pub open spec fn survives_storage(d: RegistryData) -> bool {
    match d {
        RegistryData::String(s) => !s.contains('\0'),
        RegistryData::ExpandString(s) => !s.contains('\0'),
        RegistryData::MultiString(values) => forall|i: int| 0 <= i < values.len() ==> !(#[trigger] values[i]).contains('\0'),
        RegistryData::Unknown(t, b) => {
            &&& t != REG_NONE && t != REG_SZ && t != REG_EXPAND_SZ && t != REG_MULTI_SZ && t != REG_BINARY
            &&& !(t == REG_DWORD && b.len() >= 4)
            &&& !(t == REG_QWORD && b.len() >= 8)
        },
        _ => true,
    }
}

/// Reading little-endian bytes back as units gives the units.
pub proof fn lemma_le_units_round_trip(units: Seq<u16>)
    ensures
        le_units_of(le_bytes_of_units(units)) == units,
{
    let bytes = le_bytes_of_units(units);
    assert(bytes.len() / 2 == units.len());
    assert forall|i: int| 0 <= i < units.len() implies #[trigger] le_units_of(bytes)[i] == units[i] by {
        assert((2 * i) / 2 == i && (2 * i) % 2 == 0);
        assert((2 * i + 1) / 2 == i && (2 * i + 1) % 2 == 1);
        let u = units[i];
        assert(((u % 256) as u8 + 256 * ((u / 256) as u8)) as u16 == u) by (bit_vector);
    }
    assert(le_units_of(bytes) =~= units);
}

/// A text without NUL has a UTF-16 encoding without a zero unit.
proof fn lemma_encode_has_no_zero(s: Seq<char>)
    requires
        !s.contains('\0'),
    ensures
        forall|k: int| 0 <= k < encode_utf16(s).len() ==> encode_utf16(s)[k] != 0,
    decreases s.len(),
{
    if s.len() > 0 {
        assert(s[0] != '\0');
        assert(!s.drop_first().contains('\0')) by {
            if s.drop_first().contains('\0') {
                let k = choose|k: int| 0 <= k < s.drop_first().len() && s.drop_first()[k] == '\0';
                assert(s[k + 1] == '\0');
            }
        }
        lemma_encode_has_no_zero(s.drop_first());
        let head = utf16_units_of(s[0]);
        assert forall|k: int| 0 <= k < head.len() implies head[k] != 0 by {
            let c = s[0];
            assert(c != '\0');
            assert(c as u32 != 0) by {
                vstd::utf8::char_u32_cast(c, c as u32);
                vstd::utf8::char_u32_cast('\0', '\0' as u32);
                assert('\0' as u32 == 0);
            }
            let v = c as u32;
            vstd::utf8::char_is_scalar(c);
            if v < 0x10000 {
                assert((v as u16) != 0) by (bit_vector)
                    requires v != 0, v < 0x10000;
            } else {
                assert(v <= 0x10FFFF);
                assert(0xD800 + (v - 0x10000) / 0x400 < 0x10000);
                assert(0xDC00 + (v - 0x10000) % 0x400 < 0x10000);
            }
        }
        let all = encode_utf16(s);
        assert forall|k: int| 0 <= k < all.len() implies all[k] != 0 by {
            if k >= head.len() {
                assert(all[k] == encode_utf16(s.drop_first())[k - head.len()]);
            }
        }
    }
}

/// The text read back from a stored string is the string.
proof fn lemma_string_round_trip(s: Seq<char>)
    requires
        !s.contains('\0'),
    ensures
        registry_text(string_bytes(s)) == s,
{
    let units = encode_utf16(s).push(0);
    lemma_le_units_round_trip(units);
    lemma_encode_has_no_zero(s);
    lemma_first_zero(units, encode_utf16(s).len() as int);
    assert(units.take(encode_utf16(s).len() as int) =~= encode_utf16(s));
    crate::conversion::lemma_utf16_round_trip(s);
}

/// Decoding the stored form of a value gives the value back, for every value
/// that can be stored and survives storage.
pub proof fn lemma_stored_form_decodes(d: RegistryData)
    requires
        storable(d),
        survives_storage(d),
    ensures
        registry_decoding(raw_form(d).0, raw_form(d).1) == Some(d),
{
    match d {
        RegistryData::String(s) => {
            lemma_string_round_trip(s);
        },
        RegistryData::ExpandString(s) => {
            lemma_string_round_trip(s);
        },
        RegistryData::MultiString(values) => {
            let texts = utf16_texts(values);
            assert forall|i: int| 0 <= i < texts.len() implies #[trigger] texts[i].len() > 0 by {
                assert(values[i].len() > 0);
                lemma_encode_nonempty(values[i]);
            }
            assert forall|i: int, j: int| 0 <= i < texts.len() && 0 <= j < texts[i].len() implies texts[i][j] != 0u16 by {
                lemma_encode_has_no_zero(values[i]);
            }
            crate::data::lemma_multi_sz_round_trip(texts);
            let e = multi_sz_encoding(texts)->Ok_0;
            lemma_le_units_round_trip(e);
            assert forall|i: int| 0 <= i < values.len() implies
                #[trigger] decode_utf16_lossy(texts[i]) == values[i] by {
                crate::conversion::lemma_utf16_round_trip(values[i]);
            }
            assert(Seq::new(texts.len(), |i: int| decode_utf16_lossy(texts[i])) =~= values);
        },
        RegistryData::Dword(v) => {
            assert(((v % 0x100) as u8 + 0x100 * ((v / 0x100 % 0x100) as u8) + 0x1_0000 * ((v / 0x1_0000 % 0x100) as u8)
                + 0x100_0000 * ((v / 0x100_0000) as u8)) as u32 == v) by (bit_vector);
        },
        RegistryData::Qword(v) => {
            assert(((v % 0x100) as u8 + 0x100 * ((v / 0x100 % 0x100) as u8) + 0x1_0000 * ((v / 0x1_0000 % 0x100) as u8)
                + 0x100_0000 * ((v / 0x100_0000 % 0x100) as u8) + 0x1_0000_0000 * ((v / 0x1_0000_0000 % 0x100) as u8)
                + 0x100_0000_0000 * ((v / 0x100_0000_0000 % 0x100) as u8)
                + 0x1_0000_0000_0000 * ((v / 0x1_0000_0000_0000 % 0x100) as u8)
                + 0x100_0000_0000_0000 * ((v / 0x100_0000_0000_0000) as u8)) as u64 == v) by (bit_vector);
        },
        _ => {},
    }
}

} // verus!
