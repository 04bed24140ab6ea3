//! Service-creation settings and their validation.
use vstd::prelude::*;
use crate::chars::chars_of;
use crate::windows::error::HResult;
use vstd::string::StringSliceAdditionalSpecFns;
use crate::conversion::{encode_utf16, to_utf16};
use crate::data::{encode_multi_sz, multi_sz_encoding};

verus! {

/// Access right to connect to the service control manager.
pub const CONNECT: u32 = 1;
/// Access right to create services.
pub const CREATE_SERVICE: u32 = 2;
/// Access right to enumerate services.
pub const ENUMERATE_SERVICE: u32 = 4;
/// Access right to query a service's configuration.
pub const QUERY_CONFIG: u32 = 1;

/// Every access right to a service (`SERVICE_ALL_ACCESS`).
pub const SERVICE_ALL_ACCESS: u32 = 0xF01FF;
/// A service that runs in its own process (`SERVICE_WIN32_OWN_PROCESS`).
pub const SERVICE_WIN32_OWN_PROCESS: u32 = 0x10;
/// A service started on demand (`SERVICE_DEMAND_START`).
pub const SERVICE_DEMAND_START: u32 = 3;
/// Start-up errors are logged and start-up goes on (`SERVICE_ERROR_NORMAL`).
pub const SERVICE_ERROR_NORMAL: u32 = 1;

/// The settings of a service to create.
#[derive(Clone, Debug)]
pub struct CreateServiceConfig<'a> {
    pub name: &'a str,
    pub display_name: &'a str,
    pub binary_path: &'a str,
    pub desired_access: u32,
    pub service_type: u32,
    pub start_type: u32,
    pub error_control: u32,
    pub load_order_group: Option<&'a str>,
    pub dependencies: Option<&'a [&'a str]>,
    pub account_name: Option<&'a str>,
    pub password: Option<&'a str>,
    pub return_tag_id: bool,
}

/// The configuration the service control manager reports for a service.
#[derive(Clone, Debug, PartialEq, Eq)]
pub struct ServiceConfig {
    pub service_type: u32,
    pub start_type: u32,
    pub error_control: u32,
    pub binary_path: String,
    pub display_name: String,
}

/// True when a service's names are unusable: one of them is empty, the name
/// or display name is longer than 256 bytes, or the name holds a slash or a
/// backslash.
pub open spec fn service_names_invalid(name: &str, display_name: &str, binary_path: &str) -> bool {
    ||| name@.len() == 0
    ||| display_name@.len() == 0
    ||| binary_path@.len() == 0
    ||| name.spec_bytes().len() > 256
    ||| display_name.spec_bytes().len() > 256
    ||| name@.contains('/')
    ||| name@.contains('\\')
}

/// True when a binary path holds a space without being enclosed in quotes.
pub open spec fn unquoted_spaced_path(path: Seq<char>) -> bool {
    path.contains(' ') && !(path.len() > 0 && path[0] == '"' && path.last() == '"')
}

fn holds_char(chars: &Vec<char>, c: char) -> (r: bool)
    ensures
        r == chars@.contains(c),
{
    let mut i: usize = 0;
    while i < chars.len()
        invariant
            i <= chars@.len(),
            forall|j: int| 0 <= j < i ==> chars@[j] != c,
        decreases chars@.len() - i,
    {
        if chars[i] == c {
            assert(chars@[i as int] == c);
            return true;
        }
        i = i + 1;
    }
    false
}

impl<'a> CreateServiceConfig<'a> {
    /// Settings for an own-process, demand-start service with every access
    /// right and normal error control.
    pub fn new(name: &'a str, display_name: &'a str, binary_path: &'a str) -> (r: Self)
        ensures
            r.name == name,
            r.display_name == display_name,
            r.binary_path == binary_path,
            r.desired_access == SERVICE_ALL_ACCESS,
            r.service_type == SERVICE_WIN32_OWN_PROCESS,
            r.start_type == SERVICE_DEMAND_START,
            r.error_control == SERVICE_ERROR_NORMAL,
            r.load_order_group is None,
            r.dependencies is None,
            r.account_name is None,
            r.password is None,
            !r.return_tag_id,
    {
        CreateServiceConfig {
            name,
            display_name,
            binary_path,
            desired_access: SERVICE_ALL_ACCESS,
            service_type: SERVICE_WIN32_OWN_PROCESS,
            start_type: SERVICE_DEMAND_START,
            error_control: SERVICE_ERROR_NORMAL,
            load_order_group: None,
            dependencies: None,
            account_name: None,
            password: None,
            return_tag_id: false,
        }
    }

    /// Rejects unusable names and a binary path that holds a space outside
    /// quotes with `E_INVALIDARG`.
    pub fn validate(&self) -> (r: Result<(), HResult>)
        ensures
            r is Err <==> (service_names_invalid(self.name, self.display_name, self.binary_path)
                || unquoted_spaced_path(self.binary_path@)),
            r matches Err(e) ==> e.0 == 0x8007_0057u32 as i32,
    {
        let name = chars_of(self.name);
        let path = chars_of(self.binary_path);
        let invalid_name = self.name.is_empty() || self.display_name.is_empty() || self.binary_path.is_empty()
            || self.name.as_bytes().len() > 256 || self.display_name.as_bytes().len() > 256 || holds_char(&name, '/')
            || holds_char(&name, '\\');
        let unquoted = holds_char(&path, ' ') && !(path.len() > 0 && path[0] == '"' && path[path.len() - 1] == '"');
        if invalid_name || unquoted {
            Err(HResult::invalid_argument())
        } else {
            Ok(())
        }
    }
}

/// The UTF-16 encodings of a list of texts.
pub open spec fn utf16_list(values: Seq<&str>) -> Seq<Seq<u16>> {
    Seq::new(values.len(), |i: int| encode_utf16(values[i]@))
}

/// The dependency list handed to the service control manager: none when
/// there are no dependencies, else each name in UTF-16 in a NUL-separated
/// list ending in two NULs.
pub fn dependency_units(dependencies: Option<&[&str]>) -> (r: Option<Vec<u16>>)
    requires
        dependencies matches Some(values) ==> forall|i: int| 0 <= i < values@.len() ==> #[trigger] values@[i]@.len() > 0,
    ensures
        match dependencies {
            Some(values) if values@.len() > 0 => r matches Some(units)
                && multi_sz_encoding(utf16_list(values@)) == Ok::<Seq<u16>, crate::data::MultiSzError>(units@),
            _ => r is None,
        },
{
    match dependencies {
        Some(values) => {
            if values.len() == 0 {
                return None;
            }
            let mut wide: Vec<Vec<u16>> = Vec::new();
            let mut i: usize = 0;
            while i < values.len()
                invariant
                    i <= values@.len(),
                    wide@.len() == i,
                    forall|k: int| 0 <= k < i ==> #[trigger] wide@[k]@ == encode_utf16(values@[k]@),
                decreases values@.len() - i,
            {
                wide.push(to_utf16(values[i]));
                i = i + 1;
            }
            let mut slices: Vec<&[u16]> = Vec::new();
            let mut j: usize = 0;
            while j < wide.len()
                invariant
                    j <= wide@.len(),
                    slices@.len() == j,
                    forall|k: int| 0 <= k < j ==> #[trigger] slices@[k]@ == wide@[k]@,
                decreases wide@.len() - j,
            {
                slices.push(wide[j].as_slice());
                j = j + 1;
            }
            assert(slices@.map_values(|v: &[u16]| v@) =~= utf16_list(values@));
            proof {
                assert forall|k: int| 0 <= k < values@.len() implies #[trigger] utf16_list(values@)[k].len() > 0 by {
                    assert(values@[k]@.len() > 0);
                    crate::windows::registry::lemma_encode_nonempty(values@[k]@);
                }
            }
            match encode_multi_sz(slices.as_slice()) {
                Ok(units) => Some(units),
                Err(_) => None,
            }
        },
        None => None,
    }
}

} // verus!
