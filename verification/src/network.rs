//! Network target descriptions.
use vstd::prelude::*;

verus! {

/// An IPv4 address as its four octets.
#[derive(Clone, Copy, Debug, PartialEq, Eq)]
pub struct Ipv4Address {
    pub octets: [u8; 4],
}

/// An IPv6 address as its eight 16-bit segments.
#[derive(Clone, Copy, Debug, PartialEq, Eq)]
pub struct Ipv6Address {
    pub segments: [u16; 8],
}

/// A machine to talk to, by one or more of its names and addresses.
#[derive(Clone, Debug, PartialEq, Eq)]
pub struct NetworkTarget {
    pub logical_name: String,
    pub is_local_system: bool,
    pub netbios_name: Option<String>,
    pub dns_name: Option<String>,
    pub ipv4_address: Option<Ipv4Address>,
    pub ipv6_address: Option<Ipv6Address>,
}

/// The name to pass to APIs where no name means the local system: none for
/// the local system, else the NetBIOS name, the DNS name or a non-empty
/// logical name, the first of them that is there.
pub open spec fn machine_name_of(target: NetworkTarget) -> Option<Seq<char>> {
    if target.is_local_system {
        None
    } else if target.netbios_name is Some {
        Some(target.netbios_name->Some_0@)
    } else if target.dns_name is Some {
        Some(target.dns_name->Some_0@)
    } else if target.logical_name@.len() > 0 {
        Some(target.logical_name@)
    } else {
        None
    }
}

impl Default for NetworkTarget {
    fn default() -> (r: Self)
        ensures
            r.logical_name@.len() == 0,
            !r.is_local_system,
            r.netbios_name is None,
            r.dns_name is None,
            r.ipv4_address is None,
            r.ipv6_address is None,
    {
        NetworkTarget {
            logical_name: String::new(),
            is_local_system: false,
            netbios_name: None,
            dns_name: None,
            ipv4_address: None,
            ipv6_address: None,
        }
    }
}

impl NetworkTarget {
    /// The local system, with no names or addresses.
    pub fn local_system() -> (r: Self)
        ensures
            r.is_local_system,
            r.logical_name@.len() == 0,
            r.netbios_name is None,
            r.dns_name is None,
            r.ipv4_address is None,
            r.ipv6_address is None,
    {
        NetworkTarget {
            logical_name: String::new(),
            is_local_system: true,
            netbios_name: None,
            dns_name: None,
            ipv4_address: None,
            ipv6_address: None,
        }
    }

    /// The name for APIs where no name means the local system.
    pub fn machine_name(&self) -> (r: Option<&str>)
        ensures
            match machine_name_of(*self) {
                Some(name) => r matches Some(s) && s@ == name,
                None => r is None,
            },
    {
        if self.is_local_system {
            return None;
        }
        match &self.netbios_name {
            Some(name) => return Some(name.as_str()),
            None => {},
        }
        match &self.dns_name {
            Some(name) => return Some(name.as_str()),
            None => {},
        }
        if self.logical_name.as_str().is_empty() {
            None
        } else {
            Some(self.logical_name.as_str())
        }
    }
}

} // verus!
