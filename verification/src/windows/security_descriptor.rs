//! Snapshots of access-control lists and their comparison.
use vstd::prelude::*;
use crate::windows::security::{bytes_equal, Sid};

verus! {

/// The flag of an access-control entry that was inherited (`INHERITED_ACE`).
pub const INHERITED_ACE: u8 = 0x10;
/// An entry that allows access (`ACCESS_ALLOWED_ACE_TYPE`).
pub const ACCESS_ALLOWED_ACE_TYPE: u8 = 0;
/// An entry that denies access (`ACCESS_DENIED_ACE_TYPE`).
pub const ACCESS_DENIED_ACE_TYPE: u8 = 1;

/// One access-control entry.
#[derive(Clone, Debug, PartialEq, Eq)]
pub struct Ace {
    pub ace_type: u8,
    pub flags: u8,
    pub bytes: Vec<u8>,
    pub access_mask: Option<u32>,
    pub sid: Option<Sid>,
}

/// What an access-control entry holds, as plain values.
pub struct AceData {
    pub ace_type: u8,
    pub flags: u8,
    pub bytes: Seq<u8>,
    pub access_mask: Option<u32>,
    pub sid: Option<Seq<u8>>,
}

impl View for Ace {
    type V = AceData;

    open spec fn view(&self) -> AceData {
        AceData {
            ace_type: self.ace_type,
            flags: self.flags,
            bytes: self.bytes@,
            access_mask: self.access_mask,
            sid: match self.sid {
                Some(s) => Some(s@),
                None => None,
            },
        }
    }
}

/// True when the entry type carries an access mask and a SID.
pub open spec fn has_mask_and_sid(ace_type: u8) -> bool {
    ace_type == ACCESS_ALLOWED_ACE_TYPE || ace_type == ACCESS_DENIED_ACE_TYPE
}

/// The little-endian 32-bit number at bytes 4 to 7.
pub open spec fn mask_at(bytes: Seq<u8>) -> u32 {
    (bytes[4] + 0x100 * bytes[5] + 0x1_0000 * bytes[6] + 0x100_0000 * bytes[7]) as u32
}

impl Ace {
    /// Whether the entry was inherited.
    pub fn is_inherited(&self) -> (r: bool)
        ensures
            r == (self.flags & INHERITED_ACE != 0),
    {
        self.flags & INHERITED_ACE != 0
    }

    /// The access mask of an entry's raw bytes: present for entries that
    /// allow or deny access, where it follows the four-byte header.
    pub fn access_mask_from(ace_type: u8, bytes: &[u8]) -> (r: Option<u32>)
        requires
            has_mask_and_sid(ace_type) ==> bytes@.len() >= 8,
        ensures
            r == if has_mask_and_sid(ace_type) { Some(mask_at(bytes@)) } else { None::<u32> },
    {
        if ace_type == ACCESS_ALLOWED_ACE_TYPE || ace_type == ACCESS_DENIED_ACE_TYPE {
            let (b4, b5, b6, b7) = (bytes[4], bytes[5], bytes[6], bytes[7]);
            let v = (b4 as u32) | ((b5 as u32) << 8) | ((b6 as u32) << 16) | ((b7 as u32) << 24);
            assert(v == (b4 + 0x100 * b5 + 0x1_0000 * b6 + 0x100_0000 * b7) as u32) by (bit_vector)
                requires v == (b4 as u32) | ((b5 as u32) << 8) | ((b6 as u32) << 16) | ((b7 as u32) << 24);
            Some(v)
        } else {
            None
        }
    }

    /// Whether entries of this type carry an access mask and a SID after
    /// their header.
    pub fn carries_mask_and_sid(ace_type: u8) -> (r: bool)
        ensures
            r == has_mask_and_sid(ace_type),
    {
        ace_type == ACCESS_ALLOWED_ACE_TYPE || ace_type == ACCESS_DENIED_ACE_TYPE
    }

    /// The entry whose raw bytes are `bytes`: its type and flags are the
    /// first two header bytes, its access mask follows the four-byte header
    /// for entries that allow or deny access, and `sid` is the identifier
    /// copied from the bytes after the mask.
    pub fn from_entry_bytes(bytes: Vec<u8>, sid: Option<Sid>) -> (r: Ace)
        requires
            bytes@.len() >= 4,
            has_mask_and_sid(bytes@[0]) ==> bytes@.len() >= 8,
        ensures
            r.ace_type == bytes@[0],
            r.flags == bytes@[1],
            r.bytes@ == bytes@,
            r.access_mask == if has_mask_and_sid(bytes@[0]) { Some(mask_at(bytes@)) } else { None::<u32> },
            r.sid == sid,
    {
        let ace_type = bytes[0];
        let flags = bytes[1];
        let access_mask = Self::access_mask_from(ace_type, bytes.as_slice());
        Ace { ace_type, flags, bytes, access_mask, sid }
    }

    /// Whether two entries hold the same values.
    pub fn same_as(&self, other: &Ace) -> (r: bool)
        ensures
            r == (self@ == other@),
    {
        if self.ace_type != other.ace_type || self.flags != other.flags {
            return false;
        }
        if !bytes_equal(self.bytes.as_slice(), other.bytes.as_slice()) {
            return false;
        }
        let masks_equal = match (self.access_mask, other.access_mask) {
            (Some(a), Some(b)) => a == b,
            (None, None) => true,
            _ => false,
        };
        if !masks_equal {
            return false;
        }
        match (&self.sid, &other.sid) {
            (Some(a), Some(b)) => a.same_as(b),
            (None, None) => true,
            _ => false,
        }
    }
}

/// A copy of the entries of an access-control list.
#[derive(Clone, Debug, PartialEq, Eq)]
pub struct AclSnapshot {
    pub entries: Vec<Ace>,
}

impl AclSnapshot {
    /// Whether every entry was inherited.
    pub fn entirely_inherited(&self) -> (r: bool)
        ensures
            r == forall|i: int| 0 <= i < self.entries@.len() ==> #[trigger] self.entries@[i].flags & INHERITED_ACE != 0,
    {
        let mut i: usize = 0;
        while i < self.entries.len()
            invariant
                i <= self.entries@.len(),
                forall|j: int| 0 <= j < i ==> #[trigger] self.entries@[j].flags & INHERITED_ACE != 0,
            decreases self.entries@.len() - i,
        {
            if !self.entries[i].is_inherited() {
                return false;
            }
            i = i + 1;
        }
        true
    }

    /// Whether both snapshots hold the same entries in the same order.
    pub fn effectively_identical(&self, other: &AclSnapshot) -> (r: bool)
        ensures
            r == (self.entries@.len() == other.entries@.len()
                && forall|i: int| 0 <= i < self.entries@.len() ==> #[trigger] self.entries@[i]@ == other.entries@[i]@),
    {
        if self.entries.len() != other.entries.len() {
            return false;
        }
        let mut i: usize = 0;
        while i < self.entries.len()
            invariant
                self.entries@.len() == other.entries@.len(),
                i <= self.entries@.len(),
                forall|j: int| 0 <= j < i ==> #[trigger] self.entries@[j]@ == other.entries@[j]@,
            decreases self.entries@.len() - i,
        {
            if !self.entries[i].same_as(&other.entries[i]) {
                return false;
            }
            i = i + 1;
        }
        true
    }
}

} // verus!
