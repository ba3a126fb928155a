//! Directory entries: the 32-byte records that name a file or subdirectory,
//! decoded field by field out of the raw directory bytes.
//!
//! An entry array is terminated by the first entry whose name's first byte is
//! zero. Entries are read-only snapshots copied out of the directory region;
//! the driver never writes them back.

use vstd::prelude::*;

use crate::bytes::le16;
use crate::bytes::le32;
use crate::bytes::spec_le16;
use crate::bytes::spec_le32;

verus! {

/// The attribute bit that marks an entry as a subdirectory.
pub const ATTR_DIRECTORY: u8 = 0x10;

/// The number of bytes one directory entry occupies on disk.
pub const ENTRY_SIZE: usize = 32;

/// One 32-byte directory record: a fixed 11-byte space-padded 8.3 name, an
/// attribute bitmask, timestamps, the first cluster of the entry's data, and
/// the byte size of the file.
#[derive(Clone, Copy, Debug, PartialEq, Eq)]
pub struct DirectoryEntry {
    /// The 8.3 name: 8 name bytes then 3 extension bytes, space-padded,
    /// uppercase.
    pub name: [u8; 11],
    /// Attribute bitmask; bit 0x10 marks a subdirectory.
    pub attributes: u8,
    /// Reserved byte after the attributes.
    pub reserved: u8,
    /// Creation time, tenths of a second part.
    pub creation_time_tenths: u8,
    /// Creation time of day.
    pub creation_time: u16,
    /// Creation date.
    pub creation_date: u16,
    /// Last access date.
    pub last_access_date: u16,
    /// High half of the first cluster number; not populated on FAT12.
    pub upper_first_cluster: u16,
    /// Last modification time of day.
    pub last_change_time: u16,
    /// Last modification date.
    pub last_change_date: u16,
    /// Low half of the first cluster number: where the entry's data starts.
    pub lower_first_cluster: u16,
    /// File size in bytes.
    pub file_size: u32,
}

/// Whether the decoded entry `e` holds exactly the fields laid out in the
/// 32 raw bytes `b`.
pub open spec fn spec_entry_represents(e: DirectoryEntry, b: Seq<u8>) -> bool
    recommends
        b.len() == 32,
{
    &&& e.name@ == b.subrange(0, 11)
    &&& e.attributes == b[11]
    &&& e.reserved == b[12]
    &&& e.creation_time_tenths == b[13]
    &&& e.creation_time == spec_le16(b, 14)
    &&& e.creation_date == spec_le16(b, 16)
    &&& e.last_access_date == spec_le16(b, 18)
    &&& e.upper_first_cluster == spec_le16(b, 20)
    &&& e.last_change_time == spec_le16(b, 22)
    &&& e.last_change_date == spec_le16(b, 24)
    &&& e.lower_first_cluster == spec_le16(b, 26)
    &&& e.file_size == spec_le32(b, 28)
}

impl DirectoryEntry {
    /// Decodes the 32-byte record starting at byte `offset` of `b` into a
    /// typed entry, bounds-checked field by field.
    pub fn parse(b: &[u8], offset: usize) -> (e: DirectoryEntry)
        requires
            offset + 32 <= b@.len(),
        ensures
            spec_entry_represents(e, b@.subrange(offset as int, offset as int + 32)),
    {
        let blen: usize = b.len();
        let mut name: [u8; 11] = [0u8; 11];
        let mut i: usize = 0;
        while i < 11
            invariant
                i <= 11,
                offset + 32 <= blen,
                blen == b@.len(),
                forall|j: int| 0 <= j < i ==> name@[j] == b@[offset + j],
            decreases 11 - i,
        {
            name[i] = b[offset + i];
            i = i + 1;
        }
        let e = DirectoryEntry {
            name,
            attributes: b[offset + 11],
            reserved: b[offset + 12],
            creation_time_tenths: b[offset + 13],
            creation_time: le16(b, offset + 14),
            creation_date: le16(b, offset + 16),
            last_access_date: le16(b, offset + 18),
            upper_first_cluster: le16(b, offset + 20),
            last_change_time: le16(b, offset + 22),
            last_change_date: le16(b, offset + 24),
            lower_first_cluster: le16(b, offset + 26),
            file_size: le32(b, offset + 28),
        };
        proof {
            let sub = b@.subrange(offset as int, offset as int + 32);
            assert(e.name@ =~= sub.subrange(0, 11));
            assert(spec_le16(sub, 14) == spec_le16(b@, offset as int + 14));
            assert(spec_le16(sub, 16) == spec_le16(b@, offset as int + 16));
            assert(spec_le16(sub, 18) == spec_le16(b@, offset as int + 18));
            assert(spec_le16(sub, 20) == spec_le16(b@, offset as int + 20));
            assert(spec_le16(sub, 22) == spec_le16(b@, offset as int + 22));
            assert(spec_le16(sub, 24) == spec_le16(b@, offset as int + 24));
            assert(spec_le16(sub, 26) == spec_le16(b@, offset as int + 26));
            assert(spec_le32(sub, 28) == spec_le32(b@, offset as int + 28));
        }
        e
    }

    /// Whether this entry names a subdirectory rather than a file.
    pub fn is_directory(&self) -> (r: bool)
        ensures
            r == (self.attributes & ATTR_DIRECTORY != 0),
    {
        self.attributes & ATTR_DIRECTORY != 0
    }
}

} // verus!
