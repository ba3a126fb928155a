//! The boot sector: the geometry record at the start of the disk, read once,
//! from which every region offset is derived.
//!
//! The disk is laid out as: reserved sectors (the boot sector among them),
//! then the FAT copies, then the fixed root directory, then the cluster
//! region. Cluster numbering starts at 2: the first two FAT entries have no
//! disk presence.

use vstd::prelude::*;

use crate::bytes::le16;
use crate::bytes::spec_le16;

verus! {

/// The fields of the BIOS parameter block and extended boot record that the
/// driver reads. Created once from the sector at address 0, never mutated.
#[derive(Clone, Copy, Debug, PartialEq, Eq, Structural)]
pub struct BootSector {
    /// Bytes per sector as recorded on disk; the driver assumes 512 and does
    /// not check this field.
    pub bytes_per_sector: u16,
    /// Sectors per allocation cluster.
    pub sectors_per_cluster: u8,
    /// Sectors before the FAT region, the boot sector included.
    pub reserved_sectors: u16,
    /// How many copies of the FAT the disk holds.
    pub fat_count: u8,
    /// How many 32-byte entries the fixed root directory holds.
    pub root_entries: u16,
    /// Sectors in one FAT copy.
    pub sectors_per_fat: u16,
    /// The BIOS drive number recorded in the extended boot record.
    pub drive_number: u8,
}

/// The boot-sector fields as laid out in the first sector of the disk.
pub open spec fn spec_parse_boot_sector(sector: Seq<u8>) -> BootSector
    recommends
        sector.len() >= 37,
{
    BootSector {
        bytes_per_sector: spec_le16(sector, 11),
        sectors_per_cluster: sector[13],
        reserved_sectors: spec_le16(sector, 14),
        fat_count: sector[16],
        root_entries: spec_le16(sector, 17),
        sectors_per_fat: spec_le16(sector, 22),
        drive_number: sector[36],
    }
}

impl BootSector {
    /// The sector where the FAT region starts.
    pub open spec fn spec_fat_offset(self) -> int {
        self.reserved_sectors as int
    }

    /// The size in sectors of a single FAT copy.
    pub open spec fn spec_fat_size(self) -> int {
        self.sectors_per_fat as int
    }

    /// The sector where the root directory starts: right after the FAT copies.
    pub open spec fn spec_root_offset(self) -> int {
        self.spec_fat_offset() + self.spec_fat_size() * self.fat_count
    }

    /// The size in sectors of the root directory: 16 entries of 32 bytes per
    /// 512-byte sector.
    pub open spec fn spec_root_size(self) -> int {
        self.root_entries as int / 16
    }

    /// The sector where the cluster region starts: right after the root
    /// directory.
    pub open spec fn spec_cluster_region_offset(self) -> int {
        self.spec_root_offset() + self.spec_root_size()
    }

    /// The size in sectors of a single cluster.
    pub open spec fn spec_cluster_size(self) -> int {
        self.sectors_per_cluster as int
    }

    /// The sector where the given cluster starts. Clusters are numbered from
    /// 2: the first two FAT entries are reserved placeholders.
    pub open spec fn spec_cluster_offset(self, cluster: int) -> int
        recommends
            cluster >= 2,
    {
        self.spec_cluster_region_offset() + self.spec_cluster_size() * (cluster - 2)
    }

    /// A boot sector the driver can work with: at least one sector per
    /// cluster, at least one FAT copy, a root directory of whole sectors, and
    /// region offsets that fit the 16-bit sector addresses the read primitive
    /// takes.
    pub open spec fn wf(self) -> bool {
        &&& self.sectors_per_cluster >= 1
        &&& self.fat_count >= 1
        &&& self.root_entries as int % 16 == 0
        &&& self.spec_cluster_region_offset() <= 0xFFFF
    }

    /// Decodes the boot-sector fields out of the raw first sector.
    pub fn parse(sector: &[u8]) -> (b: BootSector)
        requires
            sector@.len() == 512,
        ensures
            b == spec_parse_boot_sector(sector@),
    {
        BootSector {
            bytes_per_sector: le16(sector, 11),
            sectors_per_cluster: sector[13],
            reserved_sectors: le16(sector, 14),
            fat_count: sector[16],
            root_entries: le16(sector, 17),
            sectors_per_fat: le16(sector, 22),
            drive_number: sector[36],
        }
    }

    /// The sector on the disk where the FAT region starts.
    pub fn get_fat_offset(&self) -> (s: u16)
        ensures
            s == self.spec_fat_offset(),
    {
        self.reserved_sectors
    }

    /// The size in sectors of a single FAT copy.
    pub fn get_fat_size(&self) -> (s: u16)
        ensures
            s == self.spec_fat_size(),
    {
        self.sectors_per_fat
    }

    /// The sector on the disk where the root directory starts, right after
    /// the FAT copies.
    pub fn get_root_offset(&self) -> (s: u16)
        requires
            self.wf(),
        ensures
            s == self.spec_root_offset(),
    {
        self.get_fat_offset() + (self.get_fat_size() * self.fat_count as u16)
    }

    /// The size in sectors of the full root directory.
    pub fn get_root_size(&self) -> (s: u16)
        ensures
            s == self.spec_root_size(),
    {
        self.root_entries / 16
    }

    /// The sector on the disk where the cluster region starts, right after
    /// the root directory.
    pub fn get_cluster_region_offset(&self) -> (s: u16)
        requires
            self.wf(),
        ensures
            s == self.spec_cluster_region_offset(),
    {
        self.get_root_offset() + self.get_root_size()
    }

    /// The sector on the disk where the given cluster starts. The cluster
    /// number must account for the two reserved FAT entries, and its start
    /// must be addressable in 16 bits.
    pub fn get_cluster_offset(&self, cluster: u16) -> (s: u16)
        requires
            self.wf(),
            cluster >= 2,
            self.spec_cluster_offset(cluster as int) <= 0xFFFF,
        ensures
            s == self.spec_cluster_offset(cluster as int),
    {
        self.get_cluster_region_offset() + (self.get_cluster_size() * (cluster - 2))
    }

    /// The size in sectors of a single cluster.
    pub fn get_cluster_size(&self) -> (s: u16)
        ensures
            s == self.spec_cluster_size(),
    {
        self.sectors_per_cluster as u16
    }
}

} // verus!
