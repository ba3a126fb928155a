//! The FAT12 driver root: owns the disk, the boot-sector snapshot and the two
//! single-sector caches, and exposes the open/read operations.
//!
//! Memory use is deliberately bounded: only one sector of the FAT and one
//! sector of the root directory are resident at a time, and a region miss
//! costs exactly one disk read.

use vstd::arithmetic::div_mod::lemma_fundamental_div_mod;
use vstd::prelude::*;

use crate::FsError;
use crate::bootsector::BootSector;
use crate::bootsector::spec_parse_boot_sector;
use crate::chain::lemma_chain_fuel_normalize;
use crate::chain::lemma_read_step_back;
use crate::chain::lemma_read_step_rest;
use crate::chain::lemma_rest_content_len;
use crate::chain::spec_chain_content;
use crate::chain::spec_chain_fuel;
use crate::chain::spec_read_step;
use crate::chain::spec_rest_content;
use crate::chain::spec_valid_cluster;
use crate::names::lemma_ext_index;
use crate::names::spec_ext_index;
use crate::names::spec_normalize_name;
use crate::names::spec_upper;
use crate::names::to_upper;
use crate::codec;
use crate::device::Disk;
use crate::device::SECTOR_SIZE;
use crate::device::spec_chs_to_lba;
use crate::directory::DirectoryEntry;
use crate::directory::spec_entry_represents;
use crate::file::File;
use crate::path::lemma_seg_len;
use crate::path::spec_resolve_from;
use crate::path::spec_resolve_segments;
use crate::path::spec_seg_len;
use crate::path::spec_segment_read_budget;
use crate::path::spec_split_segments;

verus! {

/// The bytes of the sector at linear address `lba` of a raw disk.
pub open spec fn spec_sector_bytes(disk: Seq<u8>, lba: int) -> Seq<u8> {
    disk.subrange(lba * (SECTOR_SIZE as int), (lba + 1) * (SECTOR_SIZE as int))
}

/// The byte at index `i` of the FAT region of a raw disk.
pub open spec fn spec_fat_byte(disk: Seq<u8>, boot: BootSector, i: int) -> u8 {
    disk[boot.spec_fat_offset() * (SECTOR_SIZE as int) + i]
}

/// The FAT entry for `cluster`, read straight out of the first FAT copy of a
/// raw disk.
pub open spec fn spec_disk_fat_entry(disk: Seq<u8>, boot: BootSector, cluster: int) -> u16 {
    let i = codec::entry_byte_index(cluster);
    if cluster % 2 == 0 {
        codec::decode_even(spec_fat_byte(disk, boot, i), spec_fat_byte(disk, boot, i + 1))
    } else {
        codec::decode_odd(spec_fat_byte(disk, boot, i), spec_fat_byte(disk, boot, i + 1))
    }
}

/// Reading a FAT entry out of the whole disk and reading it out of the FAT
/// region taken by itself agree: the driver's decode is the codec's decode
/// of the first FAT copy's bytes.
pub proof fn lemma_disk_fat_entry_is_table_entry(disk: Seq<u8>, boot: BootSector, cluster: int)
    requires
        0 <= cluster,
        boot.spec_fat_offset() * (SECTOR_SIZE as int) >= 0,
        codec::entry_byte_index(cluster) + 1 < boot.spec_fat_size() * (SECTOR_SIZE as int),
        (boot.spec_fat_offset() + boot.spec_fat_size()) * (SECTOR_SIZE as int) <= disk.len(),
    ensures
        spec_disk_fat_entry(disk, boot, cluster) == codec::fat_entry(
            disk.subrange(
                boot.spec_fat_offset() * (SECTOR_SIZE as int),
                (boot.spec_fat_offset() + boot.spec_fat_size()) * (SECTOR_SIZE as int),
            ),
            cluster,
        ),
{
    let lo = boot.spec_fat_offset() * (SECTOR_SIZE as int);
    let hi = (boot.spec_fat_offset() + boot.spec_fat_size()) * (SECTOR_SIZE as int);
    assert(hi == lo + boot.spec_fat_size() * (SECTOR_SIZE as int)) by (nonlinear_arith)
        requires
            lo == boot.spec_fat_offset() * (SECTOR_SIZE as int),
            hi == (boot.spec_fat_offset() + boot.spec_fat_size()) * (SECTOR_SIZE as int),
    ;
    let table = disk.subrange(lo, hi);
    let i = codec::entry_byte_index(cluster);
    assert(table[i] == disk[lo + i]);
    assert(table[i + 1] == disk[lo + i + 1]);
}

/// Whether a parsed boot sector describes a filesystem the driver accepts on
/// a disk with the given contents: sane geometry, and FAT and root-directory
/// regions that lie within the disk.
pub open spec fn spec_boot_accept(disk: Seq<u8>, boot: BootSector) -> bool {
    &&& boot.wf()
    &&& (boot.spec_root_offset() + boot.spec_root_size()) * (SECTOR_SIZE as int) <= disk.len()
}

/// The FAT12 driver: the disk it reads, the boot-sector snapshot, and one
/// cached sector each for the FAT region and the root-directory region.
pub struct FS {
    disk: Disk,
    boot_sector: BootSector,
    fat_buffer: Vec<u8>,
    root_buffer: Vec<u8>,
    fat_sector: usize,
    root_sector: usize,
}

impl FS {
    /// The disk this driver reads.
    pub closed spec fn spec_disk(self) -> Disk {
        self.disk
    }

    /// The boot-sector snapshot taken when the driver was opened.
    pub closed spec fn spec_boot(self) -> BootSector {
        self.boot_sector
    }

    /// The region-relative FAT sector currently cached, 1-based; 0 when the
    /// cache is empty.
    pub closed spec fn spec_fat_sector(self) -> int {
        self.fat_sector as int
    }

    /// The bytes of the cached FAT sector.
    pub closed spec fn spec_fat_buffer(self) -> Seq<u8> {
        self.fat_buffer@
    }

    /// The region-relative root-directory sector currently cached, 1-based;
    /// 0 when the cache is empty.
    pub closed spec fn spec_root_sector(self) -> int {
        self.root_sector as int
    }

    /// The bytes of the cached root-directory sector.
    pub closed spec fn spec_root_buffer(self) -> Seq<u8> {
        self.root_buffer@
    }

    /// The driver invariant: the boot sector is one the driver accepts for
    /// this disk, and whatever sector either cache holds is exactly the
    /// corresponding sector of the disk.
    pub open spec fn inv(self) -> bool {
        &&& self.spec_disk().wf()
        &&& spec_boot_accept(self.spec_disk().contents(), self.spec_boot())
        &&& self.spec_fat_buffer().len() == SECTOR_SIZE
        &&& self.spec_root_buffer().len() == SECTOR_SIZE
        &&& (self.spec_fat_sector() == 0 || (1 <= self.spec_fat_sector()
            <= self.spec_boot().spec_fat_size() && self.spec_fat_buffer() == spec_sector_bytes(
            self.spec_disk().contents(),
            self.spec_boot().spec_fat_offset() + self.spec_fat_sector() - 1,
        )))
        &&& (self.spec_root_sector() == 0 || (1 <= self.spec_root_sector()
            <= self.spec_boot().spec_root_size() && self.spec_root_buffer() == spec_sector_bytes(
            self.spec_disk().contents(),
            self.spec_boot().spec_root_offset() + self.spec_root_sector() - 1,
        )))
    }

    /// Whether byte index `i` of the FAT region lies in the cached FAT
    /// sector, so that reading it costs no disk read.
    pub open spec fn fat_resident(self, i: int) -> bool {
        &&& self.spec_fat_sector() >= 1
        &&& (self.spec_fat_sector() - 1) * (SECTOR_SIZE as int) <= i < self.spec_fat_sector() * (
        SECTOR_SIZE as int)
    }

    /// How many sector reads the underlying disk has served.
    pub fn disk_read_count(&self) -> (n: u64)
        ensures
            n == self.spec_disk().spec_reads(),
    {
        self.disk.read_count()
    }

    /// The boot-sector snapshot taken when the driver was opened.
    pub fn boot(&self) -> (b: BootSector)
        ensures
            b == self.spec_boot(),
    {
        self.boot_sector
    }

    /// Translates a linear sector address into the physical
    /// cylinder/head/sector coordinates the read primitive takes. The
    /// divisors come from a successful geometry query and must be non-zero.
    pub fn lba_to_chs(lba: u16, max_sectors: u8, max_heads: u8) -> (r: (u16, u8, u8))
        requires
            max_sectors >= 1,
            max_heads >= 1,
        ensures
            r.0 == lba as int / max_sectors as int / max_heads as int,
            r.1 == (lba as int / max_sectors as int) % (max_heads as int),
            r.2 == lba as int % (max_sectors as int) + 1,
    {
        let max_sectors = max_sectors as u16;
        let max_heads = max_heads as u16;
        ((lba / max_sectors) / max_heads, ((lba / max_sectors) % max_heads) as u8, ((lba
            % max_sectors) + 1) as u8)
    }

    /// Loads `count` sectors starting at linear address `lba` from the disk,
    /// translating the address to physical coordinates first. Succeeds
    /// exactly when the transfer lies within the disk.
    fn read_disk(&mut self, lba: u16, count: u8) -> (r: Result<Vec<u8>, FsError>)
        requires
            old(self).spec_disk().wf(),
            old(self).spec_disk().spec_reads() < u64::MAX,
        ensures
            final(self).spec_disk().wf(),
            final(self).spec_disk().contents() == old(self).spec_disk().contents(),
            final(self).spec_disk().spec_heads() == old(self).spec_disk().spec_heads(),
            final(self).spec_disk().spec_sectors_per_track() == old(
                self,
            ).spec_disk().spec_sectors_per_track(),
            final(self).spec_boot() == old(self).spec_boot(),
            final(self).spec_fat_sector() == old(self).spec_fat_sector(),
            final(self).spec_fat_buffer() == old(self).spec_fat_buffer(),
            final(self).spec_root_sector() == old(self).spec_root_sector(),
            final(self).spec_root_buffer() == old(self).spec_root_buffer(),
            (lba + count) * (SECTOR_SIZE as int) <= old(self).spec_disk().contents().len() ==> {
                &&& r matches Ok(v)
                &&& v@ == old(self).spec_disk().contents().subrange(
                    lba * (SECTOR_SIZE as int),
                    (lba + count) * (SECTOR_SIZE as int),
                )
                &&& final(self).spec_disk().spec_reads() == old(self).spec_disk().spec_reads() + 1
            },
            (lba + count) * (SECTOR_SIZE as int) > old(self).spec_disk().contents().len() ==> {
                &&& r matches Err(e) && e == FsError::Io
                &&& final(self).spec_disk().spec_reads() == old(self).spec_disk().spec_reads()
            },
    {
        let max_sectors = self.disk.sectors_per_track();
        let max_heads = self.disk.heads();
        let (cylinder, head, sector) = FS::lba_to_chs(lba, max_sectors, max_heads);
        proof {
            let spt = max_sectors as int;
            let hds = max_heads as int;
            let q = lba as int / spt;
            lemma_fundamental_div_mod(q, hds);
            lemma_fundamental_div_mod(lba as int, spt);
            assert((q / hds) * hds + q % hds == q) by (nonlinear_arith)
                requires
                    hds >= 1,
                    q == hds * (q / hds) + q % hds,
            ;
            assert((q / hds * hds + q % hds) * spt == q * spt) by (nonlinear_arith)
                requires
                    q / hds * hds + q % hds == q,
            ;
            assert(q * spt + lba as int % spt == lba as int) by (nonlinear_arith)
                requires
                    spt >= 1,
                    q == lba as int / spt,
                    lba as int == spt * (lba as int / spt) + lba as int % spt,
            ;
            assert(spec_chs_to_lba(cylinder, head, sector, max_heads, max_sectors) == lba as int);
            assert(sector >= 1 && sector <= max_sectors);
            assert(head < max_heads) by {
                vstd::arithmetic::div_mod::lemma_mod_bound(q, hds);
            }
        }
        self.disk.read_chs(cylinder, head, sector, count)
    }
}

/// A zeroed sector-sized buffer, used to seed the caches before anything is
/// resident.
fn zero_sector() -> (v: Vec<u8>)
    ensures
        v@.len() == SECTOR_SIZE,
{
    let mut v: Vec<u8> = Vec::new();
    let mut i: usize = 0;
    while i < SECTOR_SIZE
        invariant
            v@.len() == i,
            i <= SECTOR_SIZE,
        decreases SECTOR_SIZE - i,
    {
        v.push(0u8);
        i = i + 1;
    }
    v
}

impl FS {
    /// Opens the FAT12 filesystem on the given disk: reads the boot sector,
    /// takes the geometry snapshot, and starts with both caches empty.
    ///
    /// Fails with an I/O error when the disk cannot serve the boot-sector
    /// read, and with a bounds error when the boot sector describes a
    /// geometry the driver cannot address.
    pub fn new(disk: Disk) -> (r: Result<FS, FsError>)
        requires
            disk.wf(),
            disk.spec_reads() < u64::MAX,
        ensures
            ({
                let c = disk.contents();
                let parsed = spec_parse_boot_sector(spec_sector_bytes(c, 0));
                &&& (c.len() >= SECTOR_SIZE && spec_boot_accept(c, parsed)) ==> {
                    &&& r matches Ok(fs)
                    &&& fs.inv()
                    &&& fs.spec_boot() == parsed
                    &&& fs.spec_disk().contents() == c
                    &&& fs.spec_disk().spec_heads() == disk.spec_heads()
                    &&& fs.spec_disk().spec_sectors_per_track() == disk.spec_sectors_per_track()
                    &&& fs.spec_disk().spec_reads() == disk.spec_reads() + 1
                    &&& fs.spec_fat_sector() == 0
                    &&& fs.spec_root_sector() == 0
                }
                &&& c.len() < SECTOR_SIZE ==> (r matches Err(e) && e == FsError::Io)
                &&& (c.len() >= SECTOR_SIZE && !spec_boot_accept(c, parsed)) ==> (r matches Err(e)
                    && e == FsError::Bounds)
            }),
    {
        let mut disk = disk;
        proof {
            assert(spec_chs_to_lba(0, 0, 1, disk.spec_heads(), disk.spec_sectors_per_track())
                == 0) by (nonlinear_arith);
        }
        let sector0 = match disk.read_chs(0, 0, 1, 1) {
            Ok(v) => v,
            Err(e) => {
                return Err(e);
            },
        };
        let boot_sector = BootSector::parse(sector0.as_slice());
        if !(boot_sector.sectors_per_cluster >= 1 && boot_sector.fat_count >= 1
            && boot_sector.root_entries % 16 == 0) {
            return Err(FsError::Bounds);
        }
        proof {
            assert((boot_sector.sectors_per_fat as int) * (boot_sector.fat_count as int) <= 0xFFFF
                * 0xFF) by (nonlinear_arith)
                requires
                    boot_sector.sectors_per_fat <= 0xFFFF,
                    boot_sector.fat_count <= 0xFF,
            ;
        }
        let region_end: u32 = boot_sector.reserved_sectors as u32 + boot_sector.sectors_per_fat
            as u32 * boot_sector.fat_count as u32 + boot_sector.root_entries as u32 / 16;
        if region_end > 0xFFFF {
            return Err(FsError::Bounds);
        }
        if region_end as u64 * SECTOR_SIZE as u64 > disk.size() as u64 {
            return Err(FsError::Bounds);
        }
        Ok(
            FS {
                disk,
                boot_sector,
                fat_buffer: zero_sector(),
                root_buffer: zero_sector(),
                fat_sector: 0,
                root_sector: 0,
            },
        )
    }

    /// Reads the byte at the given index of the FAT region through the FAT
    /// cache. A request outside the cached sector loads the owning sector
    /// with exactly one disk read; a request inside it costs no read at all.
    /// An index outside the FAT is a bounds error and touches nothing.
    pub fn fat_buffer_read(&mut self, entry_index: usize) -> (r: Result<u8, FsError>)
        requires
            old(self).inv(),
            old(self).spec_disk().spec_reads() < u64::MAX,
        ensures
            final(self).inv(),
            final(self).spec_disk().contents() == old(self).spec_disk().contents(),
            final(self).spec_disk().spec_heads() == old(self).spec_disk().spec_heads(),
            final(self).spec_disk().spec_sectors_per_track() == old(
                self,
            ).spec_disk().spec_sectors_per_track(),
            final(self).spec_boot() == old(self).spec_boot(),
            final(self).spec_root_sector() == old(self).spec_root_sector(),
            final(self).spec_root_buffer() == old(self).spec_root_buffer(),
            entry_index < old(self).spec_boot().spec_fat_size() * (SECTOR_SIZE as int) ==> {
                &&& r matches Ok(b) && b == spec_fat_byte(
                    old(self).spec_disk().contents(),
                    old(self).spec_boot(),
                    entry_index as int,
                )
                &&& final(self).spec_fat_sector() == entry_index as int / (SECTOR_SIZE as int) + 1
                &&& final(self).spec_disk().spec_reads() == old(self).spec_disk().spec_reads() + (
                if old(self).fat_resident(entry_index as int) {
                    0int
                } else {
                    1int
                })
            },
            entry_index >= old(self).spec_boot().spec_fat_size() * (SECTOR_SIZE as int) ==> {
                &&& r matches Err(e) && e == FsError::Bounds
                &&& final(self).spec_fat_sector() == old(self).spec_fat_sector()
                &&& final(self).spec_fat_buffer() == old(self).spec_fat_buffer()
                &&& final(self).spec_disk().spec_reads() == old(self).spec_disk().spec_reads()
            },
    {
        let fat_size: u16 = self.boot_sector.get_fat_size();
        if entry_index >= fat_size as usize * SECTOR_SIZE {
            return Err(FsError::Bounds);
        }
        let resident = self.fat_sector >= 1 && (self.fat_sector - 1) * SECTOR_SIZE <= entry_index
            && entry_index < self.fat_sector * SECTOR_SIZE;
        if !resident {
            let needed: usize = entry_index / SECTOR_SIZE + 1;
            proof {
                lemma_fundamental_div_mod(entry_index as int, SECTOR_SIZE as int);
                assert(entry_index as int / (SECTOR_SIZE as int) < fat_size as int)
                    by (nonlinear_arith)
                    requires
                        (entry_index as int) < (fat_size as int) * (SECTOR_SIZE as int),
                        entry_index as int == (SECTOR_SIZE as int) * (entry_index as int / (
                        SECTOR_SIZE as int)) + entry_index as int % (SECTOR_SIZE as int),
                        0 <= entry_index as int % (SECTOR_SIZE as int) < (SECTOR_SIZE as int),
                ;
                let b = self.boot_sector;
                assert(b.spec_fat_size() * 1 <= b.spec_fat_size() * b.fat_count as int)
                    by (nonlinear_arith)
                    requires
                        b.fat_count >= 1,
                        b.spec_fat_size() >= 0,
                ;
            }
            let lba: u16 = self.boot_sector.get_fat_offset() + needed as u16 - 1;
            let data = match self.read_disk(lba, 1) {
                Ok(v) => v,
                Err(e) => {
                    proof {
                        let b = self.boot_sector;
                        assert((lba as int + 1) * (SECTOR_SIZE as int) <= (b.spec_root_offset()
                            + b.spec_root_size()) * (SECTOR_SIZE as int)) by (nonlinear_arith)
                            requires
                                lba as int + 1 <= b.spec_root_offset() + b.spec_root_size(),
                        ;
                        assert(false);
                    }
                    return Err(e);
                },
            };
            proof {
                let b = self.boot_sector;
                assert((lba as int + 1) * (SECTOR_SIZE as int) <= (b.spec_root_offset()
                    + b.spec_root_size()) * (SECTOR_SIZE as int)) by (nonlinear_arith)
                    requires
                        lba as int + 1 <= b.spec_root_offset() + b.spec_root_size(),
                ;
            }
            self.fat_buffer = data;
            self.fat_sector = needed;
        }
        proof {
            lemma_fundamental_div_mod(entry_index as int, SECTOR_SIZE as int);
            assert((self.spec_fat_sector() - 1) * (SECTOR_SIZE as int) == self.spec_fat_sector() * (
            SECTOR_SIZE as int) - (SECTOR_SIZE as int)) by (nonlinear_arith);
            assert(entry_index as int / (SECTOR_SIZE as int) == self.spec_fat_sector() - 1)
                by (nonlinear_arith)
                requires
                    (self.spec_fat_sector() - 1) * (SECTOR_SIZE as int) <= entry_index as int,
                    (entry_index as int) < self.spec_fat_sector() * (SECTOR_SIZE as int),
                    entry_index as int == (SECTOR_SIZE as int) * (entry_index as int / (SECTOR_SIZE
                        as int)) + entry_index as int % (SECTOR_SIZE as int),
                    0 <= entry_index as int % (SECTOR_SIZE as int) < (SECTOR_SIZE as int),
            ;
        }
        let rel: usize = entry_index % SECTOR_SIZE;
        proof {
            let b = self.boot_sector;
            let c = self.disk.contents();
            let fs = self.spec_fat_sector();
            assert(b.spec_fat_size() * 1 <= b.spec_fat_size() * b.fat_count as int)
                by (nonlinear_arith)
                requires
                    b.fat_count >= 1,
                    b.spec_fat_size() >= 0,
            ;
            assert((b.spec_fat_offset() + fs) * (SECTOR_SIZE as int) <= (b.spec_root_offset()
                + b.spec_root_size()) * (SECTOR_SIZE as int)) by (nonlinear_arith)
                requires
                    b.spec_fat_offset() + fs <= b.spec_root_offset() + b.spec_root_size(),
            ;
            assert((b.spec_fat_offset() + fs - 1) * (SECTOR_SIZE as int) == b.spec_fat_offset() * (
            SECTOR_SIZE as int) + (fs - 1) * (SECTOR_SIZE as int)) by (nonlinear_arith);
            assert(self.spec_fat_buffer()[rel as int] == c[(b.spec_fat_offset() + fs - 1) * (
            SECTOR_SIZE as int) + rel as int]);
            assert((fs - 1) * (SECTOR_SIZE as int) + rel as int == entry_index as int);
            assert(self.spec_fat_buffer()[rel as int] == spec_fat_byte(c, b, entry_index as int));
        }
        Ok(self.fat_buffer[rel])
    }

    /// Reads the cluster-chain link stored in the FAT for the given cluster,
    /// decoding the packed 12-bit entry through the FAT cache. A cluster
    /// whose packed bytes fall outside the FAT is a bounds error.
    pub fn fat_entry_read(&mut self, cluster: u16) -> (r: Result<u16, FsError>)
        requires
            old(self).inv(),
            old(self).spec_disk().spec_reads() + 2 <= u64::MAX,
        ensures
            final(self).inv(),
            final(self).spec_disk().contents() == old(self).spec_disk().contents(),
            final(self).spec_disk().spec_heads() == old(self).spec_disk().spec_heads(),
            final(self).spec_disk().spec_sectors_per_track() == old(
                self,
            ).spec_disk().spec_sectors_per_track(),
            final(self).spec_boot() == old(self).spec_boot(),
            final(self).spec_root_sector() == old(self).spec_root_sector(),
            final(self).spec_root_buffer() == old(self).spec_root_buffer(),
            old(self).spec_disk().spec_reads() <= final(self).spec_disk().spec_reads() <= old(
                self,
            ).spec_disk().spec_reads() + 2,
            codec::entry_byte_index(cluster as int) + 1 < old(self).spec_boot().spec_fat_size() * (
            SECTOR_SIZE as int) ==> r == Ok::<u16, FsError>(
                spec_disk_fat_entry(
                    old(self).spec_disk().contents(),
                    old(self).spec_boot(),
                    cluster as int,
                ),
            ),
            codec::entry_byte_index(cluster as int) + 1 >= old(self).spec_boot().spec_fat_size() * (
            SECTOR_SIZE as int) ==> r == Err::<u16, FsError>(FsError::Bounds),
    {
        let i: usize = cluster as usize * 3 / 2;
        let lsb_raw: u8 = match self.fat_buffer_read(i) {
            Ok(v) => v,
            Err(e) => {
                return Err(e);
            },
        };
        let msb_raw: u8 = match self.fat_buffer_read(i + 1) {
            Ok(v) => v,
            Err(e) => {
                return Err(e);
            },
        };
        let ghost b0 = lsb_raw;
        let ghost b1 = msb_raw;
        if cluster % 2 == 0 {
            let word: u16 = ((msb_raw & 0x0F) as u16) * 256 + lsb_raw as u16;
            let entry: u16 = word & 0x0FFF;
            proof {
                assert(word & 0x0FFF == codec::decode_even(b0, b1)) by (bit_vector)
                    requires
                        word as int == ((b1 & 0x0Fu8) as u16 as int) * 256 + (b0 as int),
                ;
            }
            Ok(entry)
        } else {
            let word: u16 = (msb_raw as u16) * 256 + (lsb_raw & 0xF0) as u16;
            let entry: u16 = (word >> 4u16) & 0x0FFF;
            proof {
                assert((word >> 4u16) & 0x0FFF == codec::decode_odd(b0, b1)) by (bit_vector)
                    requires
                        word as int == (b1 as u16 as int) * 256 + ((b0 & 0xF0u8) as int),
                ;
            }
            Ok(entry)
        }
    }
}

/// The 32 raw bytes of entry `i` of the fixed root directory.
pub open spec fn spec_root_entry_bytes(disk: Seq<u8>, boot: BootSector, i: int) -> Seq<u8> {
    disk.subrange(
        boot.spec_root_offset() * (SECTOR_SIZE as int) + i * 32,
        boot.spec_root_offset() * (SECTOR_SIZE as int) + i * 32 + 32,
    )
}

/// The result of scanning the root directory for `name` from entry index `i`
/// on: the index of the first entry whose 11-byte name equals `name`, or
/// nothing if the scan first runs into the end of the table or an entry
/// whose name starts with a zero byte (the terminator).
pub open spec fn spec_root_find(disk: Seq<u8>, boot: BootSector, name: Seq<u8>, i: int) -> Option<
    int,
>
    decreases boot.root_entries - i,
{
    if i < 0 || i >= boot.root_entries {
        None
    } else {
        let e = spec_root_entry_bytes(disk, boot, i);
        if e[0] == 0 {
            None
        } else if e.subrange(0, 11) == name {
            Some(i)
        } else {
            spec_root_find(disk, boot, name, i + 1)
        }
    }
}

/// The entry index at which a root-directory scan for `name` stops: the
/// first match or terminator, or the entry count if neither occurs. No entry
/// past this index is ever inspected.
pub open spec fn spec_root_stop(disk: Seq<u8>, boot: BootSector, name: Seq<u8>, i: int) -> int
    decreases boot.root_entries - i,
{
    if i < 0 || i >= boot.root_entries {
        i
    } else {
        let e = spec_root_entry_bytes(disk, boot, i);
        if e[0] == 0 {
            i
        } else if e.subrange(0, 11) == name {
            i
        } else {
            spec_root_stop(disk, boot, name, i + 1)
        }
    }
}

impl FS {
    /// Searches the fixed root directory for the entry whose 11-byte name
    /// equals `name`. The scan walks entry indices in order through the
    /// directory cache, stops at the first entry whose name starts with a
    /// zero byte, and never reads a sector beyond the one where it stopped.
    pub fn get_entry_from_root(&mut self, name: &[u8]) -> (r: Result<
        Option<DirectoryEntry>,
        FsError,
    >)
        requires
            old(self).inv(),
            name@.len() == 11,
            old(self).spec_disk().spec_reads() + old(self).spec_boot().spec_root_size() + 1
                <= u64::MAX,
        ensures
            final(self).inv(),
            final(self).spec_disk().contents() == old(self).spec_disk().contents(),
            final(self).spec_disk().spec_heads() == old(self).spec_disk().spec_heads(),
            final(self).spec_disk().spec_sectors_per_track() == old(
                self,
            ).spec_disk().spec_sectors_per_track(),
            final(self).spec_boot() == old(self).spec_boot(),
            final(self).spec_fat_sector() == old(self).spec_fat_sector(),
            final(self).spec_fat_buffer() == old(self).spec_fat_buffer(),
            ({
                let c = old(self).spec_disk().contents();
                let b = old(self).spec_boot();
                let found = spec_root_find(c, b, name@, 0);
                &&& (found matches Some(i) ==> (r matches Ok(o) && o matches Some(e)
                    && spec_entry_represents(e, spec_root_entry_bytes(c, b, i))))
                &&& (found is None ==> r == Ok::<Option<DirectoryEntry>, FsError>(None))
                &&& final(self).spec_disk().spec_reads() <= old(self).spec_disk().spec_reads()
                    + spec_root_stop(c, b, name@, 0) / 16 + 1
            }),
            final(self).spec_disk().spec_reads() <= old(self).spec_disk().spec_reads() + old(
                self,
            ).spec_boot().spec_root_size() + 1,
    {
        let ghost c = self.spec_disk().contents();
        let ghost b = self.spec_boot();
        let ghost old_reads = self.spec_disk().spec_reads();
        let root_entries: u16 = self.boot_sector.root_entries;
        let mut entry_index: usize = 0;
        while entry_index < root_entries as usize
            invariant
                old(self).inv(),
                name@.len() == 11,
                old_reads + old(self).spec_boot().spec_root_size() + 1 <= u64::MAX,
                c == old(self).spec_disk().contents(),
                b == old(self).spec_boot(),
                old_reads == old(self).spec_disk().spec_reads(),
                root_entries == b.root_entries,
                entry_index <= root_entries,
                self.inv(),
                self.spec_disk().contents() == c,
                self.spec_disk().spec_heads() == old(self).spec_disk().spec_heads(),
                self.spec_disk().spec_sectors_per_track() == old(
                    self,
                ).spec_disk().spec_sectors_per_track(),
                self.spec_boot() == b,
                self.spec_fat_sector() == old(self).spec_fat_sector(),
                self.spec_fat_buffer() == old(self).spec_fat_buffer(),
                spec_root_find(c, b, name@, entry_index as int) == spec_root_find(c, b, name@, 0),
                spec_root_stop(c, b, name@, entry_index as int) == spec_root_stop(c, b, name@, 0),
                entry_index > 0 ==> self.spec_root_sector() == (entry_index - 1) as int / 16 + 1,
                self.spec_disk().spec_reads() <= old_reads + (if entry_index == 0 {
                    0int
                } else {
                    (entry_index - 1) as int / 16 + 1
                }),
            decreases root_entries as usize - entry_index,
        {
            proof {
                lemma_fundamental_div_mod(entry_index as int, 16);
                lemma_fundamental_div_mod(b.root_entries as int, 16);
                vstd::arithmetic::div_mod::lemma_div_is_ordered(
                    entry_index as int,
                    b.root_entries as int - 1,
                    16,
                );
            }
            let resident = self.root_sector >= 1 && (self.root_sector - 1) * 16 <= entry_index
                && entry_index < self.root_sector * 16;
            if !resident {
                let needed: usize = entry_index / 16 + 1;
                let lba: u16 = self.boot_sector.get_root_offset() + needed as u16 - 1;
                proof {
                    assert((lba as int + 1) * (SECTOR_SIZE as int) <= (b.spec_root_offset()
                        + b.spec_root_size()) * (SECTOR_SIZE as int)) by (nonlinear_arith)
                        requires
                            lba as int + 1 <= b.spec_root_offset() + b.spec_root_size(),
                    ;
                }
                let data = match self.read_disk(lba, 1) {
                    Ok(v) => v,
                    Err(e) => {
                        proof {
                            assert(false);
                        }
                        return Err(e);
                    },
                };
                self.root_buffer = data;
                self.root_sector = needed;
            }
            proof {
                lemma_fundamental_div_mod(entry_index as int, 16);
                assert((self.spec_root_sector() - 1) * 16 == self.spec_root_sector() * 16 - 16)
                    by (nonlinear_arith);
                assert(entry_index as int / 16 == self.spec_root_sector() - 1) by (nonlinear_arith)
                    requires
                        (self.spec_root_sector() - 1) * 16 <= entry_index as int,
                        (entry_index as int) < self.spec_root_sector() * 16,
                        entry_index as int == 16 * (entry_index as int / 16) + entry_index as int
                            % 16,
                        0 <= entry_index as int % 16 < 16,
                ;
            }
            let rel: usize = entry_index % 16;
            proof {
                let ro = b.spec_root_offset();
                let s = self.spec_root_sector();
                assert((ro + s - 1) * (SECTOR_SIZE as int) == ro * (SECTOR_SIZE as int) + (s - 1) * (
                SECTOR_SIZE as int)) by (nonlinear_arith);
                assert((ro + s) * (SECTOR_SIZE as int) <= (ro + b.spec_root_size()) * (SECTOR_SIZE
                    as int)) by (nonlinear_arith)
                    requires
                        ro + s <= ro + b.spec_root_size(),
                ;
                assert(self.spec_root_buffer().subrange(rel as int * 32, rel as int * 32 + 32)
                    =~= spec_root_entry_bytes(c, b, entry_index as int));
            }
            let entry = DirectoryEntry::parse(self.root_buffer.as_slice(), rel * 32);
            if entry.name[0] == 0x00 {
                return Ok(None);
            }
            if crate::bytes::bytes_eq(name, entry.name.as_slice()) {
                proof {
                    let eb = spec_root_entry_bytes(c, b, entry_index as int);
                    assert(entry.name@ =~= eb.subrange(0, 11));
                }
                return Ok(Some(entry));
            }
            entry_index = entry_index + 1;
        }
        Ok(None)
    }
}

impl FS {
    /// Fills the file buffer with the next stretch of the file's cluster
    /// chain, resuming from the cursor state stored in `file` and persisting
    /// the new state into it. Returns how many bytes were delivered into the
    /// front of the buffer.
    ///
    /// The call behaves exactly as `spec_read_step` on the cursor's prior
    /// state: it stops with `finished` set once the chain's end-of-chain
    /// sentinel is reached (rewinding the cursor to the first cluster), or
    /// stops unfinished when the buffer is full.
    pub fn file_read(&mut self, file: &mut File) -> (r: Result<usize, FsError>)
        requires
            old(self).inv(),
            old(file).wf(),
            old(file).current_cluster_read_sectors < old(self).spec_boot().spec_cluster_size(),
            old(self).spec_disk().spec_reads() + 3 * (File::BUFFER_SIZE as int) <= u64::MAX,
        ensures
            final(self).inv(),
            final(self).spec_disk().contents() == old(self).spec_disk().contents(),
            final(self).spec_disk().spec_heads() == old(self).spec_disk().spec_heads(),
            final(self).spec_disk().spec_sectors_per_track() == old(
                self,
            ).spec_disk().spec_sectors_per_track(),
            final(self).spec_boot() == old(self).spec_boot(),
            final(self).spec_root_sector() == old(self).spec_root_sector(),
            final(self).spec_root_buffer() == old(self).spec_root_buffer(),
            final(self).spec_disk().spec_reads() <= old(self).spec_disk().spec_reads() + 3 * (
            File::BUFFER_SIZE as int),
            final(file).metadata == old(file).metadata,
            final(file).wf(),
            ({
                let step = spec_read_step(
                    old(self).spec_disk().contents(),
                    old(self).spec_boot(),
                    old(file).metadata.lower_first_cluster,
                    old(file).current_cluster,
                    old(file).current_cluster_read_sectors,
                    old(file).spec_capacity(),
                );
                &&& (step matches Ok(t) ==> {
                    &&& r matches Ok(n)
                    &&& n == t.0.len()
                    &&& final(file).buffer@ == t.0 + old(file).buffer@.skip(t.0.len() as int)
                    &&& final(file).current_cluster == t.1
                    &&& final(file).current_cluster_read_sectors == t.2
                    &&& final(file).finished == t.3
                    &&& t.2 < old(self).spec_boot().spec_cluster_size()
                })
                &&& (step matches Err(e) ==> r == Err::<usize, FsError>(e) && !final(file).finished)
            }),
    {
        let ghost c = self.spec_disk().contents();
        let ghost b = self.spec_boot();
        let ghost old_reads = self.spec_disk().spec_reads();
        let ghost first0 = file.metadata.lower_first_cluster;
        let ghost cap0 = file.spec_capacity();
        let ghost buf0 = file.buffer@;

        file.finished = false;
        let cluster_size: u16 = self.boot_sector.get_cluster_size();
        let mut current_cluster: u16 = file.current_cluster;
        let mut current_cluster_read_sectors: u16 = file.current_cluster_read_sectors;
        let mut filled: usize = 0;
        let mut buffer_capacity: u16 = (file.buffer.len() / File::SECTOR_SIZE) as u16;
        let ghost mut delivered: Seq<u8> = Seq::empty();

        proof {
            assert(file.buffer@.len() == 512 * (File::BUFFER_SIZE as int));
            assert(buffer_capacity == cap0);
        }

        loop
            invariant
                old(self).inv(),
                c == old(self).spec_disk().contents(),
                b == old(self).spec_boot(),
                old_reads == old(self).spec_disk().spec_reads(),
                old_reads + 3 * (File::BUFFER_SIZE as int) <= u64::MAX,
                self.inv(),
                self.spec_disk().contents() == c,
                self.spec_disk().spec_heads() == old(self).spec_disk().spec_heads(),
                self.spec_disk().spec_sectors_per_track() == old(
                    self,
                ).spec_disk().spec_sectors_per_track(),
                self.spec_boot() == b,
                self.spec_root_sector() == old(self).spec_root_sector(),
                self.spec_root_buffer() == old(self).spec_root_buffer(),
                self.spec_disk().spec_reads() <= old_reads + 3 * (cap0 as int - buffer_capacity
                    as int),
                cluster_size == b.spec_cluster_size(),
                file.metadata == old(file).metadata,
                first0 == old(file).metadata.lower_first_cluster,
                !file.finished,
                file.wf(),
                cap0 == old(file).spec_capacity(),
                buf0 == old(file).buffer@,
                buffer_capacity <= cap0,
                current_cluster_read_sectors < cluster_size,
                filled == delivered.len(),
                filled == (cap0 as int - buffer_capacity as int) * (File::SECTOR_SIZE as int),
                file.buffer@ == delivered + buf0.skip(filled as int),
                ({
                    let whole = spec_read_step(
                        c,
                        b,
                        first0,
                        old(file).current_cluster,
                        old(file).current_cluster_read_sectors,
                        cap0,
                    );
                    let rest = spec_read_step(
                        c,
                        b,
                        first0,
                        current_cluster,
                        current_cluster_read_sectors,
                        buffer_capacity,
                    );
                    &&& (rest matches Ok(t) ==> whole == Ok::<(Seq<u8>, u16, u16, bool), FsError>(
                        (delivered + t.0, t.1, t.2, t.3),
                    ))
                    &&& (rest matches Err(e) ==> whole == Err::<(Seq<u8>, u16, u16, bool), FsError>(
                        e,
                    ))
                }),
            decreases buffer_capacity,
        {
            if current_cluster < 2 || current_cluster > 0xFEF {
                file.current_cluster = file.metadata.lower_first_cluster;
                file.current_cluster_read_sectors = 0;
                file.finished = true;
                return Ok(filled);
            }
            if buffer_capacity == 0 {
                file.current_cluster = current_cluster;
                file.current_cluster_read_sectors = current_cluster_read_sectors;
                return Ok(filled);
            }
            let region_offset: u16 = self.boot_sector.get_cluster_region_offset();
            proof {
                assert(cluster_size as int * (current_cluster as int - 2) <= 0xFFFF * 0xFFD)
                    by (nonlinear_arith)
                    requires
                        cluster_size <= 0xFFFF,
                        2 <= current_cluster <= 0xFEF,
                ;
            }
            let cluster_start32: u32 = region_offset as u32 + cluster_size as u32 * (current_cluster
                as u32 - 2);
            proof {
                assert(cluster_start32 as int == b.spec_cluster_offset(current_cluster as int));
            }
            if cluster_start32 + cluster_size as u32 > 0x10000 {
                return Err(FsError::Bounds);
            }
            let cluster_offset_start: u16 = self.boot_sector.get_cluster_offset(current_cluster);
            let lba: u16 = cluster_offset_start + current_cluster_read_sectors;
            let count: u16 = if cluster_size - current_cluster_read_sectors <= buffer_capacity {
                cluster_size - current_cluster_read_sectors
            } else {
                buffer_capacity
            };
            let data = match self.read_disk(lba, count as u8) {
                Ok(v) => v,
                Err(e) => {
                    return Err(e);
                },
            };
            let mut j: usize = 0;
            let bytes: usize = count as usize * File::SECTOR_SIZE;
            proof {
                assert(filled + bytes <= file.buffer@.len()) by (nonlinear_arith)
                    requires
                        filled == (cap0 as int - buffer_capacity as int) * (File::SECTOR_SIZE
                            as int),
                        bytes == count as int * (File::SECTOR_SIZE as int),
                        count <= buffer_capacity,
                        buffer_capacity <= cap0,
                        file.buffer@.len() == cap0 as int * (File::SECTOR_SIZE as int),
                ;
            }
            while j < bytes
                invariant
                    j <= bytes,
                    bytes == data@.len(),
                    filled + bytes <= file.buffer@.len(),
                    file.wf(),
                    file.metadata == old(file).metadata,
                    !file.finished,
                    file.buffer@ == delivered + data@.take(j as int) + buf0.skip(
                        filled as int + j as int,
                    ),
                    filled == delivered.len(),
                    buf0.len() == file.buffer@.len(),
                decreases bytes - j,
            {
                let v = data[j];
                file.buffer.set(filled + j, v);
                j = j + 1;
                proof {
                    assert(file.buffer@ =~= delivered + data@.take(j as int) + buf0.skip(
                        filled as int + j as int,
                    ));
                }
            }
            proof {
                delivered = delivered + data@;
                assert(file.buffer@ =~= delivered + buf0.skip(filled as int + bytes as int));
            }
            filled = filled + bytes;
            buffer_capacity = buffer_capacity - count;
            current_cluster_read_sectors = current_cluster_read_sectors + count;
            proof {
                assert(filled == (cap0 as int - buffer_capacity as int) * (File::SECTOR_SIZE
                    as int)) by (nonlinear_arith)
                    requires
                        filled == (cap0 as int - buffer_capacity as int - count as int) * (
                        File::SECTOR_SIZE as int) + count as int * (File::SECTOR_SIZE as int),
                ;
            }
            if cluster_size - current_cluster_read_sectors == 0 {
                current_cluster_read_sectors = 0;
                current_cluster = match self.fat_entry_read(current_cluster) {
                    Ok(next) => next,
                    Err(_) => 0x0FF8,
                };
            }
            if current_cluster >= 0x0FF8 {
                file.current_cluster = file.metadata.lower_first_cluster;
                file.current_cluster_read_sectors = 0;
                file.finished = true;
                return Ok(filled);
            }
            if buffer_capacity == 0 {
                file.current_cluster = current_cluster;
                file.current_cluster_read_sectors = current_cluster_read_sectors;
                return Ok(filled);
            }
        }
    }
}

/// the chain corrupt: comfortably above the longest acyclic FAT12 chain.
pub const MAX_READ_CALLS: u32 = 0x200000;

impl FS {
    /// Reads a file's whole cluster chain from the start, one buffer at a
    /// time, and returns the concatenated bytes: the chain's content at
    /// cluster granularity. The cursor is left finished and rewound.
    ///
    /// A chain that does not reach its end-of-chain sentinel within
    /// `MAX_READ_CALLS` reads is cyclic; the driver reports it as a bounds
    /// error rather than looping forever.
    pub fn file_read_to_end(&mut self, file: &mut File) -> (r: Result<Vec<u8>, FsError>)
        requires
            old(self).inv(),
            old(file).wf(),
            old(self).spec_disk().spec_reads() + 3 * (MAX_READ_CALLS as int) <= u64::MAX,
        ensures
            final(self).inv(),
            final(self).spec_disk().contents() == old(self).spec_disk().contents(),
            final(self).spec_disk().spec_heads() == old(self).spec_disk().spec_heads(),
            final(self).spec_disk().spec_sectors_per_track() == old(
                self,
            ).spec_disk().spec_sectors_per_track(),
            final(self).spec_boot() == old(self).spec_boot(),
            final(self).spec_root_sector() == old(self).spec_root_sector(),
            final(self).spec_root_buffer() == old(self).spec_root_buffer(),
            final(file).metadata == old(file).metadata,
            final(file).wf(),
            ({
                let chain = spec_chain_content(
                    old(self).spec_disk().contents(),
                    old(self).spec_boot(),
                    old(file).metadata.lower_first_cluster,
                );
                &&& chain matches Ok(all) ==> {
                    &&& r matches Ok(v)
                    &&& v@ == all
                    &&& final(file).current_cluster == old(file).metadata.lower_first_cluster
                    &&& final(file).current_cluster_read_sectors == 0
                }
                &&& r matches Ok(v) ==> chain == Ok::<Seq<u8>, FsError>(v@)
            }),
            r is Ok ==> final(file).finished,
    {
        let ghost c = self.spec_disk().contents();
        let ghost b = self.spec_boot();
        let ghost old_reads = self.spec_disk().spec_reads();
        let ghost first0 = file.metadata.lower_first_cluster;
        let ghost cap0 = file.spec_capacity();
        let ghost chain = spec_chain_content(c, b, first0);

        file.reset();
        let mut out: Vec<u8> = Vec::new();
        let mut calls: u32 = 0;
        proof {
            assert(cap0 == File::BUFFER_SIZE);
            assert(cap0 == 1);
            if chain is Ok {
                let all = chain->Ok_0;
                assert(out@ =~= all.take(0));
                assert(all.skip(0) =~= all);
            }
            assert forall|f: nat|
                spec_rest_content(c, b, first0, 0u16, f) is Ok implies spec_rest_content(
                c,
                b,
                first0,
                0u16,
                (f + 0) as nat,
            ) == Ok::<Seq<u8>, FsError>(
                out@ + spec_rest_content(c, b, first0, 0u16, f)->Ok_0,
            ) by {
                assert(out@ + spec_rest_content(c, b, first0, 0u16, f)->Ok_0 =~= spec_rest_content(
                    c,
                    b,
                    first0,
                    0u16,
                    f,
                )->Ok_0);
            }
        }
        loop
            invariant
                old(self).inv(),
                c == old(self).spec_disk().contents(),
                b == old(self).spec_boot(),
                old_reads == old(self).spec_disk().spec_reads(),
                old_reads + 3 * (MAX_READ_CALLS as int) <= u64::MAX,
                first0 == old(file).metadata.lower_first_cluster,
                chain == spec_chain_content(c, b, first0),
                self.inv(),
                self.spec_disk().contents() == c,
                self.spec_disk().spec_heads() == old(self).spec_disk().spec_heads(),
                self.spec_disk().spec_sectors_per_track() == old(
                    self,
                ).spec_disk().spec_sectors_per_track(),
                self.spec_boot() == b,
                self.spec_root_sector() == old(self).spec_root_sector(),
                self.spec_root_buffer() == old(self).spec_root_buffer(),
                file.metadata == old(file).metadata,
                file.wf(),
                cap0 == File::BUFFER_SIZE,
                !file.finished,
                file.current_cluster_read_sectors < b.spec_cluster_size(),
                calls <= MAX_READ_CALLS,
                self.spec_disk().spec_reads() <= old_reads + 3 * (calls as int),
                chain matches Ok(all) ==> {
                    &&& out@ == all.take(out@.len() as int)
                    &&& spec_rest_content(
                        c,
                        b,
                        file.current_cluster,
                        file.current_cluster_read_sectors,
                        spec_chain_fuel(),
                    ) == Ok::<Seq<u8>, FsError>(all.skip(out@.len() as int))
                    &&& out@.len() <= all.len()
                    &&& out@.len() == calls as int * (SECTOR_SIZE as int)
                },
                forall|f: nat|
                    (#[trigger] spec_rest_content(
                        c,
                        b,
                        file.current_cluster,
                        file.current_cluster_read_sectors,
                        f,
                    )) is Ok ==> spec_rest_content(c, b, first0, 0u16, (f + calls) as nat) == Ok::<
                        Seq<u8>,
                        FsError,
                    >(
                        out@ + spec_rest_content(
                            c,
                            b,
                            file.current_cluster,
                            file.current_cluster_read_sectors,
                            f,
                        )->Ok_0,
                    ),
            decreases MAX_READ_CALLS - calls,
        {
            if calls >= MAX_READ_CALLS {
                proof {
                    if chain is Ok {
                        let all = chain->Ok_0;
                        lemma_rest_content_len(c, b, first0, 0u16, spec_chain_fuel());
                        assert(all.len() <= (spec_chain_fuel() + 1) * b.spec_cluster_size() * (
                        SECTOR_SIZE as int));
                        assert((spec_chain_fuel() + 1) * b.spec_cluster_size() * (SECTOR_SIZE
                            as int) <= (spec_chain_fuel() + 1) * 0xFF * (SECTOR_SIZE as int))
                            by (nonlinear_arith)
                            requires
                                0 <= b.spec_cluster_size() <= 0xFF,
                        ;
                        assert(false);
                    }
                }
                return Err(FsError::Bounds);
            }
            let ghost pre_cluster = file.current_cluster;
            let ghost pre_cons = file.current_cluster_read_sectors;
            let ghost out_pre = out@;
            proof {
                if chain is Ok {
                    lemma_read_step_rest(c, b, first0, pre_cluster, pre_cons, cap0, spec_chain_fuel());
                }
            }
            let n = match self.file_read(file) {
                Ok(n) => n,
                Err(e) => {
                    return Err(e);
                },
            };
            let mut j: usize = 0;
            while j < n
                invariant
                    j <= n,
                    n <= file.buffer@.len(),
                    out@ == out_pre + file.buffer@.take(j as int),
                decreases n - j,
            {
                let v = file.buffer[j];
                out.push(v);
                j = j + 1;
                proof {
                    assert(out@ =~= out_pre + file.buffer@.take(j as int));
                }
            }
            let ghost calls_pre = calls;
            calls = calls + 1;
            proof {
                let step = spec_read_step(c, b, first0, pre_cluster, pre_cons, cap0);
                assert(step is Ok);
                let t = step->Ok_0;
                assert(file.buffer@.take(n as int) =~= t.0);
                assert(out@ =~= out_pre + t.0);
                if chain is Ok {
                    let all = chain->Ok_0;
                    assert(out@ =~= all.take(out@.len() as int));
                    assert(t.0.len() <= all.skip(out_pre.len() as int).len());
                    assert(all.skip(out_pre.len() as int + t.0.len() as int) =~= all.skip(
                        out_pre.len() as int,
                    ).skip(t.0.len() as int));
                }
            }
            if file.is_fully_read() {
                proof {
                    if chain is Ok {
                        let all = chain->Ok_0;
                        assert(out@ =~= all);
                    }
                    let t = spec_read_step(c, b, first0, pre_cluster, pre_cons, cap0)->Ok_0;
                    lemma_read_step_back(c, b, first0, pre_cluster, pre_cons, cap0, 0);
                    let f0: nat = cap0 as nat;
                    assert(spec_rest_content(c, b, pre_cluster, pre_cons, f0) is Ok);
                    assert(spec_rest_content(c, b, first0, 0u16, (f0 + calls_pre) as nat) == Ok::<
                        Seq<u8>,
                        FsError,
                    >(out_pre + spec_rest_content(c, b, pre_cluster, pre_cons, f0)->Ok_0));
                    assert(spec_rest_content(c, b, first0, 0u16, (cap0 as nat + calls_pre) as nat)
                        == Ok::<Seq<u8>, FsError>(out_pre + t.0));
                    assert(out_pre + t.0 =~= out@);
                    lemma_chain_fuel_normalize(
                        c,
                        b,
                        first0,
                        (cap0 as nat + calls_pre) as nat,
                    );
                    assert(chain == Ok::<Seq<u8>, FsError>(out@));
                }
                return Ok(out);
            }
            proof {
                let t = spec_read_step(c, b, first0, pre_cluster, pre_cons, cap0)->Ok_0;
                assert(!t.3);
                assert(t.1 == file.current_cluster && t.2 == file.current_cluster_read_sectors);
                assert forall|f: nat|
                    (#[trigger] spec_rest_content(
                        c,
                        b,
                        file.current_cluster,
                        file.current_cluster_read_sectors,
                        f,
                    )) is Ok implies spec_rest_content(c, b, first0, 0u16, (f + calls) as nat)
                    == Ok::<Seq<u8>, FsError>(
                    out@ + spec_rest_content(
                        c,
                        b,
                        file.current_cluster,
                        file.current_cluster_read_sectors,
                        f,
                    )->Ok_0,
                ) by {
                    lemma_read_step_back(c, b, first0, pre_cluster, pre_cons, cap0, f);
                    let r_ = spec_rest_content(
                        c,
                        b,
                        file.current_cluster,
                        file.current_cluster_read_sectors,
                        f,
                    )->Ok_0;
                    assert(spec_rest_content(c, b, pre_cluster, pre_cons, (f + cap0 as nat) as nat)
                        == Ok::<Seq<u8>, FsError>(t.0 + r_));
                    let f1: nat = (f + cap0 as nat) as nat;
                    assert(spec_rest_content(c, b, pre_cluster, pre_cons, f1) is Ok);
                    assert(spec_rest_content(c, b, first0, 0u16, (f1 + calls_pre) as nat) == Ok::<
                        Seq<u8>,
                        FsError,
                    >(out_pre + spec_rest_content(c, b, pre_cluster, pre_cons, f1)->Ok_0));
                    assert(spec_rest_content(
                        c,
                        b,
                        first0,
                        0u16,
                        ((f + cap0 as nat) + calls_pre) as nat,
                    ) == Ok::<Seq<u8>, FsError>(out_pre + (t.0 + r_)));
                    assert(out_pre + (t.0 + r_) =~= out@ + r_);
                    assert(((f + cap0 as nat) + calls_pre) as nat == (f + calls) as nat);
                }
            }
            proof {
                if chain is Ok {
                    let t = spec_read_step(c, b, first0, pre_cluster, pre_cons, cap0)->Ok_0;
                    assert(out@.len() == out_pre.len() + t.0.len());
                }
            }
        }
    }
}

/// The result of scanning an array of raw 32-byte directory records for
/// `name` from entry index `i` on: the index of the first entry whose
/// 11-byte name equals `name`, stopping early at a zero first byte (the
/// terminator) or at the end of the bytes.
pub open spec fn spec_entries_find(bytes: Seq<u8>, name: Seq<u8>, i: int) -> Option<int>
    decreases bytes.len() + 32 - i * 32,
{
    if i < 0 || i * 32 + 32 > bytes.len() {
        None
    } else if bytes[i * 32] == 0 {
        None
    } else if bytes.subrange(i * 32, i * 32 + 11) == name {
        Some(i)
    } else {
        spec_entries_find(bytes, name, i + 1)
    }
}

/// A found root-directory index lies within the entry table.
pub proof fn lemma_root_find_some(disk: Seq<u8>, boot: BootSector, name: Seq<u8>, i0: int)
    ensures
        spec_root_find(disk, boot, name, i0) matches Some(j) ==> i0 <= j < boot.root_entries,
    decreases boot.root_entries - i0,
{
    if i0 < 0 || i0 >= boot.root_entries {
    } else {
        let e = spec_root_entry_bytes(disk, boot, i0);
        if e[0] == 0 {
        } else if e.subrange(0, 11) == name {
        } else {
            lemma_root_find_some(disk, boot, name, i0 + 1);
        }
    }
}

/// A found entry index lies within the scanned bytes.
pub proof fn lemma_entries_find_some(bytes: Seq<u8>, name: Seq<u8>, i0: int)
    ensures
        spec_entries_find(bytes, name, i0) matches Some(j) ==> i0 <= j && j * 32 + 32
            <= bytes.len(),
    decreases bytes.len() + 32 - i0 * 32,
{
    if i0 < 0 || i0 * 32 + 32 > bytes.len() {
    } else if bytes[i0 * 32] == 0 {
    } else if bytes.subrange(i0 * 32, i0 * 32 + 11) == name {
    } else {
        lemma_entries_find_some(bytes, name, i0 + 1);
    }
}

impl FS {
    /// Searches a subdirectory for the entry whose 11-byte name equals
    /// `entry_name`. The directory's data lives in its cluster chain, so the
    /// given cursor is reset and streamed window by window through its
    /// buffer, applying the same terminator and equality rules as the
    /// root-directory scan.
    pub fn get_entry_from_directory(&mut self, file: &mut File, entry_name: &[u8]) -> (r: Result<
        Option<DirectoryEntry>,
        FsError,
    >)
        requires
            old(self).inv(),
            old(file).wf(),
            entry_name@.len() == 11,
            old(self).spec_disk().spec_reads() + 3 * (MAX_READ_CALLS as int) <= u64::MAX,
        ensures
            final(self).inv(),
            final(self).spec_disk().contents() == old(self).spec_disk().contents(),
            final(self).spec_disk().spec_heads() == old(self).spec_disk().spec_heads(),
            final(self).spec_disk().spec_sectors_per_track() == old(
                self,
            ).spec_disk().spec_sectors_per_track(),
            final(self).spec_boot() == old(self).spec_boot(),
            final(self).spec_root_sector() == old(self).spec_root_sector(),
            final(self).spec_root_buffer() == old(self).spec_root_buffer(),
            final(self).spec_disk().spec_reads() <= old(self).spec_disk().spec_reads() + 3 * (
            MAX_READ_CALLS as int),
            final(file).metadata == old(file).metadata,
            final(file).wf(),
            ({
                let chain = spec_chain_content(
                    old(self).spec_disk().contents(),
                    old(self).spec_boot(),
                    old(file).metadata.lower_first_cluster,
                );
                chain matches Ok(all) ==> {
                    &&& (spec_entries_find(all, entry_name@, 0) matches Some(i) ==> (r matches Ok(o)
                        && o matches Some(e) && spec_entry_represents(
                        e,
                        all.subrange(i * 32, i * 32 + 32),
                    )))
                    &&& (spec_entries_find(all, entry_name@, 0) is None ==> r == Ok::<
                        Option<DirectoryEntry>,
                        FsError,
                    >(None))
                }
            }),
    {
        let ghost c = self.spec_disk().contents();
        let ghost b = self.spec_boot();
        let ghost old_reads = self.spec_disk().spec_reads();
        let ghost first0 = file.metadata.lower_first_cluster;
        let ghost cap0 = file.spec_capacity();
        let ghost chain = spec_chain_content(c, b, first0);

        file.reset();
        let mut scanned: usize = 0;
        let mut calls: u32 = 0;
        let ghost mut done: Seq<u8> = Seq::empty();
        proof {
            assert(cap0 == File::BUFFER_SIZE);
            if chain is Ok {
                let all = chain->Ok_0;
                assert(done =~= all.take(0));
                assert(all.skip(0) =~= all);
            }
        }
        loop
            invariant
                old(self).inv(),
                c == old(self).spec_disk().contents(),
                b == old(self).spec_boot(),
                old_reads == old(self).spec_disk().spec_reads(),
                old_reads + 3 * (MAX_READ_CALLS as int) <= u64::MAX,
                first0 == old(file).metadata.lower_first_cluster,
                chain == spec_chain_content(c, b, first0),
                entry_name@.len() == 11,
                self.inv(),
                self.spec_disk().contents() == c,
                self.spec_disk().spec_heads() == old(self).spec_disk().spec_heads(),
                self.spec_disk().spec_sectors_per_track() == old(
                    self,
                ).spec_disk().spec_sectors_per_track(),
                self.spec_boot() == b,
                self.spec_root_sector() == old(self).spec_root_sector(),
                self.spec_root_buffer() == old(self).spec_root_buffer(),
                file.metadata == old(file).metadata,
                file.wf(),
                cap0 == File::BUFFER_SIZE,
                !file.finished,
                file.current_cluster_read_sectors < b.spec_cluster_size(),
                calls <= MAX_READ_CALLS,
                self.spec_disk().spec_reads() <= old_reads + 3 * (calls as int),
                scanned as int <= 16 * (calls as int),
                chain matches Ok(all) ==> {
                    &&& done == all.take(done.len() as int)
                    &&& done.len() <= all.len()
                    &&& spec_rest_content(
                        c,
                        b,
                        file.current_cluster,
                        file.current_cluster_read_sectors,
                        spec_chain_fuel(),
                    ) == Ok::<Seq<u8>, FsError>(all.skip(done.len() as int))
                    &&& done.len() == calls as int * (SECTOR_SIZE as int)
                    &&& scanned as int * 32 == done.len()
                    &&& spec_entries_find(all, entry_name@, scanned as int) == spec_entries_find(
                        all,
                        entry_name@,
                        0,
                    )
                },
            decreases MAX_READ_CALLS - calls,
        {
            if calls >= MAX_READ_CALLS {
                proof {
                    if chain is Ok {
                        let all = chain->Ok_0;
                        lemma_rest_content_len(c, b, first0, 0u16, spec_chain_fuel());
                        assert((spec_chain_fuel() + 1) * b.spec_cluster_size() * (SECTOR_SIZE
                            as int) <= (spec_chain_fuel() + 1) * 0xFF * (SECTOR_SIZE as int))
                            by (nonlinear_arith)
                            requires
                                0 <= b.spec_cluster_size() <= 0xFF,
                        ;
                        assert(false);
                    }
                }
                return Err(FsError::Bounds);
            }
            let ghost pre_cluster = file.current_cluster;
            let ghost pre_cons = file.current_cluster_read_sectors;
            let ghost done_pre = done;
            proof {
                if chain is Ok {
                    lemma_read_step_rest(c, b, first0, pre_cluster, pre_cons, cap0, spec_chain_fuel());
                }
            }
            let n = match self.file_read(file) {
                Ok(n) => n,
                Err(e) => {
                    return Err(e);
                },
            };
            calls = calls + 1;
            proof {
                if chain is Ok {
                    let all = chain->Ok_0;
                    let t = spec_read_step(c, b, first0, pre_cluster, pre_cons, cap0)->Ok_0;
                    done = done + t.0;
                    assert(t.0.len() <= all.skip(done_pre.len() as int).len());
                    assert(done =~= all.take(done.len() as int));
                    assert(all.skip(done_pre.len() as int + t.0.len() as int) =~= all.skip(
                        done_pre.len() as int,
                    ).skip(t.0.len() as int));
                    assert(file.buffer@.take(n as int) =~= t.0);
                }
            }
            let entries_in_window: usize = n / 32;
            let mut k: usize = 0;
            while k < entries_in_window
                invariant
                    old(self).inv(),
                    c == old(self).spec_disk().contents(),
                    b == old(self).spec_boot(),
                    old_reads == old(self).spec_disk().spec_reads(),
                    first0 == old(file).metadata.lower_first_cluster,
                    chain == spec_chain_content(c, b, first0),
                    entry_name@.len() == 11,
                    k <= entries_in_window,
                    entries_in_window == n / 32,
                    n <= file.buffer@.len(),
                    self.inv(),
                    self.spec_disk().contents() == c,
                    self.spec_disk().spec_heads() == old(self).spec_disk().spec_heads(),
                    self.spec_disk().spec_sectors_per_track() == old(
                        self,
                    ).spec_disk().spec_sectors_per_track(),
                    self.spec_boot() == b,
                    self.spec_root_sector() == old(self).spec_root_sector(),
                    self.spec_root_buffer() == old(self).spec_root_buffer(),
                    self.spec_disk().spec_reads() <= old_reads + 3 * (calls as int),
                    calls <= MAX_READ_CALLS,
                    scanned as int <= 16 * (calls as int) - entries_in_window as int,
                    file.wf(),
                    file.metadata == old(file).metadata,
                    chain matches Ok(all) ==> {
                        &&& done.len() == done_pre.len() + n
                        &&& done == all.take(done.len() as int)
                        &&& done.len() <= all.len()
                        &&& n % 32 == 0
                        &&& scanned as int * 32 == done_pre.len()
                        &&& file.buffer@.take(n as int) == all.subrange(
                            done_pre.len() as int,
                            done.len() as int,
                        )
                        &&& spec_entries_find(all, entry_name@, scanned as int + k as int)
                            == spec_entries_find(all, entry_name@, 0)
                    },
                decreases entries_in_window - k,
            {
                proof {
                    lemma_fundamental_div_mod(n as int, 32);
                    if chain is Ok {
                        let all = chain->Ok_0;
                        let g = scanned as int + k as int;
                        assert(g * 32 == done_pre.len() + k as int * 32) by (nonlinear_arith)
                            requires
                                scanned as int * 32 == done_pre.len(),
                                g == scanned as int + k as int,
                        ;
                        assert((k as int + 1) * 32 <= n as int) by (nonlinear_arith)
                            requires
                                (k as int) < (n as int) / 32,
                                n as int % 32 == 0,
                                n as int == 32 * (n as int / 32) + n as int % 32,
                        ;
                        assert(all.subrange(g * 32, g * 32 + 32) =~= all.subrange(
                            done_pre.len() as int,
                            done.len() as int,
                        ).subrange(k as int * 32, k as int * 32 + 32));
                        assert(file.buffer@.take(n as int).subrange(
                            k as int * 32,
                            k as int * 32 + 32,
                        ) =~= file.buffer@.subrange(k as int * 32, k as int * 32 + 32));
                        assert(all.subrange(g * 32, g * 32 + 32) == file.buffer@.subrange(
                            k as int * 32,
                            k as int * 32 + 32,
                        ));
                    }
                }
                let entry = DirectoryEntry::parse(buffer_slice(file), k * 32);
                proof {
                    if chain is Ok {
                        let all = chain->Ok_0;
                        let g = scanned as int + k as int;
                        let eb = all.subrange(g * 32, g * 32 + 32);
                        assert(entry.name@ == eb.subrange(0, 11));
                        assert(entry.name@[0] == eb[0]);
                        assert(eb[0] == all[g * 32]);
                        assert(eb.subrange(0, 11) =~= all.subrange(g * 32, g * 32 + 11));
                    }
                }
                if entry.name[0] == 0x00 {
                    proof {
                        if chain is Ok {
                            let all = chain->Ok_0;
                            let g = scanned as int + k as int;
                            assert(g * 32 + 32 <= all.len());
                            assert(all[g * 32] == 0);
                            assert(spec_entries_find(all, entry_name@, g) is None);
                        }
                    }
                    return Ok(None);
                }
                if crate::bytes::bytes_eq(entry_name, entry.name.as_slice()) {
                    proof {
                        if chain is Ok {
                            let all = chain->Ok_0;
                            let g = scanned as int + k as int;
                            assert(g * 32 + 32 <= all.len());
                            assert(all.subrange(g * 32, g * 32 + 11) == entry_name@);
                            assert(spec_entries_find(all, entry_name@, g) == Some(g));
                        }
                    }
                    return Ok(Some(entry));
                }
                k = k + 1;
            }
            scanned = scanned + entries_in_window;
            if file.is_fully_read() {
                proof {
                    if chain is Ok {
                        let all = chain->Ok_0;
                        assert(done.len() == all.len());
                        assert(scanned as int * 32 == all.len());
                    }
                }
                return Ok(None);
            }
        }
    }
}

/// The cursor's buffer as a plain byte slice.
fn buffer_slice(file: &File) -> (s: &[u8])
    ensures
        s@ == file.buffer@,
{
    file.buffer.as_slice()
}

impl FS {
    /// Encodes a raw ASCII name into the fixed 11-byte 8.3 form used by the
    /// on-disk directory entries: uppercased, name left-justified, extension
    /// right-justified, space-padded, truncated to 11 bytes first.
    pub fn parse_entry_name(entry_name: &[u8]) -> (r: [u8; 11])
        ensures
            r@ == spec_normalize_name(entry_name@),
    {
        let len = entry_name.len();
        let tlen: usize = if len > 11 {
            11
        } else {
            len
        };
        let ghost t = if entry_name@.len() > 11 {
            entry_name@.take(11)
        } else {
            entry_name@
        };
        proof {
            assert(t.len() == tlen);
            assert(forall|j: int| 0 <= j < tlen ==> t[j] == entry_name@[j]);
            lemma_ext_index(t);
        }
        let mut extension_index: usize = tlen;
        let mut i: usize = tlen;
        while i > 0
            invariant_except_break
                i <= tlen,
                tlen == t.len(),
                tlen <= entry_name@.len(),
                forall|j: int| 0 <= j < tlen ==> t[j] == entry_name@[j],
                extension_index == tlen,
                forall|j: int| i <= j < tlen ==> t[j] != 46,
            ensures
                extension_index <= tlen,
                extension_index < tlen ==> t[extension_index as int] == 46 && (forall|j: int|
                    extension_index < j < tlen ==> t[j] != 46),
                extension_index == tlen ==> (forall|j: int| 0 <= j < tlen ==> t[j] != 46),
            decreases i,
        {
            i = i - 1;
            if entry_name[i] == 46 {
                extension_index = i;
                break ;
            }
        }
        proof {
            if extension_index < tlen {
                assert(t[extension_index as int] == 46);
                if spec_ext_index(t) < extension_index {
                    assert(false);
                }
                if extension_index < spec_ext_index(t) {
                    if spec_ext_index(t) == t.len() {
                        assert(t[extension_index as int] != 46);
                    } else {
                        assert(t[spec_ext_index(t)] == 46);
                    }
                    assert(false);
                }
            } else {
                if spec_ext_index(t) < t.len() {
                    assert(t[spec_ext_index(t)] == 46);
                    assert(false);
                }
            }
            assert(extension_index == spec_ext_index(t));
        }
        let mut parsed: [u8; 11] = [32u8; 11];
        let mut j: usize = 0;
        while j < extension_index
            invariant
                j <= extension_index,
                extension_index <= tlen,
                tlen == t.len(),
                tlen <= 11,
                tlen <= entry_name@.len(),
                forall|x: int| 0 <= x < tlen ==> t[x] == entry_name@[x],
                forall|x: int| 0 <= x < j ==> parsed@[x] == spec_upper(t[x]),
                forall|x: int| j <= x < 11 ==> parsed@[x] == 32,
            decreases extension_index - j,
        {
            let up = to_upper(entry_name[j]);
            parsed[j] = up;
            j = j + 1;
        }
        let mut i2: usize = extension_index + 1;
        while i2 < tlen
            invariant
                extension_index < i2 <= tlen || (i2 == extension_index + 1),
                extension_index <= tlen,
                tlen == t.len(),
                tlen <= 11,
                tlen <= entry_name@.len(),
                forall|x: int| 0 <= x < tlen ==> t[x] == entry_name@[x],
                forall|x: int| 0 <= x < extension_index ==> parsed@[x] == spec_upper(t[x]),
                forall|x: int|
                    extension_index < x < i2 ==> parsed@[11 - tlen + x] == spec_upper(t[x]),
                forall|x: int|
                    extension_index <= x < 11 && !(11 - tlen + extension_index < x < 11 - tlen
                        + i2) ==> parsed@[x] == 32,
            decreases tlen - i2,
        {
            let up = to_upper(entry_name[i2]);
            parsed[11 - (tlen - i2)] = up;
            i2 = i2 + 1;
        }
        proof {
            assert(parsed@ =~= spec_normalize_name(entry_name@));
        }
        parsed
    }
}

impl FS {
    /// Resolves an absolute 8.3 path: the path must begin with the
    /// separator, its non-empty segments are normalized one by one, the
    /// first is looked up in the root directory and each further one in the
    /// directory resolved so far. A segment that is missing, or that must be
    /// a directory but is a file, resolves to nothing.
    pub fn get_entry_from_absolute_path(&mut self, path: &[u8]) -> (r: Result<
        Option<DirectoryEntry>,
        FsError,
    >)
        requires
            old(self).inv(),
            path@.len() >= 1,
            path@[0] == 47,
            old(self).spec_disk().spec_reads() + (path@.len() as int + 1)
                * spec_segment_read_budget() <= u64::MAX,
        ensures
            final(self).inv(),
            final(self).spec_disk().contents() == old(self).spec_disk().contents(),
            final(self).spec_disk().spec_heads() == old(self).spec_disk().spec_heads(),
            final(self).spec_disk().spec_sectors_per_track() == old(
                self,
            ).spec_disk().spec_sectors_per_track(),
            final(self).spec_boot() == old(self).spec_boot(),
            ({
                let res = spec_resolve_segments(
                    old(self).spec_disk().contents(),
                    old(self).spec_boot(),
                    spec_split_segments(path@),
                );
                &&& (res matches Ok(o) ==> (o matches Some(eb) ==> (r matches Ok(ro)
                    && ro matches Some(e) && spec_entry_represents(e, eb))))
                &&& (res == Ok::<Option<Seq<u8>>, FsError>(None) ==> r == Ok::<
                    Option<DirectoryEntry>,
                    FsError,
                >(None))
            }),
    {
        let ghost c = self.spec_disk().contents();
        let ghost b = self.spec_boot();
        let ghost old_reads = self.spec_disk().spec_reads();

        let n = path.len();
        let mut segs: Vec<Vec<u8>> = Vec::new();
        let mut pos: usize = 0;
        proof {
            assert(path@.skip(0) =~= path@);
            assert(segs.deep_view() + spec_split_segments(path@) =~= spec_split_segments(path@));
        }
        while pos < n
            invariant
                pos <= n,
                n == path@.len(),
                segs.deep_view().len() <= pos,
                segs@.len() == segs.deep_view().len(),
                spec_split_segments(path@) == segs.deep_view() + spec_split_segments(
                    path@.skip(pos as int),
                ),
            decreases n - pos,
        {
            if path[pos] == 47 {
                proof {
                    assert(path@.skip(pos as int).skip(1) =~= path@.skip(pos as int + 1));
                }
                pos = pos + 1;
            } else {
                let mut end: usize = pos;
                while end < n && path[end] != 47
                    invariant
                        pos <= end <= n,
                        n == path@.len(),
                        forall|i: int| pos <= i < end ==> path@[i] != 47,
                    decreases n - end,
                {
                    end = end + 1;
                }
                proof {
                    let sp = path@.skip(pos as int);
                    lemma_seg_len(sp);
                    assert(forall|i: int| 0 <= i < sp.len() ==> sp[i] == path@[pos + i]);
                    if spec_seg_len(sp) < end - pos {
                        assert(sp[spec_seg_len(sp)] == 47);
                        assert(false);
                    }
                    if spec_seg_len(sp) > end - pos {
                        if end < n {
                            assert(path@[end as int] == 47);
                            assert(sp[end - pos] == 47);
                            assert(false);
                        } else {
                            assert(spec_seg_len(sp) <= sp.len());
                            assert(false);
                        }
                    }
                    assert(spec_seg_len(sp) == end - pos);
                }
                let mut seg: Vec<u8> = Vec::new();
                let mut q: usize = pos;
                while q < end
                    invariant
                        pos <= q <= end <= n,
                        n == path@.len(),
                        seg@.len() == q - pos,
                        forall|i: int| 0 <= i < seg@.len() ==> seg@[i] == path@[pos + i],
                    decreases end - q,
                {
                    let v = path[q];
                    seg.push(v);
                    q = q + 1;
                }
                proof {
                    let sp = path@.skip(pos as int);
                    assert(seg@ =~= sp.take((end - pos) as int));
                    assert(sp.skip((end - pos) as int) =~= path@.skip(end as int));
                }
                let ghost dv_before = segs.deep_view();
                let ghost segv = seg@;
                segs.push(seg);
                proof {
                    assert(segs.deep_view().len() == dv_before.len() + 1);
                    assert(forall|i: int|
                        0 <= i < dv_before.len() ==> segs.deep_view()[i] == dv_before[i]);
                    assert(segs.deep_view()[dv_before.len() as int] =~= segv);
                    assert(segs.deep_view() =~= dv_before + seq![segv]);
                    assert(segs.deep_view() + spec_split_segments(path@.skip(end as int))
                        =~= dv_before + (seq![segv] + spec_split_segments(path@.skip(end as int))));
                }
                pos = end;
            }
        }
        proof {
            assert(path@.skip(n as int) =~= Seq::<u8>::empty());
            assert(spec_split_segments(path@) == segs.deep_view() + Seq::<Seq<u8>>::empty());
            assert(segs.deep_view() + Seq::<Seq<u8>>::empty() =~= segs.deep_view());
        }
        let ghost segsv = segs.deep_view();
        let ghost res = spec_resolve_segments(c, b, segsv);

        if segs.is_empty() {
            return Ok(None);
        }
        let name0 = FS::parse_entry_name(segs[0].as_slice());
        proof {
            assert(segs@[0].deep_view() =~= segs@[0]@);
            assert(segsv[0] == segs@[0]@);
            assert(name0@.len() == 11);
        }
        let found0 = match self.get_entry_from_root(name0.as_slice()) {
            Ok(o) => o,
            Err(e) => {
                proof {
                    assert(false);
                }
                return Err(e);
            },
        };
        let ghost gfound = spec_root_find(c, b, spec_normalize_name(segsv[0]), 0);
        let mut entry = match found0 {
            Some(e) => e,
            None => {
                return Ok(None);
            },
        };
        let ghost mut cur: Seq<u8> = spec_root_entry_bytes(c, b, gfound->0);
        let mut k: usize = 1;
        proof {
            assert(gfound is Some);
            lemma_root_find_some(c, b, spec_normalize_name(segsv[0]), 0);
            let gi0 = gfound->0;
            assert(0 <= gi0 < b.root_entries);
            assert(b.root_entries as int * 32 == b.spec_root_size() * (SECTOR_SIZE as int))
                by (nonlinear_arith)
                requires
                    b.root_entries as int % 16 == 0,
                    b.spec_root_size() == b.root_entries as int / 16,
                    b.root_entries as int == 16 * (b.root_entries as int / 16) + b.root_entries
                        as int % 16,
                    SECTOR_SIZE == 512,
            ;
            assert(gi0 * 32 + 32 <= b.root_entries as int * 32) by (nonlinear_arith)
                requires
                    gi0 < b.root_entries as int,
            ;
            assert((b.spec_root_offset() + b.spec_root_size()) * (SECTOR_SIZE as int)
                == b.spec_root_offset() * (SECTOR_SIZE as int) + b.spec_root_size() * (SECTOR_SIZE
                as int)) by (nonlinear_arith);
            assert(b.spec_root_offset() * (SECTOR_SIZE as int) + gi0 * 32 + 32 <= c.len());
            assert(cur.len() == 32);
            assert(spec_entry_represents(entry, cur));
            if !(res is Err) {
                assert(spec_resolve_from(c, b, cur, segsv, k as int) == res);
            }
        }
        proof {
            lemma_fundamental_div_mod(b.root_entries as int, 16);
        }
        while k < segs.len()
            invariant
                old(self).inv(),
                c == old(self).spec_disk().contents(),
                b == old(self).spec_boot(),
                old_reads == old(self).spec_disk().spec_reads(),
                old_reads + (path@.len() as int + 1) * spec_segment_read_budget() <= u64::MAX,
                self.inv(),
                self.spec_disk().contents() == c,
                self.spec_disk().spec_heads() == old(self).spec_disk().spec_heads(),
                self.spec_disk().spec_sectors_per_track() == old(
                    self,
                ).spec_disk().spec_sectors_per_track(),
                self.spec_boot() == b,
                1 <= k <= segs.len(),
                segs.deep_view() == segsv,
                segs@.len() == segsv.len(),
                segsv.len() <= path@.len(),
                segsv == spec_split_segments(path@),
                res == spec_resolve_segments(c, b, segsv),
                self.spec_disk().spec_reads() <= old_reads + (k as int + 1)
                    * spec_segment_read_budget(),
                !(res is Err) ==> {
                    &&& spec_resolve_from(c, b, cur, segsv, k as int) == res
                    &&& spec_entry_represents(entry, cur)
                    &&& cur.len() == 32
                },
            decreases segs.len() - k,
        {
            if !entry.is_directory() {
                return Ok(None);
            }
            let mut dir_file = File::new(entry);
            let namek = FS::parse_entry_name(segs[k].as_slice());
            proof {
                assert(segs@[k as int].deep_view() =~= segs@[k as int]@);
                assert(segsv[k as int] == segs@[k as int]@);
                assert((k as int + 1 + 1) * spec_segment_read_budget() <= (path@.len() as int + 1)
                    * spec_segment_read_budget()) by (nonlinear_arith)
                    requires
                        k as int + 1 <= path@.len() as int,
                ;
            }
            let found = match self.get_entry_from_directory(&mut dir_file, namek.as_slice()) {
                Ok(o) => o,
                Err(e) => {
                    return Err(e);
                },
            };
            let ghost chain = spec_chain_content(c, b, entry.lower_first_cluster);
            let ghost gi = spec_entries_find(chain->Ok_0, spec_normalize_name(segsv[k as int]), 0);
            match found {
                None => {
                    return Ok(None);
                },
                Some(e2) => {
                    proof {
                        if !(res is Err) {
                            assert(chain is Ok);
                            lemma_entries_find_some(
                                chain->Ok_0,
                                spec_normalize_name(segsv[k as int]),
                                0,
                            );
                            cur = chain->Ok_0.subrange(gi->0 * 32, gi->0 * 32 + 32);
                        }
                    }
                    entry = e2;
                },
            }
            proof {
                assert(spec_segment_read_budget() == 0x1000000);
            }
            k = k + 1;
        }
        Ok(Some(entry))
    }

    /// Resolves an absolute path and wraps the entry found, if any, in a
    /// fresh read cursor.
    pub fn get_file_from_absolute_path(&mut self, path: &[u8]) -> (r: Result<Option<File>, FsError>)
        requires
            old(self).inv(),
            path@.len() >= 1,
            path@[0] == 47,
            old(self).spec_disk().spec_reads() + (path@.len() as int + 1)
                * spec_segment_read_budget() <= u64::MAX,
        ensures
            final(self).inv(),
            final(self).spec_disk().contents() == old(self).spec_disk().contents(),
            final(self).spec_disk().spec_heads() == old(self).spec_disk().spec_heads(),
            final(self).spec_disk().spec_sectors_per_track() == old(
                self,
            ).spec_disk().spec_sectors_per_track(),
            final(self).spec_boot() == old(self).spec_boot(),
            ({
                let res = spec_resolve_segments(
                    old(self).spec_disk().contents(),
                    old(self).spec_boot(),
                    spec_split_segments(path@),
                );
                &&& (res matches Ok(o) ==> (o matches Some(eb) ==> (r matches Ok(ro)
                    && ro matches Some(f) && spec_entry_represents(f.metadata, eb) && f.is_fresh()
                    && f.wf())))
                &&& (res == Ok::<Option<Seq<u8>>, FsError>(None) ==> (r matches Ok(ro) && ro is None))
            }),
    {
        match self.get_entry_from_absolute_path(path) {
            Ok(Some(e)) => Ok(Some(File::new(e))),
            Ok(None) => Ok(None),
            Err(e) => Err(e),
        }
    }
}

} // verus!
