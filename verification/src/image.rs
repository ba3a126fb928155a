//! A whole-image view of a FAT12 filesystem: the boot sector, the complete
//! FAT and the complete root directory held in memory at once.
//!
//! This is the driver's simpler sibling: where `FS` keeps a single sector of
//! each region resident, these types hold whole regions, address them in
//! bytes rather than sectors, and answer lookups without further reads. They
//! suit an environment that has already loaded the filesystem tables into
//! memory in one piece.

use vstd::prelude::*;

use crate::FsError;
use crate::bytes::le16;
use crate::bytes::spec_le16;
use crate::codec;
use crate::directory::DirectoryEntry;
use crate::directory::spec_entry_represents;

verus! {

/// The boot-sector geometry fields, with every derived offset expressed in
/// bytes from the start of the disk image.
#[derive(Clone, Copy, Debug, PartialEq, Eq, Structural)]
pub struct BootSector {
    /// Bytes per sector as recorded on disk.
    pub bytes_per_sector: u16,
    /// Sectors per allocation cluster.
    pub sectors_per_cluster: u8,
    /// Sectors before the FAT region, the boot sector included.
    pub reserved_sectors: u16,
    /// How many copies of the FAT the disk holds.
    pub fat_count: u8,
    /// How many 32-byte entries the fixed root directory holds.
    pub root_entries: u16,
    /// Sectors in one FAT copy.
    pub sectors_per_fat: u16,
    /// The BIOS drive number recorded in the extended boot record.
    pub drive_number: u8,
}

impl BootSector {
    /// The byte offset where the FAT region starts.
    pub open spec fn spec_fat_start(self) -> int {
        self.reserved_sectors * self.bytes_per_sector
    }

    /// The size in bytes of a single FAT copy.
    pub open spec fn spec_fat_size(self) -> int {
        self.sectors_per_fat * self.bytes_per_sector
    }

    /// The byte offset where the root directory starts.
    pub open spec fn spec_root_start(self) -> int {
        self.spec_fat_start() + self.spec_fat_size() * self.fat_count
    }

    /// The size in bytes of the full root directory.
    pub open spec fn spec_root_size(self) -> int {
        self.root_entries * 32
    }

    /// The byte offset where the cluster region starts.
    pub open spec fn spec_cluster_region_start(self) -> int {
        self.spec_root_start() + self.spec_root_size()
    }

    /// The size in bytes of a single cluster.
    pub open spec fn spec_cluster_size(self) -> int {
        self.sectors_per_cluster * self.bytes_per_sector
    }

    /// The byte offset where the given cluster starts; clusters are numbered
    /// from 2.
    pub open spec fn spec_cluster_start(self, cluster: int) -> int {
        self.spec_cluster_region_start() + self.spec_cluster_size() * (cluster - 2)
    }

    /// Geometry the in-memory view can address: non-degenerate sector and
    /// cluster sizes, and region offsets that fit in 16-bit byte addresses.
    pub open spec fn wf(self) -> bool {
        &&& self.bytes_per_sector >= 1
        &&& self.sectors_per_cluster >= 1
        &&& self.fat_count >= 1
        &&& self.spec_fat_start() <= 0xFFFF
        &&& self.spec_fat_size() <= 0xFFFF
        &&& self.spec_root_start() <= 0xFFFF
    }

    /// Decodes the geometry fields out of the raw first sector of an image.
    pub fn parse(sector: &[u8]) -> (b: BootSector)
        requires
            sector@.len() >= 512,
        ensures
            b.bytes_per_sector == spec_le16(sector@, 11),
            b.sectors_per_cluster == sector@[13],
            b.reserved_sectors == spec_le16(sector@, 14),
            b.fat_count == sector@[16],
            b.root_entries == spec_le16(sector@, 17),
            b.sectors_per_fat == spec_le16(sector@, 22),
            b.drive_number == sector@[36],
    {
        BootSector {
            bytes_per_sector: le16(sector, 11),
            sectors_per_cluster: sector[13],
            reserved_sectors: le16(sector, 14),
            fat_count: sector[16],
            root_entries: le16(sector, 17),
            sectors_per_fat: le16(sector, 22),
            drive_number: sector[36],
        }
    }

    /// The byte offset on the disk at which the FAT starts.
    pub fn get_fat_start(&self) -> (r: u16)
        requires
            self.wf(),
        ensures
            r == self.spec_fat_start(),
    {
        self.reserved_sectors * self.bytes_per_sector
    }

    /// The size in bytes of a single FAT.
    pub fn get_fat_size(&self) -> (r: u16)
        requires
            self.wf(),
        ensures
            r == self.spec_fat_size(),
    {
        self.sectors_per_fat * self.bytes_per_sector
    }

    /// The byte offset on the disk at which the root directory starts.
    pub fn get_root_start(&self) -> (r: u16)
        requires
            self.wf(),
        ensures
            r == self.spec_root_start(),
    {
        proof {
            let fsz = self.spec_fat_size();
            assert(fsz * 1 <= fsz * self.fat_count as int) by (nonlinear_arith)
                requires
                    self.fat_count >= 1,
                    fsz >= 0,
            ;
        }
        self.get_fat_start() + (self.get_fat_size() * self.fat_count as u16)
    }

    /// The size in bytes of the full root directory.
    pub fn get_root_size(&self) -> (r: usize)
        ensures
            r == self.spec_root_size(),
    {
        self.root_entries as usize * 32
    }

    /// The byte offset on the disk at which the cluster region starts.
    pub fn get_cluster_region_start(&self) -> (r: usize)
        requires
            self.wf(),
        ensures
            r == self.spec_cluster_region_start(),
    {
        self.get_root_start() as usize + self.get_root_size()
    }

    /// The size in bytes of a single cluster.
    pub fn get_cluster_size(&self) -> (r: usize)
        ensures
            r == self.spec_cluster_size(),
    {
        proof {
            assert(self.sectors_per_cluster as int * self.bytes_per_sector as int <= 0xFF * 0xFFFF)
                by (nonlinear_arith)
                requires
                    self.sectors_per_cluster <= 0xFF,
                    self.bytes_per_sector <= 0xFFFF,
            ;
        }
        self.sectors_per_cluster as usize * self.bytes_per_sector as usize
    }

    /// The byte offset on the disk at which the given cluster starts. The
    /// cluster number accounts for the two reserved FAT entries.
    pub fn get_cluster_start(&self, cluster: u16) -> (r: usize)
        requires
            self.wf(),
            cluster >= 2,
            self.spec_cluster_start(cluster as int) <= usize::MAX,
        ensures
            r == self.spec_cluster_start(cluster as int),
    {
        proof {
            let cs = self.spec_cluster_size();
            assert(0 <= cs <= 0xFF * 0xFFFF) by (nonlinear_arith)
                requires
                    cs == self.sectors_per_cluster as int * self.bytes_per_sector as int,
                    self.sectors_per_cluster <= 0xFF,
                    self.bytes_per_sector <= 0xFFFF,
            ;
            assert(cs * (cluster as int - 2) <= 0xFF * 0xFFFF * 0xFFFD) by (nonlinear_arith)
                requires
                    0 <= cs <= 0xFF * 0xFFFF,
                    2 <= cluster <= 0xFFFF,
            ;
            assert(cs * (cluster as int - 2) >= 0) by (nonlinear_arith)
                requires
                    cs >= 0,
                    cluster >= 2,
            ;
        }
        let step: u64 = self.get_cluster_size() as u64 * (cluster as u64 - 2);
        self.get_cluster_region_start() + step as usize
    }
}

/// A complete FAT held in memory as raw bytes.
pub struct Fat {
    entries: Vec<u8>,
    entries_count: u16,
}

impl Fat {
    /// The raw bytes of the table.
    pub closed spec fn spec_entries(self) -> Seq<u8> {
        self.entries@
    }

    /// The byte size of the table.
    pub closed spec fn spec_count(self) -> int {
        self.entries_count as int
    }

    /// The table carries exactly as many bytes as its recorded size.
    pub open spec fn wf(self) -> bool {
        self.spec_entries().len() == self.spec_count()
    }

    /// Wraps a raw FAT byte table.
    pub fn new(entries: Vec<u8>, entries_count: u16) -> (f: Fat)
        requires
            entries@.len() == entries_count,
        ensures
            f.wf(),
            f.spec_entries() == entries@,
            f.spec_count() == entries_count,
    {
        Fat { entries, entries_count }
    }

    /// Reads the packed 12-bit entry for the given cluster out of the
    /// table. A cluster whose packed bytes fall outside the table is a
    /// bounds error.
    pub fn get_entry(&self, cluster: usize) -> (r: Result<u16, FsError>)
        requires
            self.wf(),
            cluster <= 0xFFFF,
        ensures
            codec::entry_byte_index(cluster as int) + 1 < self.spec_count() ==> r == Ok::<
                u16,
                FsError,
            >(codec::fat_entry(self.spec_entries(), cluster as int)),
            codec::entry_byte_index(cluster as int) + 1 >= self.spec_count() ==> r == Err::<
                u16,
                FsError,
            >(FsError::Bounds),
    {
        let i: usize = cluster * 3 / 2;
        if i + 1 >= self.entries_count as usize {
            return Err(FsError::Bounds);
        }
        let b0: u8 = self.entries[i];
        let b1: u8 = self.entries[i + 1];
        if cluster % 2 == 0 {
            let word: u16 = ((b1 & 0x0F) as u16) * 256 + b0 as u16;
            let entry: u16 = word & 0x0FFF;
            proof {
                assert(word & 0x0FFF == codec::decode_even(b0, b1)) by (bit_vector)
                    requires
                        word as int == ((b1 & 0x0Fu8) as u16 as int) * 256 + (b0 as int),
                ;
            }
            Ok(entry)
        } else {
            let word: u16 = (b1 as u16) * 256 + (b0 & 0xF0) as u16;
            let entry: u16 = (word >> 4u16) & 0x0FFF;
            proof {
                assert((word >> 4u16) & 0x0FFF == codec::decode_odd(b0, b1)) by (bit_vector)
                    requires
                        word as int == (b1 as u16 as int) * 256 + ((b0 & 0xF0u8) as int),
                ;
            }
            Ok(entry)
        }
    }
}

/// The result of scanning decoded directory records for `name` from index
/// `i` on, with the usual terminator rule.
pub open spec fn spec_dir_find(entries: Seq<DirectoryEntry>, name: Seq<u8>, i: int) -> Option<int>
    decreases entries.len() - i,
{
    if i < 0 || i >= entries.len() {
        None
    } else if entries[i].name@[0] == 0 {
        None
    } else if entries[i].name@ == name {
        Some(i)
    } else {
        spec_dir_find(entries, name, i + 1)
    }
}

/// A complete directory table held in memory as decoded records.
pub struct Directory {
    entries: Vec<DirectoryEntry>,
    entries_count: u16,
}

impl Directory {
    /// The decoded records of the table.
    pub closed spec fn spec_entries(self) -> Seq<DirectoryEntry> {
        self.entries@
    }

    /// The recorded size of the table.
    pub closed spec fn spec_count(self) -> int {
        self.entries_count as int
    }

    /// The table carries exactly as many records as its recorded size.
    pub open spec fn wf(self) -> bool {
        self.spec_entries().len() == self.spec_count()
    }

    /// Wraps a decoded directory table.
    pub fn new(entries: Vec<DirectoryEntry>, entries_count: u16) -> (d: Directory)
        requires
            entries@.len() == entries_count,
        ensures
            d.wf(),
            d.spec_entries() == entries@,
    {
        Directory { entries, entries_count }
    }

    /// Searches the table for the record whose 11-byte name equals `name`,
    /// stopping at the first record whose name starts with a zero byte.
    pub fn get_entry(&self, name: &[u8]) -> (r: Option<DirectoryEntry>)
        requires
            self.wf(),
        ensures
            spec_dir_find(self.spec_entries(), name@, 0) matches Some(i) ==> r == Some(
                self.spec_entries()[i],
            ),
            spec_dir_find(self.spec_entries(), name@, 0) is None ==> r is None,
    {
        let mut i: usize = 0;
        let n = self.entries.len();
        while i < n
            invariant
                i <= n,
                n == self.spec_entries().len(),
                self.wf(),
                spec_dir_find(self.spec_entries(), name@, i as int) == spec_dir_find(
                    self.spec_entries(),
                    name@,
                    0,
                ),
            decreases n - i,
        {
            let entry = &self.entries[i];
            if entry.name[0] == 0x00 {
                return None;
            }
            if crate::bytes::bytes_eq(name, entry.name.as_slice()) {
                return Some(self.entries[i]);
            }
            i = i + 1;
        }
        None
    }
}

/// The byte offsets at which the clusters of a chain start, first cluster
/// first, following the FAT until the end-of-chain sentinel. A chain that
/// starts outside the data clusters, runs off the table, overflows the
/// address space, or needs more than `fuel` links is a bounds error.
pub open spec fn spec_chain_starts(
    fat: Seq<u8>,
    boot: BootSector,
    cluster: u16,
    fuel: nat,
) -> Result<Seq<usize>, FsError>
    decreases fuel,
{
    if cluster < 2 {
        Err(FsError::Bounds)
    } else if boot.spec_cluster_start(cluster as int) > usize::MAX {
        Err(FsError::Bounds)
    } else if codec::entry_byte_index(cluster as int) + 1 >= fat.len() {
        Err(FsError::Bounds)
    } else if fuel == 0 {
        Err(FsError::Bounds)
    } else {
        let off = boot.spec_cluster_start(cluster as int) as usize;
        let next = codec::fat_entry(fat, cluster as int);
        if next >= 0xFF8 {
            Ok(seq![off])
        } else {
            match spec_chain_starts(fat, boot, next, (fuel - 1) as nat) {
                Err(e) => Err(e),
                Ok(s) => Ok(seq![off] + s),
            }
        }
    }
}

/// A whole FAT12 filesystem held in memory: geometry, the complete FAT and
/// the complete root directory.
pub struct DiskFat12 {
    boot_sector: BootSector,
    fat: Fat,
    root_directory: Directory,
}

impl DiskFat12 {
    /// The geometry record.
    pub closed spec fn spec_boot(self) -> BootSector {
        self.boot_sector
    }

    /// The in-memory FAT.
    pub closed spec fn spec_fat(self) -> Fat {
        self.fat
    }

    /// The in-memory root directory.
    pub closed spec fn spec_root(self) -> Directory {
        self.root_directory
    }

    /// The whole-image view is well formed when its tables are.
    pub open spec fn wf(self) -> bool {
        &&& self.spec_boot().wf()
        &&& self.spec_fat().wf()
        &&& self.spec_fat().spec_count() == self.spec_boot().spec_fat_size()
        &&& self.spec_root().wf()
    }

    /// Whether a raw image can be taken apart into this view: a boot
    /// sector's worth of bytes, geometry the view can address, and FAT and
    /// root-directory regions that lie within the image.
    pub open spec fn spec_image_accept(image: Seq<u8>) -> bool {
        &&& image.len() >= 512
        &&& ({
            let b = crate::bootsector::spec_parse_boot_sector(image);
            let ib = BootSector {
                bytes_per_sector: b.bytes_per_sector,
                sectors_per_cluster: b.sectors_per_cluster,
                reserved_sectors: b.reserved_sectors,
                fat_count: b.fat_count,
                root_entries: b.root_entries,
                sectors_per_fat: b.sectors_per_fat,
                drive_number: b.drive_number,
            };
            &&& ib.wf()
            &&& ib.spec_fat_start() + ib.spec_fat_size() <= image.len()
            &&& ib.spec_root_start() + ib.spec_root_size() <= image.len()
        })
    }

    /// Takes a raw disk image apart into the whole-image view: parses the
    /// boot sector, copies the first FAT out of it, and decodes every root
    /// directory record. An image whose geometry cannot be addressed or
    /// whose regions overrun it is a bounds error.
    pub fn new(image: &[u8]) -> (r: Result<DiskFat12, FsError>)
        ensures
            Self::spec_image_accept(image@) ==> (r matches Ok(d) && d.wf()
                && d.spec_fat().spec_entries() == image@.subrange(
                d.spec_boot().spec_fat_start(),
                d.spec_boot().spec_fat_start() + d.spec_boot().spec_fat_size(),
            ) && d.spec_root().spec_entries().len() == d.spec_boot().root_entries && (forall|i: int|
                0 <= i < d.spec_boot().root_entries ==> spec_entry_represents(
                    d.spec_root().spec_entries()[i],
                    image@.subrange(
                        d.spec_boot().spec_root_start() + i * 32,
                        d.spec_boot().spec_root_start() + i * 32 + 32,
                    ),
                ))),
            !Self::spec_image_accept(image@) ==> r == Err::<DiskFat12, FsError>(FsError::Bounds),
    {
        let n = image.len();
        if n < 512 {
            return Err(FsError::Bounds);
        }
        let boot_sector = BootSector::parse(image);
        if !(boot_sector.bytes_per_sector >= 1 && boot_sector.sectors_per_cluster >= 1
            && boot_sector.fat_count >= 1) {
            return Err(FsError::Bounds);
        }
        proof {
            assert(boot_sector.reserved_sectors as int * boot_sector.bytes_per_sector as int
                <= 0xFFFF * 0xFFFF) by (nonlinear_arith)
                requires
                    boot_sector.reserved_sectors <= 0xFFFF,
                    boot_sector.bytes_per_sector <= 0xFFFF,
            ;
            assert(boot_sector.sectors_per_fat as int * boot_sector.bytes_per_sector as int <= 0xFFFF
                * 0xFFFF) by (nonlinear_arith)
                requires
                    boot_sector.sectors_per_fat <= 0xFFFF,
                    boot_sector.bytes_per_sector <= 0xFFFF,
            ;
        }
        let fat_start32: u32 = boot_sector.reserved_sectors as u32 * boot_sector.bytes_per_sector
            as u32;
        let fat_size32: u32 = boot_sector.sectors_per_fat as u32 * boot_sector.bytes_per_sector
            as u32;
        if fat_start32 > 0xFFFF || fat_size32 > 0xFFFF {
            return Err(FsError::Bounds);
        }
        proof {
            assert(fat_size32 as int * 1 <= fat_size32 as int * boot_sector.fat_count as int)
                by (nonlinear_arith)
                requires
                    boot_sector.fat_count >= 1,
                    fat_size32 >= 0,
            ;
            assert(fat_size32 as int * boot_sector.fat_count as int <= 0xFFFF * 0xFF)
                by (nonlinear_arith)
                requires
                    fat_size32 <= 0xFFFF,
                    boot_sector.fat_count <= 0xFF,
            ;
        }
        let root_start32: u32 = fat_start32 + fat_size32 * boot_sector.fat_count as u32;
        if root_start32 > 0xFFFF {
            return Err(FsError::Bounds);
        }
        let fat_start = fat_start32 as usize;
        let fat_size = fat_size32 as usize;
        if fat_start + fat_size > n {
            return Err(FsError::Bounds);
        }
        let root_start = root_start32 as usize;
        let root_size: usize = boot_sector.root_entries as usize * 32;
        if root_start + root_size > n {
            return Err(FsError::Bounds);
        }
        let mut fat_bytes: Vec<u8> = Vec::new();
        let mut i: usize = 0;
        while i < fat_size
            invariant
                i <= fat_size,
                fat_start + fat_size <= n,
                n == image@.len(),
                fat_bytes@ == image@.subrange(fat_start as int, fat_start as int + i as int),
            decreases fat_size - i,
        {
            fat_bytes.push(image[fat_start + i]);
            i = i + 1;
            proof {
                assert(fat_bytes@ =~= image@.subrange(fat_start as int, fat_start as int + i as int));
            }
        }
        let mut entries: Vec<DirectoryEntry> = Vec::new();
        let mut k: usize = 0;
        while k < boot_sector.root_entries as usize
            invariant
                k <= boot_sector.root_entries,
                root_start + boot_sector.root_entries as int * 32 <= n,
                n == image@.len(),
                entries@.len() == k,
                forall|j: int|
                    0 <= j < k ==> spec_entry_represents(
                        entries@[j],
                        image@.subrange(
                            root_start as int + j * 32,
                            root_start as int + j * 32 + 32,
                        ),
                    ),
            decreases boot_sector.root_entries as usize - k,
        {
            proof {
                assert((k as int + 1) * 32 <= boot_sector.root_entries as int * 32)
                    by (nonlinear_arith)
                    requires
                        (k as int) < boot_sector.root_entries as int,
                ;
            }
            let e = DirectoryEntry::parse(image, root_start + k * 32);
            entries.push(e);
            k = k + 1;
        }
        let root_count = boot_sector.root_entries;
        Ok(
            DiskFat12 {
                boot_sector,
                fat: Fat::new(fat_bytes, fat_size as u16),
                root_directory: Directory::new(entries, root_count),
            },
        )
    }

    /// The root-directory record with the given 11-byte name, if any.
    pub fn root_entry(&self, name: &[u8]) -> (r: Option<DirectoryEntry>)
        requires
            self.wf(),
        ensures
            spec_dir_find(self.spec_root().spec_entries(), name@, 0) matches Some(i) ==> r == Some(
                self.spec_root().spec_entries()[i],
            ),
            spec_dir_find(self.spec_root().spec_entries(), name@, 0) is None ==> r is None,
    {
        self.root_directory.get_entry(name)
    }

    /// Walks an entry's cluster chain through the in-memory FAT and returns
    /// the byte offset at which each cluster of the chain starts, in order.
    /// A chain that runs off the table, starts in the reserved clusters, or
    /// fails to terminate is a bounds error.
    pub fn read_entry_content(&self, entry: &DirectoryEntry) -> (r: Result<Vec<usize>, FsError>)
        requires
            self.wf(),
        ensures
            ({
                let starts = spec_chain_starts(
                    self.spec_fat().spec_entries(),
                    self.spec_boot(),
                    entry.lower_first_cluster,
                    0x1000,
                );
                &&& (starts matches Ok(s) ==> r matches Ok(v) && v@ == s)
                &&& (starts is Err ==> r is Err)
            }),
    {
        let ghost fat = self.fat.spec_entries();
        let ghost b = self.boot_sector;
        let ghost first0 = entry.lower_first_cluster;
        let ghost whole = spec_chain_starts(fat, b, first0, 0x1000);
        let mut current_cluster: u16 = entry.lower_first_cluster;
        let mut out: Vec<usize> = Vec::new();
        let mut calls: u32 = 0;
        proof {
            if whole is Ok {
                assert(whole->Ok_0 =~= out@ + whole->Ok_0);
            }
        }
        loop
            invariant
                self.wf(),
                fat == self.spec_fat().spec_entries(),
                b == self.spec_boot(),
                first0 == entry.lower_first_cluster,
                whole == spec_chain_starts(fat, b, first0, 0x1000),
                calls <= 0x1000,
                ({
                    let rest = spec_chain_starts(fat, b, current_cluster, (0x1000 - calls) as nat);
                    &&& (rest matches Ok(s) ==> whole == Ok::<Seq<usize>, FsError>(out@ + s))
                    &&& (rest is Err ==> whole is Err)
                }),
            decreases 0x1000 - calls,
        {
            if current_cluster < 2 {
                return Err(FsError::Bounds);
            }
            proof {
                let cs = b.spec_cluster_size();
                assert(0 <= cs <= 0xFF * 0xFFFF) by (nonlinear_arith)
                    requires
                        cs == b.sectors_per_cluster as int * b.bytes_per_sector as int,
                        b.sectors_per_cluster <= 0xFF,
                        b.bytes_per_sector <= 0xFFFF,
                ;
                assert(cs * (current_cluster as int - 2) <= 0xFF * 0xFFFF * 0xFFFD)
                    by (nonlinear_arith)
                    requires
                        0 <= cs <= 0xFF * 0xFFFF,
                        2 <= current_cluster <= 0xFFFF,
                ;
                assert(cs * (current_cluster as int - 2) >= 0) by (nonlinear_arith)
                    requires
                        cs >= 0,
                        current_cluster >= 2,
                ;
            }
            let step64: u64 = self.boot_sector.get_cluster_size() as u64 * (current_cluster as u64
                - 2);
            let base64: u64 = self.boot_sector.get_cluster_region_start() as u64;
            if base64 + step64 > usize::MAX as u64 {
                return Err(FsError::Bounds);
            }
            let off: usize = (base64 + step64) as usize;
            proof {
                assert(off == b.spec_cluster_start(current_cluster as int));
            }
            if calls >= 0x1000 {
                return Err(FsError::Bounds);
            }
            let next = match self.fat.get_entry(current_cluster as usize) {
                Ok(v) => v,
                Err(e) => {
                    return Err(e);
                },
            };
            let ghost out_pre = out@;
            out.push(off);
            calls = calls + 1;
            proof {
                assert(out@ =~= out_pre + seq![off]);
            }
            if next >= 0x0FF8 {
                proof {
                    let rest_pre = spec_chain_starts(
                        fat,
                        b,
                        current_cluster,
                        (0x1000 - (calls - 1)) as nat,
                    );
                    assert(rest_pre == Ok::<Seq<usize>, FsError>(seq![off]));
                    if whole is Ok {
                        assert(whole->Ok_0 =~= out@);
                    }
                }
                return Ok(out);
            }
            proof {
                let rest_pre = spec_chain_starts(
                    fat,
                    b,
                    current_cluster,
                    (0x1000 - (calls - 1)) as nat,
                );
                let rest_post = spec_chain_starts(fat, b, next, (0x1000 - calls) as nat);
                if rest_post is Ok {
                    assert(rest_pre == Ok::<Seq<usize>, FsError>(seq![off] + rest_post->Ok_0));
                    assert(out_pre + (seq![off] + rest_post->Ok_0) =~= out@ + rest_post->Ok_0);
                }
            }
            current_cluster = next;
        }
    }
}

} // verus!
