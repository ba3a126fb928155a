//! The disk the driver reads from: a block device addressed by physical
//! cylinder/head/sector coordinates, holding whole 512-byte sectors.
//!
//! The boot environment's read primitive is blocking, reports only success or
//! failure, and transfers whole sectors. `Disk` models exactly that interface
//! over an in-memory image, and counts the reads it performs so that callers
//! can state how many disk operations a code path costs.

use vstd::prelude::*;

use crate::FsError;

verus! {

/// The number of bytes in one disk sector.
pub const SECTOR_SIZE: usize = 512;

/// A disk: its raw contents, its physical geometry, and a count of the
/// sector reads served so far.
pub struct Disk {
    image: Vec<u8>,
    heads: u8,
    sectors_per_track: u8,
    reads: u64,
}

/// The linear sector address that the physical coordinates
/// (`cylinder`, `head`, `sector`) name on a disk with `heads` heads and
/// `sectors_per_track` sectors per track. Sector numbers are 1-based.
pub open spec fn spec_chs_to_lba(cylinder: u16, head: u8, sector: u8, heads: u8, sectors_per_track: u8) -> int {
    (cylinder * heads + head) * sectors_per_track + sector - 1
}

impl Disk {
    /// The raw bytes of the disk, sector 0 first.
    pub closed spec fn contents(self) -> Seq<u8> {
        self.image@
    }

    /// The number of heads the geometry reports.
    pub closed spec fn spec_heads(self) -> u8 {
        self.heads
    }

    /// The number of sectors per track the geometry reports.
    pub closed spec fn spec_sectors_per_track(self) -> u8 {
        self.sectors_per_track
    }

    /// How many sector reads this disk has served.
    pub closed spec fn spec_reads(self) -> u64 {
        self.reads
    }

    /// A disk is well formed when its geometry divisors are non-zero and its
    /// image is a whole number of sectors.
    pub open spec fn wf(self) -> bool {
        &&& self.spec_heads() >= 1
        &&& self.spec_sectors_per_track() >= 1
        &&& self.contents().len() as int % (SECTOR_SIZE as int) == 0
    }

    /// Wraps a raw image and its geometry as a disk with no reads served yet.
    pub fn new(image: Vec<u8>, heads: u8, sectors_per_track: u8) -> (d: Disk)
        requires
            heads >= 1,
            sectors_per_track >= 1,
            image@.len() as int % (SECTOR_SIZE as int) == 0,
        ensures
            d.contents() == image@,
            d.spec_heads() == heads,
            d.spec_sectors_per_track() == sectors_per_track,
            d.spec_reads() == 0,
            d.wf(),
    {
        Disk { image, heads, sectors_per_track, reads: 0 }
    }

    /// How many sector reads this disk has served so far.
    pub fn read_count(&self) -> (n: u64)
        ensures
            n == self.spec_reads(),
    {
        self.reads
    }

    /// The number of heads the geometry reports.
    pub fn heads(&self) -> (h: u8)
        ensures
            h == self.spec_heads(),
    {
        self.heads
    }

    /// The number of sectors per track the geometry reports.
    pub fn sectors_per_track(&self) -> (s: u8)
        ensures
            s == self.spec_sectors_per_track(),
    {
        self.sectors_per_track
    }

    /// The size of the disk in bytes.
    pub fn size(&self) -> (n: usize)
        ensures
            n == self.contents().len(),
    {
        self.image.len()
    }

    /// Whether a read of `count` sectors at the given physical coordinates
    /// succeeds: the coordinates must be on the disk's geometry and the whole
    /// transfer must lie within the disk.
    pub open spec fn read_ok(self, cylinder: u16, head: u8, sector: u8, count: u8) -> bool {
        let lba = spec_chs_to_lba(cylinder, head, sector, self.spec_heads(), self.spec_sectors_per_track());
        &&& 1 <= sector <= self.spec_sectors_per_track()
        &&& head < self.spec_heads()
        &&& (lba + count) * SECTOR_SIZE <= self.contents().len()
    }

    /// Reads `count` whole sectors starting at the physical coordinates
    /// (`cylinder`, `head`, `sector`). Succeeds exactly when the request lies
    /// on the disk, returning the raw bytes; each success costs one read.
    pub fn read_chs(&mut self, cylinder: u16, head: u8, sector: u8, count: u8) -> (r: Result<
        Vec<u8>,
        FsError,
    >)
        requires
            old(self).wf(),
            old(self).spec_reads() < u64::MAX,
        ensures
            final(self).wf(),
            final(self).contents() == old(self).contents(),
            final(self).spec_heads() == old(self).spec_heads(),
            final(self).spec_sectors_per_track() == old(self).spec_sectors_per_track(),
            old(self).read_ok(cylinder, head, sector, count) ==> {
                let lba = spec_chs_to_lba(
                    cylinder,
                    head,
                    sector,
                    old(self).spec_heads(),
                    old(self).spec_sectors_per_track(),
                );
                &&& r matches Ok(v)
                &&& v@ == old(self).contents().subrange(
                    lba * SECTOR_SIZE,
                    (lba + count) * SECTOR_SIZE,
                )
                &&& final(self).spec_reads() == old(self).spec_reads() + 1
            },
            !old(self).read_ok(cylinder, head, sector, count) ==> {
                &&& r matches Err(e) && e == FsError::Io
                &&& final(self).spec_reads() == old(self).spec_reads()
            },
    {
        if sector < 1 || sector > self.sectors_per_track || head >= self.heads {
            return Err(FsError::Io);
        }
        proof {
            assert(cylinder as int * self.heads as int <= 0xFFFF * 0xFF) by (nonlinear_arith)
                requires
                    cylinder <= 0xFFFF,
                    self.heads <= 0xFF,
            ;
        }
        let track: u64 = cylinder as u64 * self.heads as u64 + head as u64;
        proof {
            assert(track as int * self.sectors_per_track as int <= (0xFFFF * 0xFF + 0xFF) * 0xFF)
                by (nonlinear_arith)
                requires
                    track <= 0xFFFF * 0xFF + 0xFF,
                    self.sectors_per_track <= 0xFF,
            ;
        }
        let lba: u64 = track * self.sectors_per_track as u64 + sector as u64 - 1;
        proof {
            assert(lba as int * SECTOR_SIZE as int <= 0x2_0000_0000 * 512) by (nonlinear_arith)
                requires
                    lba <= 0x2_0000_0000,
            ;
        }
        let start: u64 = lba * SECTOR_SIZE as u64;
        let end: u64 = start + count as u64 * SECTOR_SIZE as u64;
        if end > self.image.len() as u64 {
            return Err(FsError::Io);
        }
        let mut v: Vec<u8> = Vec::new();
        let mut i: usize = start as usize;
        while i < end as usize
            invariant
                start <= i <= end,
                end <= self.image.len(),
                v@ == self.image@.subrange(start as int, i as int),
            decreases end as usize - i,
        {
            v.push(self.image[i]);
            i = i + 1;
            proof {
                assert(v@ =~= self.image@.subrange(start as int, i as int));
            }
        }
        self.reads = self.reads + 1;
        Ok(v)
    }
}

} // verus!
