//! A verified read-only FAT12 filesystem driver, as used by a boot stage that
//! must locate and stream a kernel image off a raw FAT12-formatted disk.
//!
//! The driver walks the on-disk structures (boot sector geometry, the packed
//! 12-bit file-allocation table, 8.3 directory entries) through a single
//! blocking sector-read primitive, keeping only one sector of the FAT and one
//! sector of the directory region resident at a time.

use vstd::prelude::*;

pub mod bootsector;
pub mod bytes;
pub mod chain;
pub mod codec;
pub mod descriptor;
pub mod device;
pub mod directory;
pub mod file;
pub mod fs;
pub mod image;
pub mod names;
pub mod path;

pub use bootsector::BootSector;
pub use directory::DirectoryEntry;
pub use directory::ATTR_DIRECTORY;
pub use directory::ENTRY_SIZE;
pub use codec::lemma_fat_pair_round_trip;
pub use codec::lemma_pack_round_trip;
pub use descriptor::Gdt;
pub use descriptor::GdtEntry;
pub use descriptor::GdtDescriptor;
pub use descriptor::Idt;
pub use descriptor::IdtDescriptor;
pub use descriptor::IdtEntry;
pub use descriptor::CODE_SELECTOR;
pub use descriptor::DATA_SELECTOR;
pub use device::Disk;
pub use device::SECTOR_SIZE;
pub use file::File;
pub use fs::FS;
pub use image::DiskFat12;
pub use image::Fat;
pub use image::Directory;

verus! {

/// The unrecoverable failure classes of the driver.
///
/// A missing file or path segment is not an error: lookups report absence as
/// an `Option`. These variants cover the fatal classes only, which a boot
/// stage surfaces as a halt.
#[derive(Clone, Copy, Debug, PartialEq, Eq, Structural)]
pub enum FsError {
    /// The sector-read primitive failed (the request fell outside the disk).
    Io,
    /// An index or offset fell outside the addressable on-disk table.
    Bounds,
}

} // verus!
