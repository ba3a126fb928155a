use fat12boot::Disk;
use fat12boot::DirectoryEntry;
use fat12boot::File;
use fat12boot::FsError;
use fat12boot::BootSector;
use fat12boot::FS;

const SECTOR: usize = 512;

/// Builds a boot sector for a disk with 512-byte sectors, one reserved
/// sector, one FAT copy, and the given cluster size, FAT size and root size.
fn boot_bytes(spc: u8, reserved: u16, fat_count: u8, root_entries: u16, spf: u16) -> Vec<u8> {
    let mut b = vec![0u8; SECTOR];
    b[11] = 0x00;
    b[12] = 0x02; // 512 bytes per sector
    b[13] = spc;
    b[14] = (reserved & 0xFF) as u8;
    b[15] = (reserved >> 8) as u8;
    b[16] = fat_count;
    b[17] = (root_entries & 0xFF) as u8;
    b[18] = (root_entries >> 8) as u8;
    b[22] = (spf & 0xFF) as u8;
    b[23] = (spf >> 8) as u8;
    b[36] = 0x80;
    b
}

/// Builds a blank image of `total_sectors` sectors whose first sector is the
/// given boot sector.
fn blank_image(boot: &[u8], total_sectors: usize) -> Vec<u8> {
    let mut img = vec![0u8; total_sectors * SECTOR];
    img[..SECTOR].copy_from_slice(boot);
    img
}

/// Writes the 12-bit FAT entry for `cluster` into the FAT region starting at
/// sector `fat_offset`.
fn set_fat_entry(img: &mut [u8], fat_offset: usize, cluster: usize, value: u16) {
    let base = fat_offset * SECTOR;
    let i = base + cluster * 3 / 2;
    if cluster % 2 == 0 {
        img[i] = (value & 0xFF) as u8;
        img[i + 1] = (img[i + 1] & 0xF0) | ((value >> 8) & 0x0F) as u8;
    } else {
        img[i] = (img[i] & 0x0F) | (((value & 0x0F) << 4) as u8);
        img[i + 1] = ((value >> 4) & 0xFF) as u8;
    }
}

/// Writes a 32-byte directory entry at byte offset `at`.
fn set_dir_entry(img: &mut [u8], at: usize, name: &[u8; 11], attr: u8, first_cluster: u16, size: u32) {
    img[at..at + 11].copy_from_slice(name);
    img[at + 11] = attr;
    img[at + 26] = (first_cluster & 0xFF) as u8;
    img[at + 27] = (first_cluster >> 8) as u8;
    img[at + 28] = (size & 0xFF) as u8;
    img[at + 29] = ((size >> 8) & 0xFF) as u8;
    img[at + 30] = ((size >> 16) & 0xFF) as u8;
    img[at + 31] = ((size >> 24) & 0xFF) as u8;
}

/// A small disk: 1 reserved sector, 1 FAT of 1 sector, 16 root entries
/// (1 sector), so clusters start at sector 3. Cluster size `spc` sectors.
fn small_image(spc: u8, total_sectors: usize) -> Vec<u8> {
    let boot = boot_bytes(spc, 1, 1, 16, 1);
    blank_image(&boot, total_sectors)
}

fn open_fs(img: Vec<u8>) -> FS {
    let disk = Disk::new(img, 2, 18);
    FS::new(disk).expect("filesystem should open")
}

#[test]
fn parse_entry_name_basic() {
    assert_eq!(&FS::parse_entry_name(b"test.bin"), b"TEST    BIN");
}

#[test]
fn parse_entry_name_no_extension() {
    assert_eq!(&FS::parse_entry_name(b"dir"), b"DIR        ");
}

#[test]
fn parse_entry_name_truncates() {
    assert_eq!(&FS::parse_entry_name(b"iamlongerthan11"), b"IAMLONGERTH");
}

#[test]
fn parse_entry_name_empty() {
    assert_eq!(&FS::parse_entry_name(b""), b"           ");
}

#[test]
fn lba_to_chs_zero() {
    assert_eq!(FS::lba_to_chs(0, 18, 2), (0, 0, 1));
}

#[test]
fn lba_to_chs_last_sector_of_floppy() {
    // 2879 = (79 * 2 + 1) * 18 + 17: cylinder 79, head 1, sector 18.
    assert_eq!(FS::lba_to_chs(2879, 18, 2), (79, 1, 18));
}

#[test]
fn lba_to_chs_second_track() {
    assert_eq!(FS::lba_to_chs(18, 18, 2), (0, 1, 1));
}

#[test]
fn boot_sector_parse_and_geometry() {
    let boot = boot_bytes(2, 1, 2, 224, 9);
    let b = BootSector::parse(&boot);
    assert_eq!(b.bytes_per_sector, 512);
    assert_eq!(b.sectors_per_cluster, 2);
    assert_eq!(b.reserved_sectors, 1);
    assert_eq!(b.fat_count, 2);
    assert_eq!(b.root_entries, 224);
    assert_eq!(b.sectors_per_fat, 9);
    assert_eq!(b.get_fat_offset(), 1);
    assert_eq!(b.get_fat_size(), 9);
    assert_eq!(b.get_root_offset(), 1 + 9 * 2);
    assert_eq!(b.get_root_size(), 14);
    assert_eq!(b.get_cluster_region_offset(), 19 + 14);
    assert_eq!(b.get_cluster_size(), 2);
    assert_eq!(b.get_cluster_offset(2), 33);
    assert_eq!(b.get_cluster_offset(4), 33 + 2 * 2);
}

#[test]
fn fs_new_reads_boot_sector_once() {
    let img = small_image(1, 8);
    let fs = open_fs(img);
    assert_eq!(fs.disk_read_count(), 1);
    assert_eq!(fs.boot().sectors_per_cluster, 1);
    assert_eq!(fs.boot().drive_number, 0x80);
}

#[test]
fn fs_new_rejects_empty_disk() {
    let disk = Disk::new(Vec::new(), 2, 18);
    assert_eq!(FS::new(disk).err(), Some(FsError::Io));
}

#[test]
fn fs_new_rejects_zero_cluster_size() {
    let mut boot = boot_bytes(1, 1, 1, 16, 1);
    boot[13] = 0; // sectors per cluster
    let disk = Disk::new(blank_image(&boot, 8), 2, 18);
    assert_eq!(FS::new(disk).err(), Some(FsError::Bounds));
}

#[test]
fn fs_new_rejects_truncated_regions() {
    // The root directory region would end past the disk.
    let boot = boot_bytes(1, 1, 1, 16, 1);
    let disk = Disk::new(blank_image(&boot, 2), 2, 18);
    assert_eq!(FS::new(disk).err(), Some(FsError::Bounds));
}

#[test]
fn disk_read_chs_returns_sector() {
    let mut img = small_image(1, 8);
    img[SECTOR] = 0xAB; // first byte of sector 1
    let mut disk = Disk::new(img, 2, 18);
    let data = disk.read_chs(0, 0, 2, 1).expect("sector 1 is on the disk");
    assert_eq!(data.len(), SECTOR);
    assert_eq!(data[0], 0xAB);
    assert_eq!(disk.read_count(), 1);
}

#[test]
fn disk_read_chs_rejects_bad_coordinates() {
    let img = small_image(1, 8);
    let mut disk = Disk::new(img, 2, 18);
    assert_eq!(disk.read_chs(0, 0, 0, 1).err(), Some(FsError::Io)); // sectors are 1-based
    assert_eq!(disk.read_chs(0, 2, 1, 1).err(), Some(FsError::Io)); // head out of range
    assert_eq!(disk.read_count(), 0);
}

#[test]
fn fat_cache_counts_one_read_per_sector() {
    // Two FAT sectors, so indices 0..511 live in sector 1 and 512.. in 2.
    let boot = boot_bytes(1, 1, 1, 16, 2);
    let mut img = blank_image(&boot, 16);
    img[SECTOR + 5] = 0x7E;
    img[2 * SECTOR + 3] = 0x55;
    let mut fs = open_fs(img);
    assert_eq!(fs.disk_read_count(), 1); // the boot sector
    assert_eq!(fs.fat_buffer_read(5), Ok(0x7E));
    assert_eq!(fs.disk_read_count(), 2); // first miss loads the sector
    for i in 0..512usize {
        fs.fat_buffer_read(i).unwrap();
    }
    assert_eq!(fs.disk_read_count(), 2); // hits cost nothing
    assert_eq!(fs.fat_buffer_read(512 + 3), Ok(0x55));
    assert_eq!(fs.disk_read_count(), 3); // switching sectors costs one read
    assert_eq!(fs.fat_buffer_read(512), Ok(0));
    assert_eq!(fs.disk_read_count(), 3);
    // Back to the first sector: one more read, and no more.
    assert_eq!(fs.fat_buffer_read(5), Ok(0x7E));
    assert_eq!(fs.disk_read_count(), 4);
}

#[test]
fn fat_buffer_read_rejects_out_of_table() {
    let img = small_image(1, 8);
    let mut fs = open_fs(img);
    assert_eq!(fs.fat_buffer_read(512), Err(FsError::Bounds));
}

#[test]
fn fat_entry_read_decodes_both_parities() {
    let mut img = small_image(1, 8);
    set_fat_entry(&mut img, 1, 2, 0xABC);
    set_fat_entry(&mut img, 1, 3, 0x123);
    let mut fs = open_fs(img);
    assert_eq!(fs.fat_entry_read(2), Ok(0xABC));
    assert_eq!(fs.fat_entry_read(3), Ok(0x123));
}

#[test]
fn fat_entry_read_rejects_out_of_table() {
    let img = small_image(1, 8);
    let mut fs = open_fs(img);
    // With one FAT sector, cluster 341 needs bytes 511 and 512.
    assert_eq!(fs.fat_entry_read(341), Err(FsError::Bounds));
}

#[test]
fn root_scan_stops_at_terminator() {
    let mut img = small_image(1, 8);
    let root = 2 * SECTOR;
    set_dir_entry(&mut img, root, b"KERNEL  BIN", 0x20, 2, 100);
    // Entry 1 is the 0x00 terminator; entry 2 would match but must never
    // be inspected.
    set_dir_entry(&mut img, root + 64, b"GHOST   BIN", 0x20, 3, 100);
    let mut fs = open_fs(img);
    let found = fs.get_entry_from_root(b"GHOST   BIN").unwrap();
    assert!(found.is_none());
}

#[test]
fn root_scan_reads_only_the_sector_it_stops_in() {
    // Four root sectors, terminator in the first: exactly one root read.
    let boot = boot_bytes(1, 1, 1, 64, 1);
    let mut img = blank_image(&boot, 16);
    let root = 2 * SECTOR;
    set_dir_entry(&mut img, root, b"KERNEL  BIN", 0x20, 2, 100);
    let mut fs = open_fs(img);
    assert_eq!(fs.disk_read_count(), 1);
    let found = fs.get_entry_from_root(b"MISSING BIN").unwrap();
    assert!(found.is_none());
    assert_eq!(fs.disk_read_count(), 2);
}

#[test]
fn root_scan_finds_entry_fields() {
    let mut img = small_image(1, 8);
    let root = 2 * SECTOR;
    set_dir_entry(&mut img, root, b"KERNEL  BIN", 0x20, 2, 1234);
    let mut fs = open_fs(img);
    let e = fs.get_entry_from_root(b"KERNEL  BIN").unwrap().expect("entry exists");
    assert_eq!(&e.name, b"KERNEL  BIN");
    assert_eq!(e.attributes, 0x20);
    assert_eq!(e.lower_first_cluster, 2);
    assert_eq!(e.file_size, 1234);
    assert!(!e.is_directory());
}

fn entry_for(img: &mut Vec<u8>, name: &[u8; 11], attr: u8, cluster: u16, size: u32) -> DirectoryEntry {
    let root = 2 * SECTOR;
    set_dir_entry(img, root, name, attr, cluster, size);
    let bytes: Vec<u8> = img[root..root + 32].to_vec();
    DirectoryEntry::parse(&bytes, 0)
}

#[test]
fn directory_entry_parse_all_fields() {
    let mut bytes = vec![0u8; 32];
    bytes[..11].copy_from_slice(b"FILE    TXT");
    bytes[11] = 0x21;
    bytes[12] = 7;
    bytes[13] = 9;
    bytes[14] = 0x34;
    bytes[15] = 0x12; // creation time 0x1234
    bytes[20] = 0x01; // upper first cluster 1
    bytes[26] = 0x05;
    bytes[27] = 0x00; // lower first cluster 5
    bytes[28] = 0x78;
    bytes[29] = 0x56;
    bytes[30] = 0x34;
    bytes[31] = 0x12; // size 0x12345678
    let e = DirectoryEntry::parse(&bytes, 0);
    assert_eq!(&e.name, b"FILE    TXT");
    assert_eq!(e.attributes, 0x21);
    assert_eq!(e.creation_time_tenths, 9);
    assert_eq!(e.creation_time, 0x1234);
    assert_eq!(e.upper_first_cluster, 1);
    assert_eq!(e.lower_first_cluster, 5);
    assert_eq!(e.file_size, 0x12345678);
}

#[test]
fn file_cursor_fresh_reset_fully_read() {
    let mut img = small_image(1, 8);
    let e = entry_for(&mut img, b"KERNEL  BIN", 0x20, 2, 100);
    let mut f = File::new(e);
    assert_eq!(f.current_cluster, 2);
    assert_eq!(f.current_cluster_read_sectors, 0);
    assert!(!f.is_fully_read());
    assert_eq!(f.buffer.len(), File::SECTOR_SIZE * File::BUFFER_SIZE);
    f.current_cluster = 7;
    f.finished = true;
    f.reset();
    assert_eq!(f.current_cluster, 2);
    assert!(!f.is_fully_read());
}

#[test]
fn file_read_single_cluster() {
    let mut img = small_image(1, 8);
    set_fat_entry(&mut img, 1, 2, 0xFFF); // cluster 2 ends the chain
    for i in 0..SECTOR {
        img[3 * SECTOR + i] = (i % 251) as u8; // cluster 2 lives at sector 3
    }
    let e = entry_for(&mut img, b"KERNEL  BIN", 0x20, 2, 500);
    let mut fs = open_fs(img);
    let mut f = File::new(e);
    let n = fs.file_read(&mut f).unwrap();
    assert_eq!(n, SECTOR);
    assert!(f.is_fully_read());
    assert_eq!(f.current_cluster, 2); // rewound to the first cluster
    assert_eq!(f.current_cluster_read_sectors, 0);
    for i in 0..SECTOR {
        assert_eq!(f.buffer[i], (i % 251) as u8);
    }
}

#[test]
fn file_read_streams_clusters_through_small_buffer() {
    // Clusters of 2 sectors, buffer of 1 sector: each cluster takes two
    // reads, and the chain 2 -> 3 -> 4 takes six calls in all.
    let mut img = small_image(2, 16);
    set_fat_entry(&mut img, 1, 2, 3);
    set_fat_entry(&mut img, 1, 3, 4);
    set_fat_entry(&mut img, 1, 4, 0xFF8);
    // Cluster n starts at sector 3 + (n - 2) * 2.
    for n in 2..5usize {
        let start = (3 + (n - 2) * 2) * SECTOR;
        for i in 0..2 * SECTOR {
            img[start + i] = (n * 10 + i / SECTOR) as u8;
        }
    }
    let e = entry_for(&mut img, b"KERNEL  BIN", 0x20, 2, 2500);
    let mut fs = open_fs(img);
    let mut f = File::new(e);
    let mut total = 0usize;
    let mut calls = 0usize;
    let mut collected: Vec<u8> = Vec::new();
    while !f.is_fully_read() {
        let n = fs.file_read(&mut f).unwrap();
        collected.extend_from_slice(&f.buffer[..n]);
        total += n;
        calls += 1;
        assert!(calls < 100, "the chain must terminate");
    }
    // 2500 bytes rounded up to 2-sector clusters: 3 clusters, 3072 bytes.
    assert_eq!(total, 3 * 2 * SECTOR);
    assert_eq!(calls, 6);
    assert_eq!(f.current_cluster, 2);
    assert_eq!(f.current_cluster_read_sectors, 0);
    assert_eq!(collected[0], 20);
    assert_eq!(collected[SECTOR], 21);
    assert_eq!(collected[2 * SECTOR], 30);
    assert_eq!(collected[5 * SECTOR], 41);
}

#[test]
fn file_read_to_end_collects_whole_chain() {
    let mut img = small_image(2, 16);
    set_fat_entry(&mut img, 1, 2, 3);
    set_fat_entry(&mut img, 1, 3, 0xFFF);
    for i in 0..2 * SECTOR {
        img[3 * SECTOR + i] = 1;
        img[5 * SECTOR + i] = 2;
    }
    let e = entry_for(&mut img, b"KERNEL  BIN", 0x20, 2, 1500);
    let mut fs = open_fs(img);
    let mut f = File::new(e);
    let v = fs.file_read_to_end(&mut f).unwrap();
    assert_eq!(v.len(), 4 * SECTOR); // whole clusters only
    assert!(v[..2 * SECTOR].iter().all(|&b| b == 1));
    assert!(v[2 * SECTOR..].iter().all(|&b| b == 2));
    assert!(f.is_fully_read());
}

#[test]
fn file_read_free_link_ends_chain() {
    // A FAT entry of 0 is not a valid next cluster: the chain ends there.
    let mut img = small_image(1, 8);
    set_fat_entry(&mut img, 1, 2, 0);
    let e = entry_for(&mut img, b"KERNEL  BIN", 0x20, 2, 100);
    let mut fs = open_fs(img);
    let mut f = File::new(e);
    let n = fs.file_read(&mut f).unwrap();
    assert_eq!(n, SECTOR);
    assert!(!f.is_fully_read()); // the junk link is only seen next call
    let n2 = fs.file_read(&mut f).unwrap();
    assert_eq!(n2, 0);
    assert!(f.is_fully_read());
}

#[test]
fn file_read_past_disk_is_io_error() {
    let mut img = small_image(1, 8);
    set_fat_entry(&mut img, 1, 20, 0xFFF);
    // Cluster 20 starts at sector 3 + 18 = 21, past the 8-sector disk.
    let e = entry_for(&mut img, b"KERNEL  BIN", 0x20, 20, 100);
    let mut fs = open_fs(img);
    let mut f = File::new(e);
    assert_eq!(fs.file_read(&mut f), Err(FsError::Io));
}

#[test]
fn lookup_in_directory_scans_cluster_chain() {
    let mut img = small_image(1, 16);
    // The directory's data spans clusters 2 -> 3; the wanted entry is the
    // 17th, i.e. in the second cluster.
    set_fat_entry(&mut img, 1, 2, 3);
    set_fat_entry(&mut img, 1, 3, 0xFFF);
    for i in 0..16usize {
        let name = [b'F', b'I', b'L', b'E', b'0' + (i / 10) as u8, b'0' + (i % 10) as u8, b' ',
            b' ', b'T', b'X', b'T'];
        set_dir_entry(&mut img, 3 * SECTOR + i * 32, &name, 0x20, 8, 1);
    }
    set_dir_entry(&mut img, 4 * SECTOR, b"WANTED  TXT", 0x20, 9, 42);
    let e = entry_for(&mut img, b"SUBDIR     ", 0x10, 2, 0);
    let mut fs = open_fs(img);
    let mut dir = File::new(e);
    let found = fs.get_entry_from_directory(&mut dir, b"WANTED  TXT").unwrap();
    let found = found.expect("entry lives in the second cluster");
    assert_eq!(found.lower_first_cluster, 9);
    assert_eq!(found.file_size, 42);
    let missing = fs.get_entry_from_directory(&mut dir, b"ABSENT  TXT").unwrap();
    assert!(missing.is_none());
}

fn nested_image() -> Vec<u8> {
    let mut img = small_image(1, 16);
    // Root: "DIR" as a subdirectory at cluster 2, and "A" as a plain file.
    set_dir_entry(&mut img, 2 * SECTOR, b"DIR        ", 0x10, 2, 0);
    set_dir_entry(&mut img, 2 * SECTOR + 32, b"A          ", 0x20, 4, 3);
    // DIR's data (cluster 2, sector 3): "INNER.TXT" at cluster 3.
    set_fat_entry(&mut img, 1, 2, 0xFFF);
    set_dir_entry(&mut img, 3 * SECTOR, b"INNER   TXT", 0x20, 3, 5);
    // INNER.TXT's data (cluster 3, sector 4).
    set_fat_entry(&mut img, 1, 3, 0xFFF);
    img[4 * SECTOR..4 * SECTOR + 5].copy_from_slice(b"hello");
    // A's data (cluster 4, sector 5).
    set_fat_entry(&mut img, 1, 4, 0xFFF);
    img
}

#[test]
fn resolve_absolute_path_nested() {
    let mut fs = open_fs(nested_image());
    let e = fs.get_entry_from_absolute_path(b"/dir/inner.txt").unwrap();
    let e = e.expect("the nested file exists");
    assert_eq!(&e.name, b"INNER   TXT");
    assert_eq!(e.lower_first_cluster, 3);
    assert_eq!(e.file_size, 5);
}

#[test]
fn resolve_absolute_path_root_level() {
    let mut fs = open_fs(nested_image());
    let e = fs.get_entry_from_absolute_path(b"/A").unwrap();
    assert_eq!(e.expect("A exists").lower_first_cluster, 4);
}

#[test]
fn resolve_absolute_path_missing() {
    let mut fs = open_fs(nested_image());
    assert!(fs.get_entry_from_absolute_path(b"/nope.txt").unwrap().is_none());
    assert!(fs.get_entry_from_absolute_path(b"/dir/nope.txt").unwrap().is_none());
}

#[test]
fn resolve_rejects_file_used_as_directory() {
    // "A" exists but is a plain file: a path that descends through it must
    // resolve to nothing even though the name matches.
    let mut fs = open_fs(nested_image());
    assert!(fs.get_entry_from_absolute_path(b"/A/B.TXT").unwrap().is_none());
}

#[test]
fn resolve_ignores_repeated_separators() {
    let mut fs = open_fs(nested_image());
    let e = fs.get_entry_from_absolute_path(b"//dir///inner.txt").unwrap();
    assert_eq!(e.expect("same path").lower_first_cluster, 3);
}

#[test]
fn resolve_bare_separator_names_nothing() {
    let mut fs = open_fs(nested_image());
    assert!(fs.get_entry_from_absolute_path(b"/").unwrap().is_none());
}

#[test]
fn get_file_from_absolute_path_returns_fresh_cursor() {
    let mut fs = open_fs(nested_image());
    let f = fs.get_file_from_absolute_path(b"/dir/inner.txt").unwrap();
    let mut f = f.expect("the nested file exists");
    assert_eq!(f.metadata.lower_first_cluster, 3);
    assert_eq!(f.current_cluster, 3);
    assert_eq!(f.current_cluster_read_sectors, 0);
    assert!(!f.is_fully_read());
    let v = fs.file_read_to_end(&mut f).unwrap();
    assert_eq!(&v[..5], b"hello");
    assert_eq!(v.len(), SECTOR);
}

#[test]
fn read_counts_stay_within_one_read_per_new_sector() {
    let mut fs = open_fs(nested_image());
    let before = fs.disk_read_count();
    fs.get_entry_from_absolute_path(b"/dir/inner.txt").unwrap().unwrap();
    let after = fs.disk_read_count();
    // Root sector, directory cluster, and at most one FAT sector.
    assert!(after - before <= 3, "spent {} reads", after - before);
}

#[test]
fn parse_entry_name_leading_dot_is_all_extension() {
    assert_eq!(&FS::parse_entry_name(b".bin"), b"        BIN");
}

#[test]
fn parse_entry_name_keeps_last_dot_only() {
    assert_eq!(&FS::parse_entry_name(b"a.b.c"), b"A.B       C");
}

#[test]
fn resolve_trailing_separator_names_the_directory() {
    let mut fs = open_fs(nested_image());
    let e = fs.get_entry_from_absolute_path(b"/dir/").unwrap();
    let e = e.expect("the directory itself");
    assert!(e.is_directory());
    assert_eq!(e.lower_first_cluster, 2);
}

#[test]
fn fat_entry_spanning_sector_boundary() {
    // With a 2-sector FAT, cluster 341's packed bytes are 511 and 512: one
    // in each FAT sector. Reading it costs two cache fills.
    let boot = boot_bytes(1, 1, 1, 16, 2);
    let mut img = blank_image(&boot, 16);
    // value 0x5A6: odd cluster, bytes at 511 (high nibble) and 512.
    img[SECTOR + 511] = 0x60 | (img[SECTOR + 511] & 0x0F);
    img[2 * SECTOR] = 0x5A;
    let mut fs = open_fs(img);
    assert_eq!(fs.disk_read_count(), 1);
    assert_eq!(fs.fat_entry_read(341), Ok(0x5A6));
    assert_eq!(fs.disk_read_count(), 3);
}

#[test]
fn empty_root_directory_finds_nothing() {
    let boot = boot_bytes(1, 1, 1, 0, 1);
    let img = blank_image(&boot, 8);
    let mut fs = open_fs(img);
    assert_eq!(fs.disk_read_count(), 1);
    assert!(fs.get_entry_from_root(b"ANYTHINGBIN").unwrap().is_none());
    assert_eq!(fs.disk_read_count(), 1); // nothing to read
}

#[test]
fn file_read_to_end_propagates_io_error() {
    let mut img = small_image(1, 8);
    set_fat_entry(&mut img, 1, 2, 30); // next cluster far past the disk
    set_fat_entry(&mut img, 1, 30, 0xFFF);
    let e = entry_for(&mut img, b"KERNEL  BIN", 0x20, 2, 100);
    let mut fs = open_fs(img);
    let mut f = File::new(e);
    assert_eq!(fs.file_read_to_end(&mut f).err(), Some(FsError::Io));
}
