use fat12boot::DirectoryEntry;
use fat12boot::DiskFat12;
use fat12boot::Fat;
use fat12boot::FsError;

const SECTOR: usize = 512;

/// Packs the 12-bit pair `(a, b)` into three FAT bytes.
fn pack_pair(a: u16, b: u16) -> [u8; 3] {
    [
        (a & 0xFF) as u8,
        (((a >> 8) & 0x0F) | ((b & 0x0F) << 4)) as u8,
        ((b >> 4) & 0xFF) as u8,
    ]
}

fn image_with_layout() -> Vec<u8> {
    // 512-byte sectors, 1 sector per cluster, 1 reserved sector, 1 FAT of
    // 1 sector, 16 root entries: FAT at byte 512, root at 1024, clusters
    // at 1536.
    let mut img = vec![0u8; 8 * SECTOR];
    img[11] = 0x00;
    img[12] = 0x02;
    img[13] = 1;
    img[14] = 1;
    img[16] = 1;
    img[17] = 16;
    img[22] = 1;
    img
}

fn set_fat_entry(img: &mut [u8], cluster: usize, value: u16) {
    let i = SECTOR + cluster * 3 / 2;
    if cluster % 2 == 0 {
        img[i] = (value & 0xFF) as u8;
        img[i + 1] = (img[i + 1] & 0xF0) | ((value >> 8) & 0x0F) as u8;
    } else {
        img[i] = (img[i] & 0x0F) | (((value & 0x0F) << 4) as u8);
        img[i + 1] = ((value >> 4) & 0xFF) as u8;
    }
}

fn set_root_entry(img: &mut [u8], slot: usize, name: &[u8; 11], attr: u8, cluster: u16) {
    let at = 2 * SECTOR + slot * 32;
    img[at..at + 11].copy_from_slice(name);
    img[at + 11] = attr;
    img[at + 26] = (cluster & 0xFF) as u8;
    img[at + 27] = (cluster >> 8) as u8;
}

#[test]
fn fat12_pack_decode_round_trips() {
    // Any two 12-bit values packed into three bytes decode back exactly,
    // from the even and the odd cluster index respectively.
    let pairs = [
        (0x000, 0x000),
        (0xFFF, 0xFFF),
        (0xABC, 0x123),
        (0x001, 0xFFE),
        (0x800, 0x00F),
    ];
    for &(a, b) in pairs.iter() {
        let bytes = pack_pair(a, b);
        let mut table = bytes.to_vec();
        table.push(0); // room for the odd entry's second byte
        let fat = Fat::new(table, 4);
        assert_eq!(fat.get_entry(0), Ok(a), "even entry of pair {:03X}/{:03X}", a, b);
        assert_eq!(fat.get_entry(1), Ok(b), "odd entry of pair {:03X}/{:03X}", a, b);
    }
}

#[test]
fn fat_get_entry_out_of_table_is_bounds_error() {
    let fat = Fat::new(vec![0u8; 6], 6);
    assert_eq!(fat.get_entry(4), Err(FsError::Bounds)); // needs bytes 6 and 7
    assert!(fat.get_entry(2).is_ok());
}

#[test]
fn disk_fat12_new_splits_image() {
    let mut img = image_with_layout();
    set_fat_entry(&mut img, 2, 0xFFF);
    set_root_entry(&mut img, 0, b"KERNEL  BIN", 0x20, 2);
    let d = DiskFat12::new(&img).expect("image is well formed");
    let e = d.root_entry(b"KERNEL  BIN").expect("entry exists");
    assert_eq!(&e.name, b"KERNEL  BIN");
    assert_eq!(e.lower_first_cluster, 2);
    assert!(d.root_entry(b"MISSING BIN").is_none());
}

#[test]
fn disk_fat12_rejects_short_image() {
    assert_eq!(DiskFat12::new(&[0u8; 100]).err(), Some(FsError::Bounds));
}

#[test]
fn disk_fat12_rejects_overrunning_regions() {
    let mut img = image_with_layout();
    img.truncate(2 * SECTOR); // the root directory region is cut off
    assert_eq!(DiskFat12::new(&img).err(), Some(FsError::Bounds));
}

#[test]
fn read_entry_content_lists_cluster_starts() {
    let mut img = image_with_layout();
    // Chain 2 -> 3 -> 5 -> end.
    set_fat_entry(&mut img, 2, 3);
    set_fat_entry(&mut img, 3, 5);
    set_fat_entry(&mut img, 5, 0xFF8);
    set_root_entry(&mut img, 0, b"KERNEL  BIN", 0x20, 2);
    let d = DiskFat12::new(&img).expect("image is well formed");
    let e = d.root_entry(b"KERNEL  BIN").expect("entry exists");
    let starts = d.read_entry_content(&e).expect("chain terminates");
    // Clusters start at byte 1536; cluster n at 1536 + (n - 2) * 512.
    assert_eq!(starts, vec![1536, 1536 + 512, 1536 + 3 * 512]);
}

#[test]
fn read_entry_content_rejects_reserved_first_cluster() {
    let mut img = image_with_layout();
    set_root_entry(&mut img, 0, b"EMPTY   BIN", 0x20, 0);
    let d = DiskFat12::new(&img).expect("image is well formed");
    let e = d.root_entry(b"EMPTY   BIN").expect("entry exists");
    assert_eq!(d.read_entry_content(&e), Err(FsError::Bounds));
}

#[test]
fn read_entry_content_rejects_cyclic_chain() {
    let mut img = image_with_layout();
    set_fat_entry(&mut img, 2, 3);
    set_fat_entry(&mut img, 3, 2); // 2 -> 3 -> 2: a cycle
    set_root_entry(&mut img, 0, b"LOOP    BIN", 0x20, 2);
    let d = DiskFat12::new(&img).expect("image is well formed");
    let e = d.root_entry(b"LOOP    BIN").expect("entry exists");
    assert_eq!(d.read_entry_content(&e), Err(FsError::Bounds));
}

#[test]
fn directory_scan_stops_at_zero_name() {
    let mut img = image_with_layout();
    set_root_entry(&mut img, 0, b"FIRST   BIN", 0x20, 2);
    // Slot 1 stays zeroed: the terminator. Slot 2 must never match.
    set_root_entry(&mut img, 2, b"BEYOND  BIN", 0x20, 3);
    let d = DiskFat12::new(&img).expect("image is well formed");
    assert!(d.root_entry(b"BEYOND  BIN").is_none());
    assert!(d.root_entry(b"FIRST   BIN").is_some());
}

#[test]
fn in_memory_boot_sector_byte_offsets() {
    let img = image_with_layout();
    let b = fat12boot::image::BootSector::parse(&img[..512]);
    assert_eq!(b.get_fat_start(), 512);
    assert_eq!(b.get_fat_size(), 512);
    assert_eq!(b.get_root_start(), 1024);
    assert_eq!(b.get_root_size(), 512);
    assert_eq!(b.get_cluster_region_start(), 1536);
    assert_eq!(b.get_cluster_size(), 512);
}

#[test]
fn in_memory_cluster_start_accounts_for_reserved_entries() {
    let img = image_with_layout();
    let b = fat12boot::image::BootSector::parse(&img[..512]);
    assert_eq!(b.get_cluster_start(2), 1536);
    assert_eq!(b.get_cluster_start(4), 1536 + 2 * 512);
}

#[test]
fn directory_entry_parse_is_byte_exact() {
    let mut bytes = vec![0u8; 40];
    bytes[4..15].copy_from_slice(b"HELLO   TXT");
    bytes[4 + 26] = 7;
    let e = DirectoryEntry::parse(&bytes, 4);
    assert_eq!(&e.name, b"HELLO   TXT");
    assert_eq!(e.lower_first_cluster, 7);
}
