use libpart::gpt::{GPTTable, GPTOptions, ErrorType};
use libpart::guid::Uuid;
use libpart::util::Block;

fn crc32(data: &[u8]) -> u32 {
    checksum::crc32::Crc32::new().checksum(data)
}

fn mixed(bytes: [u8; 16]) -> [u8; 16] {
    let mut out = bytes;
    out[0..4].reverse();
    out[4..6].reverse();
    out[6..8].reverse();
    out
}

fn build_entry(
    ptype: [u8; 16],
    pid: [u8; 16],
    start: u64,
    end: u64,
    flags: u64,
    name: &str,
) -> [u8; 128] {
    let mut e = [0u8; 128];
    e[0..16].copy_from_slice(&mixed(ptype));
    e[16..32].copy_from_slice(&mixed(pid));
    e[32..40].copy_from_slice(&start.to_le_bytes());
    e[40..48].copy_from_slice(&end.to_le_bytes());
    e[48..56].copy_from_slice(&flags.to_le_bytes());
    for (i, u) in name.encode_utf16().take(36).enumerate() {
        e[56 + 2 * i..58 + 2 * i].copy_from_slice(&u.to_le_bytes());
    }
    e
}

fn build_image(total_len: usize, backup: u64, entries: &[[u8; 128]]) -> Vec<u8> {
    let mut img = vec![0u8; total_len];
    let mut earr: Vec<u8> = Vec::new();
    for e in entries {
        earr.extend_from_slice(e);
    }
    let part_crc = crc32(&earr);
    let mut hdr = [0u8; 92];
    hdr[0..8].copy_from_slice(b"EFI PART");
    hdr[8..12].copy_from_slice(&[0x00, 0x00, 0x01, 0x00]);
    hdr[12..16].copy_from_slice(&92u32.to_le_bytes());
    hdr[24..32].copy_from_slice(&1u64.to_le_bytes());
    hdr[32..40].copy_from_slice(&backup.to_le_bytes());
    hdr[40..48].copy_from_slice(&3u64.to_le_bytes());
    hdr[48..56].copy_from_slice(&(backup - 1).to_le_bytes());
    hdr[72..80].copy_from_slice(&2u64.to_le_bytes());
    hdr[80..84].copy_from_slice(&(entries.len() as u32).to_le_bytes());
    hdr[84..88].copy_from_slice(&128u32.to_le_bytes());
    hdr[88..92].copy_from_slice(&part_crc.to_le_bytes());
    let hcrc = crc32(&hdr);
    hdr[16..20].copy_from_slice(&hcrc.to_le_bytes());
    img[512..604].copy_from_slice(&hdr);
    img[1024..1024 + earr.len()].copy_from_slice(&earr);
    img
}

fn type_guid() -> [u8; 16] {
    [0x00, 0x11, 0x22, 0x33, 0x44, 0x55, 0x66, 0x77, 0x88, 0x99, 0xaa, 0xbb, 0xcc, 0xdd, 0xee,
        0xff]
}

fn sample_image() -> Vec<u8> {
    let entries = [
        build_entry(type_guid(), [7u8; 16], 100, 200, 4, "root"),
        [0u8; 128],
        [0u8; 128],
        [0u8; 128],
    ];
    build_image(1536, 5, &entries)
}

#[test]
fn synthetic_image_loads_with_one_partition() {
    let img = sample_image();
    let opts = GPTOptions::default();
    let table = GPTTable::load(&img, &opts).unwrap();
    assert_eq!(table.part_count(), 1);
    let slots = table.partitions();
    assert_eq!(slots.len(), 4);
    let p = slots[0].as_ref().unwrap();
    assert_eq!(p.part_type.as_bytes().as_slice(), &type_guid());
    assert_eq!(p.name, "root");
    assert_eq!(p.start, Block(100));
    assert_eq!(p.end, Block(200));
    assert_eq!(p.flags, 4);
    assert_eq!(p.part_id.as_bytes().as_slice(), &mixed(mixed([7u8; 16])));
    assert!(slots[1].is_none() && slots[2].is_none() && slots[3].is_none());
}

#[test]
fn table_exists_checks_the_magic() {
    let img = sample_image();
    let opts = GPTOptions::default();
    assert!(GPTTable::table_exists(&img, &opts));
    let mut bad = img.clone();
    bad[512] = b'X';
    assert!(!GPTTable::table_exists(&bad, &opts));
    assert!(!GPTTable::table_exists(&vec![0u8; 100], &opts));
}

#[test]
fn bad_magic_reports_no_table() {
    let mut img = sample_image();
    img[512] = b'X';
    let err = GPTTable::load(&img, &GPTOptions::default()).unwrap_err();
    assert_eq!(err.error_type(), ErrorType::NoTable);
    assert!(!err.description().is_empty());
}

#[test]
fn bad_revision_reports_invalid_version() {
    let mut img = sample_image();
    img[512 + 10] = 0x02;
    let err = GPTTable::load(&img, &GPTOptions::default()).unwrap_err();
    assert_eq!(err.error_type(), ErrorType::InvalidVersion);
}

#[test]
fn wrong_header_length_reports_invalid_header() {
    let mut img = sample_image();
    img[512 + 12] = 96;
    let err = GPTTable::load(&img, &GPTOptions::default()).unwrap_err();
    assert_eq!(err.error_type(), ErrorType::InvalidHeader);
}

#[test]
fn wrong_array_location_reports_invalid_header() {
    let mut img = sample_image();
    img[512 + 72] = 3;
    let err = GPTTable::load(&img, &GPTOptions::default()).unwrap_err();
    assert_eq!(err.error_type(), ErrorType::InvalidHeader);
}

#[test]
fn wrong_entry_size_reports_invalid_header() {
    let mut img = sample_image();
    img[512 + 84] = 64;
    let err = GPTTable::load(&img, &GPTOptions::default()).unwrap_err();
    assert_eq!(err.error_type(), ErrorType::InvalidHeader);
}

#[test]
fn short_image_reports_io_error() {
    let err = GPTTable::load(&vec![0u8; 100], &GPTOptions::default()).unwrap_err();
    assert_eq!(err.error_type(), ErrorType::IOError);
}

#[test]
fn truncated_entry_array_reports_io_error() {
    let entries = [[0u8; 128]; 4];
    let mut img = build_image(1536, 5, &entries);
    img.truncate(1100);
    let err = GPTTable::load(&img, &GPTOptions::default()).unwrap_err();
    assert_eq!(err.error_type(), ErrorType::IOError);
}

#[test]
fn corrupt_stored_checksum_reports_checksum_error() {
    let mut img = sample_image();
    img[512 + 16] ^= 0xff;
    let err = GPTTable::load(&img, &GPTOptions::default()).unwrap_err();
    assert_eq!(err.error_type(), ErrorType::ChecksumError);
}

#[test]
fn every_header_byte_flip_fails_the_load() {
    let img = sample_image();
    for pos in 512..604 {
        let mut bad = img.clone();
        bad[pos] ^= 0xff;
        assert!(
            GPTTable::load(&bad, &GPTOptions::default()).is_err(),
            "flip at {} was not caught",
            pos
        );
    }
}

#[test]
fn non_structural_header_byte_flips_report_checksum_error() {
    let img = sample_image();
    // bytes covered by the header checksum but by no structural check:
    // reserved, locations, usable range, disk UUID, count, array checksum
    let ranges = [(532usize, 584usize), (592usize, 596usize), (600usize, 604usize)];
    for (a, b) in ranges {
        for pos in a..b {
            let mut bad = img.clone();
            bad[pos] ^= 0xff;
            let err = GPTTable::load(&bad, &GPTOptions::default()).unwrap_err();
            assert_eq!(err.error_type(), ErrorType::ChecksumError, "flip at {}", pos);
        }
    }
}

#[test]
fn every_entry_byte_flip_reports_checksum_error() {
    let img = sample_image();
    for pos in 1024..1536 {
        let mut bad = img.clone();
        bad[pos] ^= 0xff;
        let err = GPTTable::load(&bad, &GPTOptions::default()).unwrap_err();
        assert_eq!(err.error_type(), ErrorType::ChecksumError, "flip at {}", pos);
    }
}

#[test]
fn entry_byte_flips_load_when_checksums_are_ignored() {
    let img = sample_image();
    let opts = GPTOptions { block_size: 512, ignore_csum: true, ignore_utf16_errors: true };
    for pos in 1024..1536 {
        let mut bad = img.clone();
        bad[pos] ^= 0xff;
        assert!(GPTTable::load(&bad, &opts).is_ok(), "flip at {}", pos);
    }
}

#[test]
fn invalid_utf16_name_reports_utf16_error() {
    let mut entry = build_entry(type_guid(), [7u8; 16], 1, 2, 0, "");
    // a lone high surrogate as the first name unit
    entry[56] = 0x00;
    entry[57] = 0xd8;
    let img = build_image(1536, 5, &[entry, [0u8; 128], [0u8; 128], [0u8; 128]]);
    let err = GPTTable::load(&img, &GPTOptions::default()).unwrap_err();
    assert_eq!(err.error_type(), ErrorType::UTF16Error);
    // with the ignore option the name degrades to empty instead
    let opts = GPTOptions { block_size: 512, ignore_csum: false, ignore_utf16_errors: true };
    let table = GPTTable::load(&img, &opts).unwrap();
    assert_eq!(table.partitions()[0].as_ref().unwrap().name, "");
}

#[test]
fn write_then_load_gives_an_equal_table() {
    let entries = [
        build_entry(type_guid(), [7u8; 16], 100, 200, 4, "root"),
        [0u8; 128],
        build_entry([9u8; 16], [8u8; 16], 300, 400, 1, "data"),
        [0u8; 128],
    ];
    // backup at block 6: entry array (1 block) fits behind the primary copy
    let mut img = build_image(7 * 512, 6, &entries);
    let opts = GPTOptions::default();
    let table = GPTTable::load(&img, &opts).unwrap();
    table.write(&mut img, &opts).unwrap();
    let back = GPTTable::load(&img, &opts).unwrap();
    assert_eq!(back.part_count(), table.part_count());
    for (a, b) in back.partitions().iter().zip(table.partitions().iter()) {
        match (a, b) {
            (None, None) => {}
            (Some(x), Some(y)) => {
                assert_eq!(x.part_type.as_bytes(), y.part_type.as_bytes());
                assert_eq!(x.part_id.as_bytes(), y.part_id.as_bytes());
                assert_eq!(x.start, y.start);
                assert_eq!(x.end, y.end);
                assert_eq!(x.flags, y.flags);
                assert_eq!(x.name, y.name);
            }
            _ => panic!("slot occupancy changed"),
        }
    }
    // the backup header lies at its block and mirrors the locations
    assert_eq!(&img[6 * 512..6 * 512 + 8], b"EFI PART");
    let this_lba = u64::from_le_bytes(img[6 * 512 + 24..6 * 512 + 32].try_into().unwrap());
    let other_lba = u64::from_le_bytes(img[6 * 512 + 32..6 * 512 + 40].try_into().unwrap());
    assert_eq!(this_lba, 6);
    assert_eq!(other_lba, 1);
    // the backup entry array sits immediately before the backup header
    assert_eq!(&img[5 * 512..6 * 512], &img[1024..1536]);
}

#[test]
fn write_on_a_short_image_reports_io_error() {
    let img = sample_image();
    let opts = GPTOptions::default();
    let table = GPTTable::load(&img, &opts).unwrap();
    let mut small = vec![0u8; 1536];
    // the backup header at block 5 does not fit in 3 blocks
    let err = table.write(&mut small, &opts).unwrap_err();
    assert_eq!(err.error_type(), ErrorType::IOError);
}

#[test]
fn next_id_returns_the_first_empty_slot() {
    let img = sample_image();
    let opts = GPTOptions::default();
    let mut table = GPTTable::load(&img, &opts).unwrap();
    assert_eq!(table.next_id(), Some(1));
    let entry = libpart::gpt::PartitionEntry {
        part_type: Uuid::from_bytes(vec![1u8; 16]).unwrap(),
        part_id: Uuid::from_bytes(vec![2u8; 16]).unwrap(),
        start: Block(500),
        end: Block(600),
        flags: 0,
        name: String::from("extra"),
    };
    table.set_partition(1, entry).unwrap();
    assert_eq!(table.next_id(), Some(2));
    assert_eq!(table.part_count(), 2);
}

#[test]
fn set_and_delete_partition_check_the_slot_index() {
    let img = sample_image();
    let opts = GPTOptions::default();
    let mut table = GPTTable::load(&img, &opts).unwrap();
    let entry = libpart::gpt::PartitionEntry {
        part_type: Uuid::from_bytes(vec![1u8; 16]).unwrap(),
        part_id: Uuid::nil(),
        start: Block(1),
        end: Block(2),
        flags: 0,
        name: String::new(),
    };
    let err = table.set_partition(4, entry).unwrap_err();
    assert_eq!(err.error_type(), ErrorType::InvalidID);
    let err = table.delete_partition(7).unwrap_err();
    assert_eq!(err.error_type(), ErrorType::InvalidID);
    table.delete_partition(0).unwrap();
    assert_eq!(table.part_count(), 0);
    assert_eq!(table.next_id(), Some(0));
}
