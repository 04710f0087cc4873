use libpart::mbr::MBR;

fn empty_sector() -> Vec<u8> {
    let mut img = vec![0u8; 512];
    img[510] = 0x55;
    img[511] = 0xaa;
    img
}

fn entry_bytes(boot: u8, system_id: u8, start_lba: u32, count: u32) -> [u8; 16] {
    let mut e = [0u8; 16];
    e[0] = boot;
    e[4] = system_id;
    e[8..12].copy_from_slice(&start_lba.to_le_bytes());
    e[12..16].copy_from_slice(&count.to_le_bytes());
    e
}

#[test]
fn all_empty_slots_give_zero_partitions() {
    let img = empty_sector();
    let mbr = MBR::load(&img).unwrap();
    assert_eq!(mbr.partition_count(), 0);
    assert_eq!(mbr.partitions().len(), 4);
    assert!(mbr.partitions().iter().all(|p| p.is_none()));
}

#[test]
fn all_empty_slots_with_bad_signature_still_load() {
    let img = vec![0u8; 512];
    let mbr = MBR::load(&img).unwrap();
    assert_eq!(mbr.partition_count(), 0);
    assert!(mbr.partitions().iter().all(|p| p.is_none()));
}

#[test]
fn short_image_fails_to_load() {
    assert!(MBR::load(&vec![0u8; 511]).is_none());
    assert!(MBR::load(&Vec::new()).is_none());
}

#[test]
fn present_entries_are_parsed() {
    let mut img = empty_sector();
    img[446..462].copy_from_slice(&entry_bytes(0x80, 0x83, 2048, 1000));
    img[478..494].copy_from_slice(&entry_bytes(0x00, 0x07, 4096, 8));
    let mbr = MBR::load(&img).unwrap();
    assert_eq!(mbr.partition_count(), 2);
    assert_eq!(mbr.primary_partition_count(), 2);
    let p0 = mbr.partitions()[0].unwrap();
    assert!(p0.bootable);
    assert_eq!(p0.system_id, 0x83);
    assert_eq!(p0.start_lba, 2048);
    assert_eq!(p0.sector_count, 1000);
    assert!(mbr.partitions()[1].is_none());
    let p2 = mbr.partitions()[2].unwrap();
    assert!(!p2.bootable);
    assert_eq!(p2.system_id, 0x07);
}

#[test]
fn any_non_boot_flag_value_reads_as_not_bootable() {
    let mut img = empty_sector();
    img[446..462].copy_from_slice(&entry_bytes(0x01, 0x83, 1, 1));
    let mbr = MBR::load(&img).unwrap();
    assert!(!mbr.partitions()[0].unwrap().bootable);
}

#[test]
fn write_emits_the_fixed_signature_and_zeroed_empty_slots() {
    let mbr = MBR::new();
    let mut img = vec![0xccu8; 600];
    assert!(mbr.write_mbr(&mut img));
    assert!(img[0..446].iter().all(|b| *b == 0));
    assert!(img[446..510].iter().all(|b| *b == 0));
    assert_eq!(img[510], 0x55);
    assert_eq!(img[511], 0xaa);
    // bytes past the sector stay untouched
    assert!(img[512..].iter().all(|b| *b == 0xcc));
}

#[test]
fn write_on_a_short_image_fails_and_changes_nothing() {
    let mbr = MBR::new();
    let mut img = vec![0xccu8; 511];
    assert!(!mbr.write_mbr(&mut img));
    assert!(img.iter().all(|b| *b == 0xcc));
}

#[test]
fn load_write_round_trips_the_canonical_fields() {
    let mut img = empty_sector();
    img[0..446].iter_mut().enumerate().for_each(|(i, b)| *b = (i % 251) as u8);
    img[446..462].copy_from_slice(&entry_bytes(0x80, 0x83, 2048, 1000));
    let mbr = MBR::load(&img).unwrap();
    let mut out = vec![0u8; 512];
    assert!(mbr.write_mbr(&mut out));
    // bootstrap code is preserved byte for byte
    assert_eq!(&out[0..446], &img[0..446]);
    let back = MBR::load(&out).unwrap();
    assert_eq!(back.partitions()[0], mbr.partitions()[0]);
    assert_eq!(back.partition_count(), 1);
}

#[test]
fn chs_fields_use_the_legacy_saturating_encoding() {
    let mut img = empty_sector();
    img[446..462].copy_from_slice(&entry_bytes(0x00, 0x83, 5, 10));
    let mbr = MBR::load(&img).unwrap();
    let mut out = vec![0u8; 512];
    assert!(mbr.write_mbr(&mut out));
    // chs of start offset 5: c = 5, h = 0, s = max(0, 63) = 63
    assert_eq!(&out[447..450], &[0, 63, 5]);
    // chs of last sector 14: c = 14
    assert_eq!(&out[451..454], &[0, 63, 14]);
}

#[test]
fn has_gpt_detects_the_protective_marker() {
    let mut img = empty_sector();
    img[446..462].copy_from_slice(&entry_bytes(0x00, 0x83, 1, 1));
    let mbr = MBR::load(&img).unwrap();
    assert!(!mbr.has_gpt());
    img[478..494].copy_from_slice(&entry_bytes(0x00, 0xEE, 1, 1));
    let mbr = MBR::load(&img).unwrap();
    assert!(mbr.has_gpt());
}

#[test]
fn new_mbr_is_empty() {
    let mbr = MBR::new();
    assert_eq!(mbr.partition_count(), 0);
    assert_eq!(mbr.partitions().len(), 4);
}
