use libpart::util::Block;

#[test]
fn to_bytes_multiplies_by_sector_size() {
    assert_eq!(Block(0).to_bytes(512), 0);
    assert_eq!(Block(1).to_bytes(512), 512);
    assert_eq!(Block(7).to_bytes(512), 3584);
    assert_eq!(Block(3).to_bytes(4096), 12288);
}

#[test]
fn from_bytes_rejects_unaligned_offsets() {
    assert!(Block::from_bytes(1, 512).is_none());
    assert!(Block::from_bytes(511, 512).is_none());
    assert!(Block::from_bytes(513, 512).is_none());
    assert!(Block::from_bytes(1023, 512).is_none());
    assert!(Block::from_bytes(4095, 4096).is_none());
}

#[test]
fn from_bytes_accepts_aligned_offsets() {
    assert_eq!(Block::from_bytes(0, 512), Some(Block(0)));
    assert_eq!(Block::from_bytes(512, 512), Some(Block(1)));
    assert_eq!(Block::from_bytes(1024, 512), Some(Block(2)));
    assert_eq!(Block::from_bytes(8192, 4096), Some(Block(2)));
}

#[test]
fn aligned_offsets_round_trip() {
    for i in 0..64u64 {
        let bytes = i * 512;
        let block = Block::from_bytes(bytes, 512).unwrap();
        assert_eq!(block.to_bytes(512), bytes);
    }
}

#[test]
fn from_bytes_offset_splits_block_and_residue() {
    assert_eq!(Block::from_bytes_offset(0, 512), (Block(0), 0));
    assert_eq!(Block::from_bytes_offset(513, 512), (Block(1), 1));
    assert_eq!(Block::from_bytes_offset(1535, 512), (Block(2), 511));
}

#[test]
fn block_addition_and_subtraction() {
    assert_eq!(Block(3).add(Block(4)), Block(7));
    assert_eq!(Block(10).sub(Block(1)), Block(9));
}
