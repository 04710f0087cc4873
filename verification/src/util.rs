//! Block arithmetic: conversion between disk addresses expressed in
//! fixed-size blocks and raw byte offsets.
use vstd::prelude::*;

verus! {

/// A disk address in units of the table's configured block size.
#[derive(Debug, PartialEq, Eq, Structural, PartialOrd, Ord, Clone, Copy)]
pub struct Block(pub u64);

impl Block {
    /// Gets the byte offset of a block.
    pub fn to_bytes(&self, sector_size: u16) -> (r: u64)
        requires
            self.0 * sector_size <= u64::MAX,
        ensures
            r == self.0 * sector_size,
    {
        let sector_size = sector_size as u64;
        self.0 * sector_size
    }

    /// Gets the Block from a byte offset.
    ///
    /// Returns `None` unless `bytes` is evenly divisible by the sector
    /// size; the quotient uses the same sector size as the divisibility
    /// test.
    pub fn from_bytes(bytes: u64, sector_size: u16) -> (r: Option<Block>)
        requires
            sector_size > 0,
        ensures
            r is Some <==> bytes % (sector_size as u64) == 0,
            r is Some ==> r->0 == Block(bytes / (sector_size as u64)),
    {
        let sector_size = sector_size as u64;
        if bytes % sector_size == 0 {
            Some(Block(bytes / sector_size))
        } else {
            None
        }
    }

    /// The block `other` blocks further on; used to step over a region
    /// whose length is known in blocks.
    pub fn add(self, other: Block) -> (r: Block)
        requires
            self.0 + other.0 <= u64::MAX,
        ensures
            r.0 == self.0 + other.0,
    {
        Block(self.0 + other.0)
    }

    /// The block `other` blocks before this one; used to locate the
    /// backup partition-entry array immediately before the backup
    /// header.
    pub fn sub(self, other: Block) -> (r: Block)
        requires
            other.0 <= self.0,
        ensures
            r.0 == self.0 - other.0,
    {
        Block(self.0 - other.0)
    }

    /// Gets the Block as well as the byte offset within the block of a
    /// given byte offset.
    pub fn from_bytes_offset(bytes: u64, sector_size: u16) -> (r: (Block, u16))
        requires
            sector_size > 0,
        ensures
            r.0 == Block(bytes / (sector_size as u64)),
            r.1 == bytes % (sector_size as u64),
    {
        let sector_size = sector_size as u64;
        (Block(bytes / sector_size), (bytes % sector_size) as u16)
    }
}

/// The byte offset of an aligned block round-trips: converting a
/// block-aligned byte count to a `Block` and back yields the same count.
pub proof fn lemma_block_round_trip(bytes: u64, sector_size: u16)
    requires
        sector_size > 0,
        bytes % (sector_size as u64) == 0,
    ensures
        Block(bytes / (sector_size as u64)).0 * sector_size == bytes,
{
    assert(bytes / (sector_size as u64) * (sector_size as u64) == bytes) by (nonlinear_arith)
        requires
            sector_size > 0,
            bytes % (sector_size as u64) == 0,
    ;
}

} // verus!
