//! The legacy Master Boot Record codec: a 512-byte sector holding a
//! 446-byte bootstrap blob, four fixed partition slots and a boot
//! signature.
use vstd::prelude::*;
use crate::bytes::{splice, zeros, read_bytes_at, write_bytes_at, read_u32_at, read_u16_at,
    zero_bytes_at, u16_from_le, u32_from_le, u32_to_le, u32_le_vec};

verus! {

/// One primary MBR partition. The canonical fields are the LBA extent;
/// the legacy CHS fields on disk are recomputed from it on write and are
/// not retained on load.
#[derive(Debug, Clone, Copy, PartialEq, Eq, Structural)]
pub struct PartitionEntry {
    /// Is this partition marked as bootable
    pub bootable: bool,
    /// The partition type
    pub system_id: u8,
    /// The LBA at which the partition starts
    pub start_lba: u32,
    /// How long the partition is in blocks
    pub sector_count: u32,
}

impl Default for PartitionEntry {
    /// An all-zero entry, denoting an absent partition.
    fn default() -> (r: PartitionEntry)
        ensures
            r == (PartitionEntry { bootable: false, system_id: 0, start_lba: 0, sector_count: 0 }),
    {
        PartitionEntry { bootable: false, system_id: 0, start_lba: 0, sector_count: 0 }
    }
}

/// The mathematical content of an MBR.
pub ghost struct MbrModel {
    pub bootloader: Seq<u8>,
    pub partitions: Seq<Option<PartitionEntry>>,
    pub boot_sig: u16,
}

/// A structure representing a Master Boot Record.
#[derive(Debug)]
pub struct MBR {
    bootloader: Vec<u8>,
    partitions: Vec<Option<PartitionEntry>>,
    boot_sig: u16,
}

impl View for MBR {
    type V = MbrModel;

    closed spec fn view(&self) -> MbrModel {
        MbrModel {
            bootloader: self.bootloader@,
            partitions: self.partitions@,
            boot_sig: self.boot_sig,
        }
    }
}

/// The three legacy CHS bytes that stand for a 0-based LBA offset. This
/// is the saturating legacy encoding, not a geometry-accurate
/// translation: the sector field is at least 63 and overflowing fields
/// are truncated to their byte.
pub open spec fn chs_bytes(offset: u32) -> Seq<u8> {
    let c: u32 = (offset as int % 1024) as u32;
    let h: u32 = ((offset as int / 1024) % 256) as u32;
    let s0: int = offset as int / 1024 / 256;
    let s: u32 = if s0 > 63 { s0 as u32 } else { 63u32 };
    seq![h as u8, ((s | ((c & 0x300) >> 2)) & 0xFF) as u8, (c & 0xFF) as u8]
}

/// True when an entry can be serialized: the CHS encoding of its last
/// sector needs `start_lba + sector_count - 1` to be a valid LBA.
pub open spec fn entry_writable(e: Option<PartitionEntry>) -> bool {
    match e {
        None => true,
        Some(p) => 1 <= p.start_lba + p.sector_count <= u32::MAX,
    }
}

/// The 16-byte on-disk form of a partition slot; an empty slot is fully
/// zeroed.
pub open spec fn entry_bytes(e: Option<PartitionEntry>) -> Seq<u8>
    recommends
        entry_writable(e),
{
    match e {
        None => zeros(16),
        Some(p) => seq![if p.bootable { 0x80u8 } else { 0x00u8 }] + chs_bytes(p.start_lba)
            + seq![p.system_id] + chs_bytes((p.start_lba + p.sector_count - 1) as u32)
            + u32_to_le(p.start_lba) + u32_to_le(p.sector_count),
    }
}

/// The full 512-byte on-disk form of an MBR. The boot signature is
/// emitted as the fixed bytes `0x55 0xAA`.
pub open spec fn mbr_bytes(m: MbrModel) -> Seq<u8>
    recommends
        m.bootloader.len() == 446,
        m.partitions.len() == 4,
{
    m.bootloader + entry_bytes(m.partitions[0]) + entry_bytes(m.partitions[1]) + entry_bytes(
        m.partitions[2],
    ) + entry_bytes(m.partitions[3]) + seq![0x55u8, 0xAAu8]
}

/// Every slot serializes to exactly 16 bytes.
pub proof fn lemma_entry_bytes_len(e: Option<PartitionEntry>)
    ensures
        entry_bytes(e).len() == 16,
{
    crate::bytes::lemma_u32_le_auto();
}

/// The partition slot denoted by a 16-byte entry: a zero system id marks
/// an absent partition.
pub open spec fn parse_entry(b: Seq<u8>) -> Option<PartitionEntry>
    recommends
        b.len() == 16,
{
    if b[4] == 0 {
        None
    } else {
        Some(
            PartitionEntry {
                bootable: b[0] == 0x80,
                system_id: b[4],
                start_lba: u32_from_le(b.subrange(8, 12)),
                sector_count: u32_from_le(b.subrange(12, 16)),
            },
        )
    }
}

/// The MBR denoted by the first 512 bytes of an image; `None` when the
/// image is shorter than one sector.
pub open spec fn parse_mbr(image: Seq<u8>) -> Option<MbrModel> {
    if image.len() < 512 {
        None
    } else {
        Some(
            MbrModel {
                bootloader: image.subrange(0, 446),
                partitions: seq![
                    parse_entry(image.subrange(446, 462)),
                    parse_entry(image.subrange(462, 478)),
                    parse_entry(image.subrange(478, 494)),
                    parse_entry(image.subrange(494, 510)),
                ],
                boot_sig: u16_from_le(image.subrange(510, 512)),
            },
        )
    }
}

/// The number of present partition slots.
pub open spec fn count_present(parts: Seq<Option<PartitionEntry>>) -> int
    decreases parts.len(),
{
    if parts.len() == 0 {
        0
    } else {
        (if parts[0] is Some {
            1int
        } else {
            0int
        }) + count_present(parts.skip(1))
    }
}

proof fn lemma_count_present_push(parts: Seq<Option<PartitionEntry>>, e: Option<PartitionEntry>)
    ensures
        count_present(parts.push(e)) == count_present(parts) + (if e is Some {
            1int
        } else {
            0int
        }),
    decreases parts.len(),
{
    if parts.len() == 0 {
        assert(parts.push(e)[0] == e);
        assert(parts.push(e).skip(1) =~= Seq::<Option<PartitionEntry>>::empty());
        assert(count_present(Seq::<Option<PartitionEntry>>::empty()) == 0);
    } else {
        assert(parts.push(e)[0] == parts[0]);
        assert(parts.push(e).skip(1) =~= parts.skip(1).push(e));
        lemma_count_present_push(parts.skip(1), e);
    }
}

impl MBR {
    #[verifier::type_invariant]
    spec fn type_inv(self) -> bool {
        self.bootloader@.len() == 446 && self.partitions@.len() == 4
    }

    /// True of every value this type can hold: the bootstrap blob is 446
    /// bytes and there are exactly four partition slots.
    pub open spec fn wf(m: MbrModel) -> bool {
        m.bootloader.len() == 446 && m.partitions.len() == 4
    }

    /// Initialize a new empty MBR.
    pub fn new() -> (r: MBR)
        ensures
            r@.bootloader == zeros(446),
            r@.partitions == seq![
                None::<PartitionEntry>,
                None::<PartitionEntry>,
                None::<PartitionEntry>,
                None::<PartitionEntry>,
            ],
            r@.boot_sig == 0u16,
    {
        let mut bootloader: Vec<u8> = Vec::new();
        let mut i: usize = 0;
        while i < 446
            invariant
                i <= 446,
                bootloader@.len() == i,
                forall|j: int| 0 <= j < i ==> bootloader@[j] == 0u8,
            decreases 446 - i,
        {
            bootloader.push(0u8);
            i += 1;
        }
        let mut partitions: Vec<Option<PartitionEntry>> = Vec::new();
        partitions.push(None);
        partitions.push(None);
        partitions.push(None);
        partitions.push(None);
        proof {
            assert(bootloader@ =~= zeros(446));
            assert(partitions@ =~= seq![
                None::<PartitionEntry>,
                None::<PartitionEntry>,
                None::<PartitionEntry>,
                None::<PartitionEntry>,
            ]);
        }
        MBR { bootloader, partitions, boot_sig: 0 }
    }

    /// Load an MBR from the first sector of an image; fails exactly when
    /// the image is shorter than 512 bytes.
    pub fn load(image: &Vec<u8>) -> (r: Option<MBR>)
        ensures
            r is Some <==> image@.len() >= 512,
            match r {
                Some(m) => parse_mbr(image@) == Some(m@),
                None => parse_mbr(image@) is None,
            },
    {
        if image.len() < 512 {
            return None;
        }
        let bootloader = read_bytes_at(image, 0, 446);
        let mut partitions: Vec<Option<PartitionEntry>> = Vec::new();
        let mut i: usize = 0;
        while i < 4
            invariant
                image@.len() >= 512,
                i <= 4,
                partitions@.len() == i,
                forall|k: int|
                    0 <= k < i ==> partitions@[k] == parse_entry(
                        image@.subrange(446 + 16 * k, 462 + 16 * k),
                    ),
            decreases 4 - i,
        {
            let e = Self::load_entry(image, 446 + 16 * i);
            partitions.push(e);
            i += 1;
        }
        let boot_sig = read_u16_at(image, 510);
        proof {
            let m = parse_mbr(image@)->0;
            assert(m.partitions[0] == partitions@[0] && m.partitions[1] == partitions@[1]
                && m.partitions[2] == partitions@[2] && m.partitions[3] == partitions@[3]);
            assert(m.partitions =~= partitions@);
        }
        Some(MBR { bootloader, partitions, boot_sig })
    }

    /// Reads one 16-byte partition slot at byte offset `off`.
    fn load_entry(image: &Vec<u8>, off: usize) -> (r: Option<PartitionEntry>)
        requires
            off + 16 <= image@.len(),
        ensures
            r == parse_entry(image@.subrange(off as int, off + 16)),
    {
        let blen: usize = image.len();
        let bootable = image[off] == 0x80;
        let system_id = image[off + 4];
        let start_lba = read_u32_at(image, off + 8);
        let sector_count = read_u32_at(image, off + 12);
        proof {
            let b = image@.subrange(off as int, off + 16);
            assert(b[0] == image@[off as int] && b[4] == image@[off + 4]);
            assert(b.subrange(8, 12) =~= image@.subrange(off + 8, off + 12));
            assert(b.subrange(12, 16) =~= image@.subrange(off + 12, off + 16));
        }
        if system_id != 0 {
            Some(PartitionEntry { bootable, system_id, start_lba, sector_count })
        } else {
            None
        }
    }

    /// Serialize the MBR over the first sector of the image; fails (and
    /// leaves the image unchanged) exactly when the image is shorter
    /// than 512 bytes.
    pub fn write_mbr(&self, image: &mut Vec<u8>) -> (r: bool)
        requires
            forall|k: int| 0 <= k < self@.partitions.len() ==> entry_writable(self@.partitions[k]),
        ensures
            r <==> old(image)@.len() >= 512,
            r ==> final(image)@ == splice(old(image)@, 0, mbr_bytes(self@)),
            !r ==> final(image)@ == old(image)@,
    {
        proof {
            use_type_invariant(self);
        }
        if image.len() < 512 {
            return false;
        }
        write_bytes_at(image, 0, &self.bootloader);
        let ghost after_boot = image@;
        let mut i: usize = 0;
        while i < 4
            invariant
                forall|k: int| 0 <= k < 4 ==> entry_writable(self@.partitions[k]),
                self@.partitions.len() == 4,
                self@.partitions == self.partitions@,
                i <= 4,
                image@.len() == old(image)@.len(),
                image@.len() >= 512,
                forall|j: int| 0 <= j < 446 ==> image@[j] == after_boot[j],
                forall|k: int|
                    0 <= k < i ==> image@.subrange(446 + 16 * k, 462 + 16 * k) == entry_bytes(
                        self@.partitions[k],
                    ),
                forall|j: int| 446 + 16 * i <= j < image@.len() ==> image@[j] == after_boot[j],
            decreases 4 - i,
        {
            let ghost prev = image@;
            let e = &self.partitions[i];
            proof {
                lemma_entry_bytes_len(self@.partitions[i as int]);
            }
            Self::write_entry(image, 446 + 16 * i, e);
            proof {
                assert forall|k: int|
                    0 <= k < i + 1 implies image@.subrange(446 + 16 * k, 462 + 16 * k)
                    == entry_bytes(self@.partitions[k]) by {
                    lemma_entry_bytes_len(self@.partitions[k]);
                    if k < i {
                        assert(image@.subrange(446 + 16 * k, 462 + 16 * k) =~= prev.subrange(
                            446 + 16 * k,
                            462 + 16 * k,
                        ));
                    } else {
                        crate::bytes::lemma_splice_read_back(
                            prev,
                            446 + 16 * k,
                            entry_bytes(self@.partitions[k]),
                        );
                    }
                }
            }
            i += 1;
        }
        let ghost after_parts = image@;
        let mut sig: Vec<u8> = Vec::new();
        sig.push(0x55u8);
        sig.push(0xAAu8);
        write_bytes_at(image, 510, &sig);
        proof {
            assert(sig@ =~= seq![0x55u8, 0xAAu8]);
            lemma_entry_bytes_len(self@.partitions[0]);
            lemma_entry_bytes_len(self@.partitions[1]);
            lemma_entry_bytes_len(self@.partitions[2]);
            lemma_entry_bytes_len(self@.partitions[3]);
            assert(mbr_bytes(self@).len() == 512);
            assert forall|j: int| 0 <= j < image@.len() implies image@[j] == splice(
                old(image)@,
                0,
                mbr_bytes(self@),
            )[j] by {
                if j < 446 {
                    assert(image@[j] == after_parts[j]);
                    assert(after_parts[j] == after_boot[j]);
                    assert(after_boot[j] == self@.bootloader[j]);
                    assert(mbr_bytes(self@)[j] == self@.bootloader[j]);
                } else if 510 <= j < 512 {
                    assert(image@[j] == sig@[j - 510]);
                    assert(mbr_bytes(self@)[j] == seq![0x55u8, 0xAAu8][j - 510]);
                } else if j >= 512 {
                    assert(image@[j] == after_parts[j]);
                    assert(after_parts[j] == after_boot[j]);
                    assert(after_boot[j] == old(image)@[j]);
                } else if 446 <= j < 510 {
                    let d = j - 446;
                    let k = d / 16;
                    let r2 = d % 16;
                    assert(0 <= r2 < 16 && d == 16 * k + r2 && 0 <= k < 4) by (nonlinear_arith)
                        requires
                            0 <= d < 64,
                            k == d / 16,
                            r2 == d % 16,
                    ;
                    assert(after_parts.subrange(446 + 16 * k, 462 + 16 * k) == entry_bytes(
                        self@.partitions[k],
                    ));
                    assert(image@[j] == after_parts[j]);
                    assert(after_parts[j] == after_parts.subrange(446 + 16 * k, 462 + 16 * k)[r2]);
                    assert(mbr_bytes(self@)[j] == entry_bytes(self@.partitions[k])[r2]);
                }
            }
            assert(image@ =~= splice(old(image)@, 0, mbr_bytes(self@)));
        }
        true
    }

    /// Writes one 16-byte partition slot at byte offset `off`.
    fn write_entry(image: &mut Vec<u8>, off: usize, e: &Option<PartitionEntry>)
        requires
            off + 16 <= old(image)@.len(),
            entry_writable(*e),
        ensures
            final(image)@ == splice(old(image)@, off as int, entry_bytes(*e)),
    {
        match e {
            None => {
                zero_bytes_at(image, off, 16);
            },
            Some(p) => {
                let mut b: Vec<u8> = Vec::new();
                if p.bootable {
                    b.push(0x80u8);
                } else {
                    b.push(0x00u8);
                }
                let chs_start = offset_to_chs(p.start_lba);
                b.push(chs_start.0);
                b.push(chs_start.1);
                b.push(chs_start.2);
                b.push(p.system_id);
                let chs_end = offset_to_chs(p.start_lba + p.sector_count - 1);
                b.push(chs_end.0);
                b.push(chs_end.1);
                b.push(chs_end.2);
                let lba = u32_le_vec(p.start_lba);
                b.push(lba[0]);
                b.push(lba[1]);
                b.push(lba[2]);
                b.push(lba[3]);
                let cnt = u32_le_vec(p.sector_count);
                b.push(cnt[0]);
                b.push(cnt[1]);
                b.push(cnt[2]);
                b.push(cnt[3]);
                proof {
                    assert(b@ =~= entry_bytes(Some(*p)));
                }
                write_bytes_at(image, off, &b);
            },
        }
    }

    /// Get a list of all primary partitions.
    pub fn partitions(&self) -> (r: &Vec<Option<PartitionEntry>>)
        ensures
            r@ == self@.partitions,
            r@.len() == 4,
    {
        proof {
            use_type_invariant(self);
        }
        &self.partitions
    }

    /// Count all primary partitions; empty slots are not counted.
    pub fn partition_count(&self) -> (r: u8)
        ensures
            r == count_present(self@.partitions),
    {
        proof {
            use_type_invariant(self);
        }
        let mut cnt: u8 = 0;
        let mut i: usize = 0;
        proof {
            assert(self@.partitions.take(0) =~= Seq::<Option<PartitionEntry>>::empty());
        }
        while i < 4
            invariant
                self@.partitions == self.partitions@,
                self@.partitions.len() == 4,
                i <= 4,
                cnt == count_present(self@.partitions.take(i as int)),
                cnt <= i,
            decreases 4 - i,
        {
            proof {
                lemma_count_present_push(self@.partitions.take(i as int), self@.partitions[i as int]);
                assert(self@.partitions.take(i + 1) =~= self@.partitions.take(i as int).push(
                    self@.partitions[i as int],
                ));
            }
            if self.partitions[i].is_some() {
                cnt += 1;
            }
            i += 1;
        }
        proof {
            assert(self@.partitions.take(4) =~= self@.partitions);
        }
        cnt
    }

    /// Count all primary partitions. Does include the host partition for
    /// logical partitions.
    pub fn primary_partition_count(&self) -> (r: u8)
        ensures
            r == count_present(self@.partitions),
    {
        self.partition_count()
    }

    /// True when some present entry carries the protective-MBR type id
    /// `0xEE`, marking the disk as GPT-managed.
    pub fn has_gpt(&self) -> (r: bool)
        ensures
            r <==> exists|k: int|
                0 <= k < self@.partitions.len() && self@.partitions[k] is Some
                    && self@.partitions[k]->0.system_id == 0xEE,
    {
        proof {
            use_type_invariant(self);
        }
        let mut i: usize = 0;
        while i < 4
            invariant
                self@.partitions == self.partitions@,
                self@.partitions.len() == 4,
                i <= 4,
                forall|k: int|
                    0 <= k < i ==> !(self@.partitions[k] is Some && self@.partitions[k]->0.system_id
                        == 0xEE),
            decreases 4 - i,
        {
            match &self.partitions[i] {
                Some(p) => {
                    if p.system_id == 0xEE {
                        return true;
                    }
                },
                None => {},
            }
            i += 1;
        }
        false
    }
}

impl Default for MBR {
    /// An empty MBR: zeroed bootstrap region, four empty slots, zero
    /// signature.
    fn default() -> (r: MBR)
        ensures
            r@.bootloader == zeros(446),
            r@.partitions == seq![
                None::<PartitionEntry>,
                None::<PartitionEntry>,
                None::<PartitionEntry>,
                None::<PartitionEntry>,
            ],
            r@.boot_sig == 0u16,
    {
        MBR::new()
    }
}

/// The saturating legacy CHS encoding of a 0-based LBA offset.
pub fn offset_to_chs(offset: u32) -> (r: (u8, u8, u8))
    ensures
        seq![r.0, r.1, r.2] == chs_bytes(offset),
{
    let c = offset % 1024;
    let rest = offset / 1024;
    let h = rest % 256;
    let rest2 = rest / 256;
    let s = if rest2 > 63 {
        rest2
    } else {
        63
    };
    let b1u = (s | ((c & 0x300) >> 2)) & 0xFF;
    proof {
        assert(b1u < 256 && (c & 0xFF) < 256) by (bit_vector)
            requires
                b1u == (s | ((c & 0x300) >> 2)) & 0xFF,
        ;
    }
    let r = (h as u8, b1u as u8, (c & 0xFF) as u8);
    proof {
        assert(seq![r.0, r.1, r.2] =~= chs_bytes(offset));
    }
    r
}

} // verus!
