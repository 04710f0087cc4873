//! The GUID Partition Table codec: the 92-byte header, the 128-byte
//! partition entries, their CRC-32 checksums, and the primary/backup
//! mirroring protocol.
//!
//! The codec works on an in-memory byte image of the relevant part of a
//! disk. `load` parses and validates the primary table from an image;
//! `write` serializes both the primary and the backup copy back into an
//! image at their absolute byte offsets.
use vstd::prelude::*;
use vstd::string::StringExecFns;
use crate::util::Block;
use crate::guid::{Uuid, mixed_endian, read_uuid_at};
use crate::name::{decode_name_field, name_field_bytes, read_name_field};
use crate::crc::{crc32, crc32_of};
use crate::bytes::{splice, zeros, u32_from_le, u64_from_le, u32_to_le, u64_to_le,
    read_u32_at, read_u64_at, read_bytes_at, write_bytes_at, zero_bytes_at, zero_vec, bytes_eq,
    append_bytes, u32_le_vec, u64_le_vec, write_u32_at};

verus! {

/// Options for parsing GPT.
pub struct GPTOptions {
    /// The block size to use. Defaults to 512.
    pub block_size: u16,
    /// Make checksum errors non-fatal.
    pub ignore_csum: bool,
    /// Make UTF-16 errors non-fatal.
    pub ignore_utf16_errors: bool,
}

impl Default for GPTOptions {
    /// Block size 512; checksums verified; UTF-16 errors fatal.
    fn default() -> (r: GPTOptions)
        ensures
            r.block_size == 512,
            !r.ignore_csum,
            !r.ignore_utf16_errors,
    {
        GPTOptions { block_size: 512, ignore_csum: false, ignore_utf16_errors: false }
    }
}

/// The kinds of failure that loading or writing a table can report.
#[derive(Debug, Clone, Copy, PartialEq, Eq, Structural)]
pub enum ErrorType {
    /// There was no GPT found
    NoTable,
    /// The checksum of the GPT was incorrect
    ChecksumError,
    /// The version of the GPT is incompatible with this implementation
    InvalidVersion,
    /// The header in itself is invalid
    InvalidHeader,
    /// The image is too small for a region that had to be read or written
    IOError,
    /// One of the UUIDs is not valid
    UUIDError,
    /// One of the strings is invalid UTF-16
    UTF16Error,
    /// A partition slot index is out of range
    InvalidID,
}

/// An error raised by the GPT codec, carrying its kind and a short
/// human-readable description.
#[derive(Debug)]
pub struct GPTError {
    error_type: ErrorType,
    desc: String,
}

impl View for GPTError {
    type V = ErrorType;

    closed spec fn view(&self) -> ErrorType {
        self.error_type
    }
}

impl GPTError {
    /// Wraps an error kind with its description.
    pub fn new(t: ErrorType) -> (r: GPTError)
        ensures
            r@ == t,
    {
        let desc = match t {
            ErrorType::NoTable => String::from_str("No GPT found"),
            ErrorType::ChecksumError => String::from_str("GPT corrupt"),
            ErrorType::InvalidVersion => String::from_str("Invalid GPT Version"),
            ErrorType::InvalidHeader => String::from_str("Invalid GPT Header"),
            ErrorType::UTF16Error => String::from_str("Encoding Error in GPT: Invalid UTF-16"),
            ErrorType::InvalidID => String::from_str("Invalid ID"),
            ErrorType::IOError => String::from_str("IO Error while processing GPT"),
            ErrorType::UUIDError => String::from_str("Invalid UUID"),
        };
        GPTError { error_type: t, desc }
    }

    /// The kind of this error.
    pub fn error_type(&self) -> (r: ErrorType)
        ensures
            r == self@,
    {
        self.error_type
    }

    /// A short human-readable description of this error.
    pub fn description(&self) -> &String {
        &self.desc
    }
}

/// The mathematical content of one present partition entry.
pub ghost struct EntryModel {
    pub part_type: Seq<u8>,
    pub part_id: Seq<u8>,
    pub start: u64,
    pub end: u64,
    pub flags: u64,
    pub name: Seq<char>,
}

/// A GPT partition entry.
#[derive(Debug)]
pub struct PartitionEntry {
    /// The type UUID of the partition
    pub part_type: Uuid,
    /// The PARTUUID of the partition
    pub part_id: Uuid,
    /// The first block of the partition
    pub start: Block,
    /// The last block of the partition (inclusive)
    pub end: Block,
    /// The flags of the partition
    pub flags: u64,
    /// The human readable name of the partition
    pub name: String,
}

impl View for PartitionEntry {
    type V = EntryModel;

    open spec fn view(&self) -> EntryModel {
        EntryModel {
            part_type: self.part_type@,
            part_id: self.part_id@,
            start: self.start.0,
            end: self.end.0,
            flags: self.flags,
            name: self.name@,
        }
    }
}

/// The mathematical content of a GPT table.
pub ghost struct GptModel {
    pub primary_gpt: u64,
    pub backup_gpt: u64,
    pub first_usable: u64,
    pub last_usable: u64,
    pub gpt_uuid: Seq<u8>,
    pub partitions: Seq<Option<EntryModel>>,
    pub checksum: u32,
}

/// The parsed state of a GPT disk: the header geometry, the disk UUID,
/// the fixed sequence of partition slots and the header checksum that
/// was last read.
#[derive(Debug)]
pub struct GPTTable {
    primary_gpt: Block,
    backup_gpt: Block,
    first_usable: Block,
    last_usable: Block,
    gpt_uuid: Uuid,
    partitions: Vec<Option<PartitionEntry>>,
    checksum: u32,
}

/// The model of one partition slot.
pub open spec fn slot_view(e: Option<PartitionEntry>) -> Option<EntryModel> {
    match e {
        Some(p) => Some(p@),
        None => None,
    }
}

/// The models of a sequence of partition slots.
pub open spec fn slots_view(s: Seq<Option<PartitionEntry>>) -> Seq<Option<EntryModel>> {
    s.map_values(|e: Option<PartitionEntry>| slot_view(e))
}

impl View for GPTTable {
    type V = GptModel;

    closed spec fn view(&self) -> GptModel {
        GptModel {
            primary_gpt: self.primary_gpt.0,
            backup_gpt: self.backup_gpt.0,
            first_usable: self.first_usable.0,
            last_usable: self.last_usable.0,
            gpt_uuid: self.gpt_uuid@,
            partitions: slots_view(self.partitions@),
            checksum: self.checksum,
        }
    }
}

/// The number of present partition slots.
pub open spec fn present_count(parts: Seq<Option<EntryModel>>) -> int
    decreases parts.len(),
{
    if parts.len() == 0 {
        0
    } else {
        (if parts[0] is Some {
            1int
        } else {
            0int
        }) + present_count(parts.skip(1))
    }
}

proof fn lemma_present_count_push(parts: Seq<Option<EntryModel>>, e: Option<EntryModel>)
    ensures
        present_count(parts.push(e)) == present_count(parts) + (if e is Some {
            1int
        } else {
            0int
        }),
    decreases parts.len(),
{
    if parts.len() == 0 {
        assert(parts.push(e)[0] == e);
        assert(parts.push(e).skip(1) =~= Seq::<Option<EntryModel>>::empty());
        assert(present_count(Seq::<Option<EntryModel>>::empty()) == 0);
    } else {
        assert(parts.push(e)[0] == parts[0]);
        assert(parts.push(e).skip(1) =~= parts.skip(1).push(e));
        lemma_present_count_push(parts.skip(1), e);
    }
}

/// The 8 magic bytes `"EFI PART"` that begin every GPT header.
pub open spec fn gpt_magic() -> Seq<u8> {
    seq![0x45u8, 0x46u8, 0x49u8, 0x20u8, 0x50u8, 0x41u8, 0x52u8, 0x54u8]
}

/// The only revision this codec accepts: 1.0, stored as `00 00 01 00`.
pub open spec fn gpt_revision() -> Seq<u8> {
    seq![0x00u8, 0x00u8, 0x01u8, 0x00u8]
}

/// The header region of the image with its checksum field zeroed: the
/// bytes the header CRC-32 is computed over.
pub open spec fn zeroed_header(image: Seq<u8>, bs: u16) -> Seq<u8> {
    splice(image.subrange(bs as int, bs + 92), 16, zeros(4))
}

/// The partition slot denoted by one 128-byte entry. A type UUID of all
/// zero bytes denotes an unused slot. A name that is not valid UTF-16 is
/// fatal unless `ignore_utf16` is set, in which case it reads as empty.
pub open spec fn parse_gpt_entry(b: Seq<u8>, ignore_utf16: bool) -> Result<
    Option<EntryModel>,
    ErrorType,
>
    recommends
        b.len() == 128,
{
    let name_dec = decode_name_field(b.subrange(56, 128));
    if name_dec is None && !ignore_utf16 {
        Err(ErrorType::UTF16Error)
    } else {
        let name = match name_dec {
            Some(cs) => cs,
            None => Seq::empty(),
        };
        let ptype = mixed_endian(b.subrange(0, 16));
        if ptype == zeros(16) {
            Ok(None)
        } else {
            Ok(
                Some(
                    EntryModel {
                        part_type: ptype,
                        part_id: mixed_endian(b.subrange(16, 32)),
                        start: u64_from_le(b.subrange(32, 40)),
                        end: u64_from_le(b.subrange(40, 48)),
                        flags: u64_from_le(b.subrange(48, 56)),
                        name: name,
                    },
                ),
            )
        }
    }
}

/// The first `n` partition slots of the array that starts at byte
/// offset `base`; the error of the lowest failing slot wins.
pub open spec fn parse_entries(image: Seq<u8>, base: int, n: int, ignore_utf16: bool) -> Result<
    Seq<Option<EntryModel>>,
    ErrorType,
>
    decreases n,
{
    if n <= 0 {
        Ok(Seq::empty())
    } else {
        match parse_entries(image, base, n - 1, ignore_utf16) {
            Err(e) => Err(e),
            Ok(s) => match parse_gpt_entry(
                image.subrange(base + 128 * (n - 1), base + 128 * n),
                ignore_utf16,
            ) {
                Err(e) => Err(e),
                Ok(e) => Ok(s.push(e)),
            },
        }
    }
}

/// The table denoted by an image, or the error that loading it reports:
/// the load protocol of the primary GPT, step by step. The header lives
/// at byte offset `block_size` and its partition array must start at
/// block 2.
pub open spec fn parse_gpt(image: Seq<u8>, bs: u16, ignore_csum: bool, ignore_utf16: bool) -> Result<
    GptModel,
    ErrorType,
> {
    let hs = bs as int;
    if image.len() < hs + 92 {
        Err(ErrorType::IOError)
    } else if image.subrange(hs, hs + 8) != gpt_magic() {
        Err(ErrorType::NoTable)
    } else if image.subrange(hs + 8, hs + 12) != gpt_revision() {
        Err(ErrorType::InvalidVersion)
    } else if u32_from_le(image.subrange(hs + 12, hs + 16)) != 92 {
        Err(ErrorType::InvalidHeader)
    } else if u64_from_le(image.subrange(hs + 72, hs + 80)) != 2 {
        Err(ErrorType::InvalidHeader)
    } else if u32_from_le(image.subrange(hs + 84, hs + 88)) != 128 {
        Err(ErrorType::InvalidHeader)
    } else {
        let crc_stored = u32_from_le(image.subrange(hs + 16, hs + 20));
        let count = u32_from_le(image.subrange(hs + 80, hs + 84));
        let part_crc = u32_from_le(image.subrange(hs + 88, hs + 92));
        if !ignore_csum && crc32_of(zeroed_header(image, bs)) != crc_stored {
            Err(ErrorType::ChecksumError)
        } else if image.len() < 2 * hs + 128 * count {
            Err(ErrorType::IOError)
        } else if !ignore_csum && crc32_of(image.subrange(2 * hs, 2 * hs + 128 * count))
            != part_crc {
            Err(ErrorType::ChecksumError)
        } else {
            match parse_entries(image, 2 * hs, count as int, ignore_utf16) {
                Err(e) => Err(e),
                Ok(parts) => Ok(
                    GptModel {
                        primary_gpt: u64_from_le(image.subrange(hs + 24, hs + 32)),
                        backup_gpt: u64_from_le(image.subrange(hs + 32, hs + 40)),
                        first_usable: u64_from_le(image.subrange(hs + 40, hs + 48)),
                        last_usable: u64_from_le(image.subrange(hs + 48, hs + 56)),
                        gpt_uuid: mixed_endian(image.subrange(hs + 56, hs + 72)),
                        partitions: parts,
                        checksum: crc_stored,
                    },
                ),
            }
        }
    }
}

/// The conditions, over the image alone, under which the load protocol
/// reaches the partition array: the header is present and valid and the
/// enabled checksums match.
pub open spec fn load_checks(image: Seq<u8>, bs: u16, ignore_csum: bool) -> bool {
    let hs = bs as int;
    &&& image.len() >= hs + 92
    &&& image.subrange(hs, hs + 8) == gpt_magic()
    &&& image.subrange(hs + 8, hs + 12) == gpt_revision()
    &&& u32_from_le(image.subrange(hs + 12, hs + 16)) == 92
    &&& u64_from_le(image.subrange(hs + 72, hs + 80)) == 2
    &&& u32_from_le(image.subrange(hs + 84, hs + 88)) == 128
    &&& (!ignore_csum ==> crc32_of(zeroed_header(image, bs)) == u32_from_le(
        image.subrange(hs + 16, hs + 20),
    ))
    &&& image.len() >= 2 * hs + 128 * u32_from_le(image.subrange(hs + 80, hs + 84))
    &&& (!ignore_csum ==> crc32_of(
        image.subrange(
            2 * hs,
            2 * hs + 128 * u32_from_le(image.subrange(hs + 80, hs + 84)),
        ),
    ) == u32_from_le(image.subrange(hs + 88, hs + 92)))
}

/// The slot count stored in the header.
pub open spec fn header_count(image: Seq<u8>, bs: u16) -> u32 {
    u32_from_le(image.subrange(bs + 80, bs + 84))
}

/// The model that a successfully parsed image denotes, given its parsed
/// partition slots.
pub open spec fn gpt_model_of(image: Seq<u8>, bs: u16, parts: Seq<Option<EntryModel>>) -> GptModel {
    let hs = bs as int;
    GptModel {
        primary_gpt: u64_from_le(image.subrange(hs + 24, hs + 32)),
        backup_gpt: u64_from_le(image.subrange(hs + 32, hs + 40)),
        first_usable: u64_from_le(image.subrange(hs + 40, hs + 48)),
        last_usable: u64_from_le(image.subrange(hs + 48, hs + 56)),
        gpt_uuid: mixed_endian(image.subrange(hs + 56, hs + 72)),
        partitions: parts,
        checksum: u32_from_le(image.subrange(hs + 16, hs + 20)),
    }
}

/// Once the header and checksum checks pass, the parse of the image is
/// decided by the parse of its partition array.
proof fn lemma_parse_gpt_unfold(image: Seq<u8>, bs: u16, ignore_csum: bool, ig: bool)
    requires
        load_checks(image, bs, ignore_csum),
    ensures
        parse_gpt(image, bs, ignore_csum, ig) == (match parse_entries(
            image,
            2 * (bs as int),
            header_count(image, bs) as int,
            ig,
        ) {
            Err(e) => Err::<GptModel, ErrorType>(e),
            Ok(parts) => Ok::<GptModel, ErrorType>(gpt_model_of(image, bs, parts)),
        }),
{
}

/// With checksum verification enabled, a load succeeds only when both
/// stored checksums equal the CRC-32 of the bytes they cover: an image
/// whose header or entry-array payload was altered under an unchanged
/// stored checksum is rejected whenever the CRC-32 of the altered bytes
/// differs from the stored value.
pub proof fn lemma_checksums_bind_the_load(image: Seq<u8>, bs: u16, ig: bool)
    ensures
        parse_gpt(image, bs, false, ig) is Ok ==> crc32_of(zeroed_header(image, bs))
            == u32_from_le(image.subrange(bs + 16, bs + 20)),
        parse_gpt(image, bs, false, ig) is Ok ==> crc32_of(
            image.subrange(
                2 * (bs as int),
                2 * (bs as int) + 128 * header_count(image, bs),
            ),
        ) == u32_from_le(image.subrange(bs + 88, bs + 92)),
{
}

/// A slot can only fail to parse with a UTF-16 error.
proof fn lemma_parse_entries_errors(image: Seq<u8>, base: int, n: int, ig: bool)
    ensures
        parse_entries(image, base, n, ig) is Err ==> parse_entries(image, base, n, ig)
            == Err::<Seq<Option<EntryModel>>, ErrorType>(ErrorType::UTF16Error),
    decreases n,
{
    if n > 0 {
        lemma_parse_entries_errors(image, base, n - 1, ig);
    }
}

/// With checksum verification disabled, no load fails with a checksum
/// error: a corrupted image then loads unless a structural check or the
/// name decoding rejects it.
pub proof fn lemma_ignored_checksums_never_fail(image: Seq<u8>, bs: u16, ig: bool)
    ensures
        parse_gpt(image, bs, true, ig) != Err::<GptModel, ErrorType>(ErrorType::ChecksumError),
{
    lemma_parse_entries_errors(image, 2 * (bs as int), header_count(image, bs) as int, ig);
}

/// An error among the first `m` slots also decides the parse of any
/// larger prefix.
proof fn lemma_parse_entries_err_mono(
    image: Seq<u8>,
    base: int,
    m: int,
    n: int,
    ignore_utf16: bool,
    e: ErrorType,
)
    requires
        0 <= m <= n,
        parse_entries(image, base, m, ignore_utf16) == Err::<Seq<Option<EntryModel>>, ErrorType>(e),
    ensures
        parse_entries(image, base, n, ignore_utf16) == Err::<Seq<Option<EntryModel>>, ErrorType>(e),
    decreases n - m,
{
    if n > m {
        lemma_parse_entries_err_mono(image, base, m, n - 1, ignore_utf16, e);
    }
}


/// Well-formedness of one slot model: a present entry's UUIDs hold 16
/// bytes.
pub open spec fn entry_wf(e: Option<EntryModel>) -> bool {
    e is Some ==> e->0.part_type.len() == 16 && e->0.part_id.len() == 16
}

/// Well-formedness of a table model: the slot count fits the header's
/// 32-bit count field and every UUID holds 16 bytes.
pub open spec fn table_wf(t: GptModel) -> bool {
    &&& t.partitions.len() <= u32::MAX
    &&& t.gpt_uuid.len() == 16
    &&& forall|i: int| 0 <= i < t.partitions.len() ==> entry_wf(#[trigger] t.partitions[i])
}

/// The 128-byte on-disk form of one partition slot; an empty slot is
/// fully zeroed, so its type UUID reads back as nil.
pub open spec fn gpt_entry_bytes(e: Option<EntryModel>) -> Seq<u8> {
    match e {
        None => zeros(128),
        Some(p) => mixed_endian(p.part_type) + mixed_endian(p.part_id) + u64_to_le(p.start)
            + u64_to_le(p.end) + u64_to_le(p.flags) + name_field_bytes(p.name),
    }
}

/// The on-disk form of the whole partition-entry array.
pub open spec fn entries_bytes(parts: Seq<Option<EntryModel>>) -> Seq<u8>
    decreases parts.len(),
{
    if parts.len() == 0 {
        Seq::empty()
    } else {
        gpt_entry_bytes(parts[0]) + entries_bytes(parts.skip(1))
    }
}

/// Every slot serializes to exactly 128 bytes.
pub proof fn lemma_gpt_entry_bytes_len(e: Option<EntryModel>)
    requires
        entry_wf(e),
    ensures
        gpt_entry_bytes(e).len() == 128,
{
    if let Some(p) = e {
        crate::name::lemma_units_le_bytes_len(crate::name::name_units(p.name));
    }
}

/// Appending one slot extends the array layout by that slot's bytes.
pub proof fn lemma_entries_bytes_push(parts: Seq<Option<EntryModel>>, e: Option<EntryModel>)
    ensures
        entries_bytes(parts.push(e)) == entries_bytes(parts) + gpt_entry_bytes(e),
    decreases parts.len(),
{
    if parts.len() == 0 {
        assert(parts.push(e)[0] == e);
        assert(parts.push(e).skip(1) =~= Seq::<Option<EntryModel>>::empty());
        assert(entries_bytes(Seq::<Option<EntryModel>>::empty()) == Seq::<u8>::empty());
        assert(entries_bytes(parts.push(e)) =~= entries_bytes(parts) + gpt_entry_bytes(e));
    } else {
        assert(parts.push(e)[0] == parts[0]);
        assert(parts.push(e).skip(1) =~= parts.skip(1).push(e));
        lemma_entries_bytes_push(parts.skip(1), e);
        assert(entries_bytes(parts.push(e)) =~= entries_bytes(parts) + gpt_entry_bytes(e));
    }
}

/// The array of `n` well-formed slots lays out as `128 n` bytes.
pub proof fn lemma_entries_bytes_len(parts: Seq<Option<EntryModel>>)
    requires
        forall|i: int| 0 <= i < parts.len() ==> entry_wf(#[trigger] parts[i]),
    ensures
        entries_bytes(parts).len() == 128 * parts.len(),
    decreases parts.len(),
{
    if parts.len() > 0 {
        lemma_gpt_entry_bytes_len(parts[0]);
        assert(forall|i: int|
            0 <= i < parts.skip(1).len() ==> parts.skip(1)[i] == #[trigger] parts[i + 1]);
        lemma_entries_bytes_len(parts.skip(1));
    }
}

/// Each slot occupies its own 128-byte window of the array layout.
pub proof fn lemma_entries_bytes_index(parts: Seq<Option<EntryModel>>, i: int)
    requires
        forall|k: int| 0 <= k < parts.len() ==> entry_wf(#[trigger] parts[k]),
        0 <= i < parts.len(),
    ensures
        entries_bytes(parts).subrange(128 * i, 128 * (i + 1)) == gpt_entry_bytes(parts[i]),
    decreases i,
{
    lemma_entries_bytes_len(parts);
    lemma_gpt_entry_bytes_len(parts[0]);
    assert(forall|k: int|
        0 <= k < parts.skip(1).len() ==> parts.skip(1)[k] == #[trigger] parts[k + 1]);
    lemma_entries_bytes_len(parts.skip(1));
    if i == 0 {
        assert(entries_bytes(parts).subrange(0, 128) =~= gpt_entry_bytes(parts[0]));
    } else {
        lemma_entries_bytes_index(parts.skip(1), i - 1);
        assert(entries_bytes(parts).subrange(128 * i, 128 * (i + 1)) =~= entries_bytes(
            parts.skip(1),
        ).subrange(128 * (i - 1), 128 * i));
    }
}

/// The 92-byte header of one copy of the table. `crc_field` stands in
/// the header-checksum slot: zero bytes while the checksum is being
/// computed, the checksum's own bytes in the finished header. For the
/// backup copy the this/other locations are swapped.
pub open spec fn header_bytes(
    t: GptModel,
    primary: bool,
    crc_field: Seq<u8>,
    part_crc: u32,
    part_start: u64,
) -> Seq<u8>
    recommends
        crc_field.len() == 4,
        t.gpt_uuid.len() == 16,
{
    gpt_magic() + gpt_revision() + u32_to_le(92) + crc_field + zeros(4) + u64_to_le(
        if primary {
            t.primary_gpt
        } else {
            t.backup_gpt
        },
    ) + u64_to_le(
        if primary {
            t.backup_gpt
        } else {
            t.primary_gpt
        },
    ) + u64_to_le(t.first_usable) + u64_to_le(t.last_usable) + mixed_endian(t.gpt_uuid)
        + u64_to_le(part_start) + u32_to_le(t.partitions.len() as u32) + u32_to_le(128)
        + u32_to_le(part_crc)
}

/// The header is 92 bytes long.
pub proof fn lemma_header_bytes_len(
    t: GptModel,
    primary: bool,
    crc_field: Seq<u8>,
    part_crc: u32,
    part_start: u64,
)
    requires
        crc_field.len() == 4,
        t.gpt_uuid.len() == 16,
    ensures
        header_bytes(t, primary, crc_field, part_crc, part_start).len() == 92,
{
}

/// The block where the partition array of one copy lives: block 2 for
/// the primary, immediately before the backup header for the backup.
pub open spec fn part_start_block(t: GptModel, bs: u16, primary: bool) -> int {
    if primary {
        2
    } else {
        t.backup_gpt - 128 * (t.partitions.len() as int) / (bs as int)
    }
}

/// The block where the header of one copy lives.
pub open spec fn header_block(t: GptModel, primary: bool) -> int {
    if primary {
        t.primary_gpt as int
    } else {
        t.backup_gpt as int
    }
}

/// The CRC-32 of the serialized partition-entry array.
pub open spec fn part_array_crc(t: GptModel) -> u32 {
    crc32_of(entries_bytes(t.partitions))
}

/// The CRC-32 of one copy's header, computed with the checksum field
/// zeroed.
pub open spec fn header_crc(t: GptModel, bs: u16, primary: bool) -> u32 {
    crc32_of(
        header_bytes(t, primary, zeros(4), part_array_crc(t), part_start_block(t, bs, primary) as u64),
    )
}

/// The finished header of one copy, with both checksums filled in.
pub open spec fn final_header_bytes(t: GptModel, bs: u16, primary: bool) -> Seq<u8> {
    header_bytes(
        t,
        primary,
        u32_to_le(header_crc(t, bs, primary)),
        part_array_crc(t),
        part_start_block(t, bs, primary) as u64,
    )
}

/// What `write` asks of the table and the block size: the fixed slot
/// count fits its header fields and the checksummed buffers, the entry
/// array fills whole blocks, the backup header lies behind its array,
/// and the header byte offsets do not overflow.
pub open spec fn write_pre(t: GptModel, bs: u16) -> bool {
    &&& table_wf(t)
    &&& bs > 0
    &&& 128 * t.partitions.len() <= u32::MAX
    &&& (128 * (t.partitions.len() as int)) % (bs as int) == 0
    &&& t.backup_gpt >= 128 * (t.partitions.len() as int) / (bs as int)
    &&& t.primary_gpt * bs + bs <= u64::MAX
    &&& t.primary_gpt * bs + 92 <= u64::MAX
    &&& t.backup_gpt * bs + bs <= u64::MAX
    &&& t.backup_gpt * bs + 92 <= u64::MAX
}

/// Whether one copy's regions lie inside an image of `len` bytes.
pub open spec fn copy_fits(t: GptModel, bs: u16, primary: bool, len: int) -> bool {
    &&& part_start_block(t, bs, primary) * bs + 128 * t.partitions.len() <= len
    &&& header_block(t, primary) * bs + bs <= len
    &&& header_block(t, primary) * bs + 92 <= len
}

/// The image after one copy of the table is written: the entry array at
/// its block, then the header's whole block zeroed, then the 92 header
/// bytes over the start of that block.
pub open spec fn write_one(img: Seq<u8>, t: GptModel, bs: u16, primary: bool) -> Seq<u8> {
    splice(
        splice(
            splice(img, part_start_block(t, bs, primary) * bs, entries_bytes(t.partitions)),
            header_block(t, primary) * bs,
            zeros(bs as int),
        ),
        header_block(t, primary) * bs,
        final_header_bytes(t, bs, primary),
    )
}

/// The image after both copies are written: first the primary, then the
/// backup.
pub open spec fn write_image(img: Seq<u8>, t: GptModel, bs: u16) -> Seq<u8> {
    write_one(write_one(img, t, bs, true), t, bs, false)
}


/// Well-formedness of one slot as `load` itself produces it: a present
/// entry has a non-nil type UUID and a name with no NUL character whose
/// encoding fits the fixed-width field.
pub open spec fn entry_round_trip_wf(e: Option<EntryModel>) -> bool {
    e is Some ==> {
        &&& e->0.part_type != zeros(16)
        &&& crate::name::utf16(e->0.name).len() <= 36
        &&& forall|j: int| 0 <= j < e->0.name.len() ==> e->0.name[j] != '\0'
    }
}

/// A well-formed image for the round trip: the table can be written,
/// the primary header lies at block 1, the block size covers the
/// header, the backup regions lie behind the primary ones, the image
/// covers the backup header's block, and every slot is one that `load`
/// could have produced.
pub open spec fn round_trip_pre(t: GptModel, bs: u16, image_len: int) -> bool {
    &&& write_pre(t, bs)
    &&& bs >= 92
    &&& t.primary_gpt == 1
    &&& t.backup_gpt >= 2 + 2 * (128 * (t.partitions.len() as int) / (bs as int))
    &&& (t.backup_gpt + 1) * bs <= image_len
    &&& forall|i: int|
        0 <= i < t.partitions.len() ==> entry_round_trip_wf(#[trigger] t.partitions[i])
}

/// The fields of a header, read back from their byte offsets.
proof fn lemma_header_fields(
    t: GptModel,
    primary: bool,
    crc_field: Seq<u8>,
    part_crc: u32,
    part_start: u64,
)
    requires
        crc_field.len() == 4,
        t.gpt_uuid.len() == 16,
    ensures
        ({
            let h = header_bytes(t, primary, crc_field, part_crc, part_start);
            &&& h.len() == 92
            &&& h.subrange(0, 8) == gpt_magic()
            &&& h.subrange(8, 12) == gpt_revision()
            &&& h.subrange(12, 16) == u32_to_le(92)
            &&& h.subrange(16, 20) == crc_field
            &&& h.subrange(24, 32) == u64_to_le(
                if primary {
                    t.primary_gpt
                } else {
                    t.backup_gpt
                },
            )
            &&& h.subrange(32, 40) == u64_to_le(
                if primary {
                    t.backup_gpt
                } else {
                    t.primary_gpt
                },
            )
            &&& h.subrange(40, 48) == u64_to_le(t.first_usable)
            &&& h.subrange(48, 56) == u64_to_le(t.last_usable)
            &&& h.subrange(56, 72) == mixed_endian(t.gpt_uuid)
            &&& h.subrange(72, 80) == u64_to_le(part_start)
            &&& h.subrange(80, 84) == u32_to_le(t.partitions.len() as u32)
            &&& h.subrange(84, 88) == u32_to_le(128)
            &&& h.subrange(88, 92) == u32_to_le(part_crc)
        }),
{
    let h = header_bytes(t, primary, crc_field, part_crc, part_start);
    assert(h.subrange(0, 8) =~= gpt_magic());
    assert(h.subrange(8, 12) =~= gpt_revision());
    assert(h.subrange(12, 16) =~= u32_to_le(92));
    assert(h.subrange(16, 20) =~= crc_field);
    assert(h.subrange(24, 32) =~= u64_to_le(
        if primary {
            t.primary_gpt
        } else {
            t.backup_gpt
        },
    ));
    assert(h.subrange(32, 40) =~= u64_to_le(
        if primary {
            t.backup_gpt
        } else {
            t.primary_gpt
        },
    ));
    assert(h.subrange(40, 48) =~= u64_to_le(t.first_usable));
    assert(h.subrange(48, 56) =~= u64_to_le(t.last_usable));
    assert(h.subrange(56, 72) =~= mixed_endian(t.gpt_uuid));
    assert(h.subrange(72, 80) =~= u64_to_le(part_start));
    assert(h.subrange(80, 84) =~= u32_to_le(t.partitions.len() as u32));
    assert(h.subrange(84, 88) =~= u32_to_le(128));
    assert(h.subrange(88, 92) =~= u32_to_le(part_crc));
}

/// Zeroing the checksum field of a finished header gives back the
/// header it was computed over.
proof fn lemma_zeroed_written_header(t: GptModel, bs: u16, primary: bool)
    requires
        t.gpt_uuid.len() == 16,
    ensures
        splice(final_header_bytes(t, bs, primary), 16, zeros(4)) == header_bytes(
            t,
            primary,
            zeros(4),
            part_array_crc(t),
            part_start_block(t, bs, primary) as u64,
        ),
{
    assert(splice(final_header_bytes(t, bs, primary), 16, zeros(4)) =~= header_bytes(
        t,
        primary,
        zeros(4),
        part_array_crc(t),
        part_start_block(t, bs, primary) as u64,
    ));
}

/// A slot that `load` could have produced parses back from its own
/// serialization.
proof fn lemma_parse_written_entry(e: Option<EntryModel>, ig: bool)
    requires
        entry_wf(e),
        entry_round_trip_wf(e),
    ensures
        parse_gpt_entry(gpt_entry_bytes(e), ig) == Ok::<Option<EntryModel>, ErrorType>(e),
{
    let b = gpt_entry_bytes(e);
    match e {
        None => {
            assert(b.subrange(56, 128) =~= zeros(72));
            assert forall|i: int| 0 <= i < 36 implies crate::name::units_of_field(zeros(72))[i]
                == crate::name::pad_units(36)[i] by {
                assert(zeros(72).subrange(2 * i, 2 * i + 2) =~= zeros(2));
                crate::bytes::lemma_le_of_zero();
            }
            assert(crate::name::units_of_field(zeros(72)) =~= crate::name::pad_units(36));
            crate::name::lemma_pad_units_decode(36);
            assert(b.subrange(0, 16) =~= zeros(16));
            assert(mixed_endian(zeros(16)) =~= zeros(16));
        },
        Some(p) => {
            assert(b.subrange(0, 16) =~= mixed_endian(p.part_type));
            assert(b.subrange(16, 32) =~= mixed_endian(p.part_id));
            assert(b.subrange(32, 40) =~= u64_to_le(p.start));
            assert(b.subrange(40, 48) =~= u64_to_le(p.end));
            assert(b.subrange(48, 56) =~= u64_to_le(p.flags));
            crate::name::lemma_units_le_bytes_len(crate::name::name_units(p.name));
            assert(b.subrange(56, 128) =~= crate::name::name_field_bytes(p.name));
            crate::name::lemma_name_round_trip(p.name);
            crate::guid::lemma_mixed_endian_involution(p.part_type);
            crate::guid::lemma_mixed_endian_involution(p.part_id);
            crate::bytes::lemma_u64_le_auto();
            if mixed_endian(mixed_endian(p.part_type)) == zeros(16) {
                assert(p.part_type == zeros(16));
            }
            assert(parse_gpt_entry(b, ig)->Ok_0->0 == p);
        },
    }
}

/// An entry array written from slots that `load` could have produced
/// parses back to exactly those slots.
proof fn lemma_parse_written_entries(
    image: Seq<u8>,
    base: int,
    parts: Seq<Option<EntryModel>>,
    ig: bool,
)
    requires
        0 <= base,
        base + 128 * parts.len() <= image.len(),
        image.subrange(base, base + 128 * parts.len()) == entries_bytes(parts),
        forall|i: int| 0 <= i < parts.len() ==> entry_wf(#[trigger] parts[i]),
        forall|i: int| 0 <= i < parts.len() ==> entry_round_trip_wf(#[trigger] parts[i]),
    ensures
        parse_entries(image, base, parts.len() as int, ig) == Ok::<
            Seq<Option<EntryModel>>,
            ErrorType,
        >(parts),
    decreases parts.len(),
{
    let n = parts.len() as int;
    if n > 0 {
        let front = parts.take(n - 1);
        lemma_entries_bytes_len(parts);
        lemma_entries_bytes_len(front);
        assert(front.push(parts[n - 1]) =~= parts);
        lemma_entries_bytes_push(front, parts[n - 1]);
        assert(entries_bytes(parts) == entries_bytes(front.push(parts[n - 1])));
        assert(image.subrange(base, base + 128 * (n - 1)) =~= entries_bytes(front));
        lemma_parse_written_entries(image, base, front, ig);
        lemma_gpt_entry_bytes_len(parts[n - 1]);
        assert(image.subrange(base + 128 * (n - 1), base + 128 * n) =~= image.subrange(
            base,
            base + 128 * n,
        ).subrange(128 * (n - 1), 128 * n));
        assert(entries_bytes(parts).subrange(128 * (n - 1), 128 * n) =~= gpt_entry_bytes(
            parts[n - 1],
        ));
        assert(image.subrange(base + 128 * (n - 1), base + 128 * n) == gpt_entry_bytes(
            parts[n - 1],
        ));
        lemma_parse_written_entry(parts[n - 1], ig);
        assert(parse_entries(image, base, n, ig) == Ok::<Seq<Option<EntryModel>>, ErrorType>(
            front.push(parts[n - 1]),
        ));
    } else {
        assert(parts =~= Seq::<Option<EntryModel>>::empty());
    }
}

/// After both copies are written, the primary header and entry array
/// read back unchanged: the backup's regions lie entirely behind them.
proof fn lemma_written_regions(img: Seq<u8>, t: GptModel, bs: u16)
    requires
        round_trip_pre(t, bs, img.len() as int),
    ensures
        write_image(img, t, bs).len() == img.len(),
        write_image(img, t, bs).subrange(bs as int, bs + 92) == final_header_bytes(t, bs, true),
        write_image(img, t, bs).subrange(
            2 * (bs as int),
            2 * (bs as int) + 128 * (t.partitions.len() as int),
        ) == entries_bytes(t.partitions),
{
    let hs = bs as int;
    let n = t.partitions.len() as int;
    let lb = 128 * n / hs;
    let b = t.backup_gpt as int;
    let e = entries_bytes(t.partitions);
    let h1 = final_header_bytes(t, bs, true);
    let h2 = final_header_bytes(t, bs, false);
    lemma_entries_bytes_len(t.partitions);
    lemma_header_bytes_len(t, true, u32_to_le(header_crc(t, bs, true)), part_array_crc(t), 2u64);
    lemma_header_bytes_len(
        t,
        false,
        u32_to_le(header_crc(t, bs, false)),
        part_array_crc(t),
        part_start_block(t, bs, false) as u64,
    );
    vstd::arithmetic::div_mod::lemma_fundamental_div_mod(128 * n, hs);
    assert(lb * hs == 128 * n);
    assert((b - lb) * hs == b * hs - lb * hs) by (nonlinear_arith);
    assert((b + 1) * hs == b * hs + hs) by (nonlinear_arith);
    assert(b * hs - lb * hs >= (2 + lb) * hs) by (nonlinear_arith)
        requires
            b >= 2 + 2 * lb,
            hs > 0,
            lb >= 0,
    ;
    assert((2 + lb) * hs == 2 * hs + lb * hs) by (nonlinear_arith);
    // primary copy
    let i1 = splice(img, 2 * hs, e);
    let i2 = splice(i1, hs, zeros(hs));
    let i3 = splice(i2, hs, h1);
    assert(i3 == write_one(img, t, bs, true));
    // backup copy over it
    let j1 = splice(i3, (b - lb) * hs, e);
    let j2 = splice(j1, b * hs, zeros(hs));
    let j3 = splice(j2, b * hs, h2);
    assert(j3 == write_image(img, t, bs));
    // the primary header region
    crate::bytes::lemma_splice_read_back(i2, hs, h1);
    crate::bytes::lemma_splice_elsewhere(i3, (b - lb) * hs, e, hs, hs + 92);
    crate::bytes::lemma_splice_elsewhere(j1, b * hs, zeros(hs), hs, hs + 92);
    crate::bytes::lemma_splice_elsewhere(j2, b * hs, h2, hs, hs + 92);
    assert(j3.subrange(hs, hs + 92) == h1);
    // the primary entry array region
    crate::bytes::lemma_splice_read_back(img, 2 * hs, e);
    crate::bytes::lemma_splice_elsewhere(i1, hs, zeros(hs), 2 * hs, 2 * hs + 128 * n);
    crate::bytes::lemma_splice_elsewhere(i2, hs, h1, 2 * hs, 2 * hs + 128 * n);
    crate::bytes::lemma_splice_elsewhere(i3, (b - lb) * hs, e, 2 * hs, 2 * hs + 128 * n);
    crate::bytes::lemma_splice_elsewhere(j1, b * hs, zeros(hs), 2 * hs, 2 * hs + 128 * n);
    crate::bytes::lemma_splice_elsewhere(j2, b * hs, h2, 2 * hs, 2 * hs + 128 * n);
    assert(j3.subrange(2 * hs, 2 * hs + 128 * n) == e);
}

/// Round trip: writing a table to a well-formed image and loading the
/// same image back yields an equal logical table, with the checksum
/// field holding the newly computed primary-header checksum.
/// An image whose primary header region and entry array hold a written
/// table passes the load checks and denotes that table's model.
#[verifier::rlimit(100)]
#[verifier::spinoff_prover]
proof fn lemma_loaded_from_written(t: GptModel, out: Seq<u8>, bs: u16, ignore_csum: bool)
    requires
        t.gpt_uuid.len() == 16,
        t.partitions.len() <= u32::MAX,
        forall|i: int| 0 <= i < t.partitions.len() ==> entry_wf(#[trigger] t.partitions[i]),
        bs >= 92,
        out.len() >= 2 * (bs as int) + 128 * (t.partitions.len() as int),
        out.subrange(bs as int, bs + 92) == final_header_bytes(t, bs, true),
        out.subrange(2 * (bs as int), 2 * (bs as int) + 128 * (t.partitions.len() as int))
            == entries_bytes(t.partitions),
    ensures
        load_checks(out, bs, ignore_csum),
        header_count(out, bs) == t.partitions.len() as u32,
        gpt_model_of(out, bs, t.partitions) == (GptModel {
            checksum: header_crc(t, bs, true),
            ..t
        }),
{
    let hs = bs as int;
    let n = t.partitions.len() as int;
    let h1 = final_header_bytes(t, bs, true);
    let hcrc = header_crc(t, bs, true);
    let pcrc = part_array_crc(t);
    lemma_header_fields(t, true, u32_to_le(hcrc), pcrc, 2u64);
    assert forall|a: int, c: int| 0 <= a <= c <= 92 implies #[trigger] out.subrange(
        hs + a,
        hs + c,
    ) == h1.subrange(a, c) by {
        assert(out.subrange(hs + a, hs + c) =~= out.subrange(hs, hs + 92).subrange(a, c));
    }
    crate::bytes::lemma_u32_le_auto();
    crate::bytes::lemma_u64_le_auto();
    assert(out.subrange(hs, hs + 8) == gpt_magic()) by {
        assert(out.subrange(hs, hs + 8) =~= out.subrange(hs, hs + 92).subrange(0, 8));
    }
    assert(u32_from_le(out.subrange(hs + 12, hs + 16)) == 92);
    assert(u32_from_le(out.subrange(hs + 16, hs + 20)) == hcrc);
    assert(u64_from_le(out.subrange(hs + 24, hs + 32)) == t.primary_gpt);
    assert(u64_from_le(out.subrange(hs + 32, hs + 40)) == t.backup_gpt);
    assert(u64_from_le(out.subrange(hs + 40, hs + 48)) == t.first_usable);
    assert(u64_from_le(out.subrange(hs + 48, hs + 56)) == t.last_usable);
    assert(u64_from_le(out.subrange(hs + 72, hs + 80)) == 2);
    assert(u32_from_le(out.subrange(hs + 80, hs + 84)) == t.partitions.len() as u32);
    assert(u32_from_le(out.subrange(hs + 84, hs + 88)) == 128);
    assert(u32_from_le(out.subrange(hs + 88, hs + 92)) == pcrc);
    crate::guid::lemma_mixed_endian_involution(t.gpt_uuid);
    assert(mixed_endian(out.subrange(hs + 56, hs + 72)) == t.gpt_uuid);
    assert(zeroed_header(out, bs) == splice(h1, 16, zeros(4))) by {
        assert(zeroed_header(out, bs) =~= splice(h1, 16, zeros(4)));
    }
    lemma_zeroed_written_header(t, bs, true);
    assert(crc32_of(zeroed_header(out, bs)) == hcrc);
    assert(crc32_of(out.subrange(2 * hs, 2 * hs + 128 * n)) == pcrc);
    assert(load_checks(out, bs, ignore_csum));
    assert(gpt_model_of(out, bs, t.partitions) == (GptModel { checksum: hcrc, ..t }));
}

/// Round trip: writing a table to a well-formed image and loading the
/// same image back yields an equal logical table, with the checksum
/// field holding the newly computed primary-header checksum.
#[verifier::rlimit(100)]
#[verifier::spinoff_prover]
pub proof fn lemma_write_load_round_trip(
    t: GptModel,
    img: Seq<u8>,
    bs: u16,
    ignore_csum: bool,
    ignore_utf16: bool,
)
    requires
        round_trip_pre(t, bs, img.len() as int),
    ensures
        parse_gpt(write_image(img, t, bs), bs, ignore_csum, ignore_utf16) == Ok::<
            GptModel,
            ErrorType,
        >(GptModel { checksum: header_crc(t, bs, true), ..t }),
{
    let hs = bs as int;
    let n = t.partitions.len() as int;
    let lb = 128 * n / hs;
    let b = t.backup_gpt as int;
    let out = write_image(img, t, bs);
    lemma_written_regions(img, t, bs);
    lemma_entries_bytes_len(t.partitions);
    vstd::arithmetic::div_mod::lemma_fundamental_div_mod(128 * n, hs);
    assert(lb * hs == 128 * n);
    assert((b + 1) * hs == b * hs + hs) by (nonlinear_arith);
    assert(b * hs >= (2 + 2 * lb) * hs) by (nonlinear_arith)
        requires
            b >= 2 + 2 * lb,
            hs > 0,
    ;
    assert((2 + 2 * lb) * hs == 2 * hs + 2 * (lb * hs)) by (nonlinear_arith);
    assert(out.len() >= 2 * hs + 128 * n);
    lemma_loaded_from_written(t, out, bs, ignore_csum);
    lemma_parse_written_entries(out, 2 * hs, t.partitions, ignore_utf16);
    lemma_parse_gpt_unfold(out, bs, ignore_csum, ignore_utf16);
}

/// The magic bytes as a buffer.
fn gpt_magic_vec() -> (r: Vec<u8>)
    ensures
        r@ == gpt_magic(),
{
    let mut r: Vec<u8> = Vec::new();
    r.push(0x45u8);
    r.push(0x46u8);
    r.push(0x49u8);
    r.push(0x20u8);
    r.push(0x50u8);
    r.push(0x41u8);
    r.push(0x52u8);
    r.push(0x54u8);
    proof {
        assert(r@ =~= gpt_magic());
    }
    r
}

/// The revision bytes as a buffer.
fn gpt_revision_vec() -> (r: Vec<u8>)
    ensures
        r@ == gpt_revision(),
{
    let mut r: Vec<u8> = Vec::new();
    r.push(0x00u8);
    r.push(0x00u8);
    r.push(0x01u8);
    r.push(0x00u8);
    proof {
        assert(r@ =~= gpt_revision());
    }
    r
}

impl GPTTable {
    /// Whether an image carries the GPT magic at the primary header
    /// location (byte offset `block_size`).
    pub fn table_exists(image: &Vec<u8>, options: &GPTOptions) -> (r: bool)
        ensures
            r <==> (image@.len() >= options.block_size + 8 && image@.subrange(
                options.block_size as int,
                options.block_size + 8,
            ) == gpt_magic()),
    {
        let hs = options.block_size as usize;
        if image.len() < hs + 8 {
            return false;
        }
        let m = read_bytes_at(image, hs, 8);
        let magic = gpt_magic_vec();
        bytes_eq(&m, &magic)
    }

    /// Load a GPT from a byte image of the start of a disk.
    ///
    /// The outcome is exactly the parse of the image: the table on
    /// success, and on failure the error that the load protocol reports
    /// for this image and these options.
    #[verifier::rlimit(100)]
    pub fn load(image: &Vec<u8>, options: &GPTOptions) -> (r: Result<GPTTable, GPTError>)
        requires
            image@.len() <= u32::MAX,
        ensures
            match r {
                Ok(t) => parse_gpt(
                    image@,
                    options.block_size,
                    options.ignore_csum,
                    options.ignore_utf16_errors,
                ) == Ok::<GptModel, ErrorType>(t@),
                Err(e) => parse_gpt(
                    image@,
                    options.block_size,
                    options.ignore_csum,
                    options.ignore_utf16_errors,
                ) == Err::<GptModel, ErrorType>(e@),
            },
    {
        let bs = options.block_size;
        let hs = bs as usize;
        let blen: usize = image.len();
        if blen < hs + 92 {
            return Err(GPTError::new(ErrorType::IOError));
        }
        let m = read_bytes_at(image, hs, 8);
        let magic = gpt_magic_vec();
        if !bytes_eq(&m, &magic) {
            return Err(GPTError::new(ErrorType::NoTable));
        }
        let rev = read_bytes_at(image, hs + 8, 4);
        let rev_expect = gpt_revision_vec();
        if !bytes_eq(&rev, &rev_expect) {
            return Err(GPTError::new(ErrorType::InvalidVersion));
        }
        let hlen = read_u32_at(image, hs + 12);
        if hlen != 92 {
            return Err(GPTError::new(ErrorType::InvalidHeader));
        }
        let part_start = read_u64_at(image, hs + 72);
        if part_start != 2 {
            return Err(GPTError::new(ErrorType::InvalidHeader));
        }
        let part_size = read_u32_at(image, hs + 84);
        if part_size != 128 {
            return Err(GPTError::new(ErrorType::InvalidHeader));
        }
        let crc_stored = read_u32_at(image, hs + 16);
        let count = read_u32_at(image, hs + 80);
        let part_crc = read_u32_at(image, hs + 88);

        if !options.ignore_csum {
            let mut hdr = read_bytes_at(image, hs, 92);
            zero_bytes_at(&mut hdr, 16, 4);
            let csum = crc32(&hdr);
            if csum != crc_stored {
                return Err(GPTError::new(ErrorType::ChecksumError));
            }
        }
        let entries_len: u64 = 128u64 * (count as u64);
        let base64: u64 = 2u64 * (bs as u64);
        if (blen as u64) < base64 + entries_len {
            return Err(GPTError::new(ErrorType::IOError));
        }
        let base: usize = base64 as usize;
        let elen: usize = entries_len as usize;
        if !options.ignore_csum {
            let ebuf = read_bytes_at(image, base, elen);
            let csum = crc32(&ebuf);
            if csum != part_crc {
                return Err(GPTError::new(ErrorType::ChecksumError));
            }
        }
        let n = count as usize;
        proof {
            assert(load_checks(image@, bs, options.ignore_csum));
        }
        let mut partitions: Vec<Option<PartitionEntry>> = Vec::new();
        let mut i: usize = 0;
        proof {
            assert(parse_entries(image@, base as int, 0, options.ignore_utf16_errors)
                == Ok::<Seq<Option<EntryModel>>, ErrorType>(Seq::empty()));
            assert(slots_view(partitions@) =~= Seq::<Option<EntryModel>>::empty());
        }
        while i < n
            invariant
                bs == options.block_size,
                load_checks(image@, bs, options.ignore_csum),
                n == count,
                count == header_count(image@, bs),
                crc_stored == u32_from_le(image@.subrange(bs + 16, bs + 20)),
                base == 2 * (bs as int),
                base + 128 * n <= image@.len(),
                image@.len() <= usize::MAX,
                i <= n,
                partitions@.len() == i,
                parse_entries(image@, base as int, i as int, options.ignore_utf16_errors)
                    == Ok::<Seq<Option<EntryModel>>, ErrorType>(slots_view(partitions@)),
            decreases n - i,
        {
            let eoff = base + 128 * i;
            let ghost ig = options.ignore_utf16_errors;
            match Self::load_gpt_entry(image, eoff, options.ignore_utf16_errors) {
                Ok(e) => {
                    let ghost old_parts = partitions@;
                    let ghost em = slot_view(e);
                    partitions.push(e);
                    proof {
                        assert(slots_view(partitions@) =~= slots_view(old_parts).push(em));
                        assert(parse_entries(image@, base as int, i + 1, ig) == Ok::<
                            Seq<Option<EntryModel>>,
                            ErrorType,
                        >(slots_view(partitions@)));
                    }
                },
                Err(err) => {
                    proof {
                        assert(parse_entries(image@, base as int, i + 1, ig) == Err::<
                            Seq<Option<EntryModel>>,
                            ErrorType,
                        >(err@));
                        lemma_parse_entries_err_mono(
                            image@,
                            base as int,
                            i + 1,
                            n as int,
                            ig,
                            err@,
                        );
                        lemma_parse_gpt_unfold(image@, bs, options.ignore_csum, ig);
                    }
                    return Err(err);
                },
            }
            i += 1;
        }
        proof {
            lemma_parse_gpt_unfold(image@, bs, options.ignore_csum, options.ignore_utf16_errors);
        }
        let table = GPTTable {
            primary_gpt: Block(read_u64_at(image, hs + 24)),
            backup_gpt: Block(read_u64_at(image, hs + 32)),
            first_usable: Block(read_u64_at(image, hs + 40)),
            last_usable: Block(read_u64_at(image, hs + 48)),
            gpt_uuid: read_uuid_at(image, hs + 56),
            partitions,
            checksum: crc_stored,
        };
        Ok(table)
    }

    /// Serializes one partition slot to its 128-byte on-disk form.
    fn entry_to_bytes(e: &Option<PartitionEntry>) -> (r: Vec<u8>)
        ensures
            r@ == gpt_entry_bytes(slot_view(*e)),
            entry_wf(slot_view(*e)),
    {
        match e {
            None => zero_vec(128),
            Some(p) => {
                let mut b = crate::guid::mixed_endian_bytes(&p.part_type);
                let ib = crate::guid::mixed_endian_bytes(&p.part_id);
                append_bytes(&mut b, &ib);
                let sb = u64_le_vec(p.start.0);
                append_bytes(&mut b, &sb);
                let eb = u64_le_vec(p.end.0);
                append_bytes(&mut b, &eb);
                let fb = u64_le_vec(p.flags);
                append_bytes(&mut b, &fb);
                let nb = crate::name::name_field_vec(p.name.as_str());
                append_bytes(&mut b, &nb);
                proof {
                    assert(b@ =~= gpt_entry_bytes(Some(p@)));
                }
                b
            },
        }
    }

    /// Serializes the whole partition-entry array.
    fn build_entries(&self) -> (r: Vec<u8>)
        ensures
            r@ == entries_bytes(self@.partitions),
            forall|i: int|
                0 <= i < self@.partitions.len() ==> entry_wf(#[trigger] self@.partitions[i]),
    {
        let n = self.partitions.len();
        let mut buf: Vec<u8> = Vec::new();
        let mut i: usize = 0;
        proof {
            assert(slots_view(self.partitions@).take(0) =~= Seq::<Option<EntryModel>>::empty());
            assert(entries_bytes(Seq::<Option<EntryModel>>::empty()) == Seq::<u8>::empty());
            assert(buf@ =~= Seq::<u8>::empty());
        }
        while i < n
            invariant
                n == self.partitions@.len(),
                self@.partitions == slots_view(self.partitions@),
                i <= n,
                buf@ == entries_bytes(self@.partitions.take(i as int)),
                forall|k: int| 0 <= k < i ==> entry_wf(#[trigger] self@.partitions[k]),
            decreases n - i,
        {
            let eb = Self::entry_to_bytes(&self.partitions[i]);
            append_bytes(&mut buf, &eb);
            proof {
                assert(self@.partitions[i as int] == slot_view(self.partitions@[i as int]));
                lemma_entries_bytes_push(
                    self@.partitions.take(i as int),
                    self@.partitions[i as int],
                );
                assert(self@.partitions.take(i + 1) =~= self@.partitions.take(i as int).push(
                    self@.partitions[i as int],
                ));
            }
            i += 1;
        }
        proof {
            assert(self@.partitions.take(n as int) =~= self@.partitions);
        }
        buf
    }

    /// Builds one copy's 92-byte header with the checksum field zeroed.
    fn build_header_zero_crc(&self, primary: bool, part_start: u64, part_crc: u32) -> (r: Vec<u8>)
        requires
            self.partitions@.len() <= u32::MAX,
        ensures
            r@ == header_bytes(self@, primary, zeros(4), part_crc, part_start),
            self@.gpt_uuid.len() == 16,
            r@.len() == 92,
    {
        let mut b = gpt_magic_vec();
        let rv = gpt_revision_vec();
        append_bytes(&mut b, &rv);
        let hl = u32_le_vec(92);
        append_bytes(&mut b, &hl);
        let z1 = zero_vec(4);
        append_bytes(&mut b, &z1);
        let z2 = zero_vec(4);
        append_bytes(&mut b, &z2);
        let this_pos = if primary {
            self.primary_gpt.0
        } else {
            self.backup_gpt.0
        };
        let other_pos = if primary {
            self.backup_gpt.0
        } else {
            self.primary_gpt.0
        };
        let tp = u64_le_vec(this_pos);
        append_bytes(&mut b, &tp);
        let op = u64_le_vec(other_pos);
        append_bytes(&mut b, &op);
        let fu = u64_le_vec(self.first_usable.0);
        append_bytes(&mut b, &fu);
        let lu = u64_le_vec(self.last_usable.0);
        append_bytes(&mut b, &lu);
        let uu = crate::guid::mixed_endian_bytes(&self.gpt_uuid);
        append_bytes(&mut b, &uu);
        let ps = u64_le_vec(part_start);
        append_bytes(&mut b, &ps);
        let cnt = u32_le_vec(self.partitions.len() as u32);
        append_bytes(&mut b, &cnt);
        let es = u32_le_vec(128);
        append_bytes(&mut b, &es);
        let pc = u32_le_vec(part_crc);
        append_bytes(&mut b, &pc);
        proof {
            assert(b@ =~= header_bytes(self@, primary, zeros(4), part_crc, part_start));
        }
        b
    }

    /// Serializes one copy of the table into the image: the entry array
    /// at its block, then the zero-filled header block, then the header
    /// itself. Fails with an IO error, leaving the image unchanged,
    /// exactly when a region lies beyond the end of the image.
    fn write_gpt(&self, image: &mut Vec<u8>, options: &GPTOptions, primary: bool) -> (r: Result<
        (),
        GPTError,
    >)
        requires
            write_pre(self@, options.block_size),
        ensures
            r is Ok <==> copy_fits(self@, options.block_size, primary, old(image)@.len() as int),
            r is Ok ==> final(image)@ == write_one(
                old(image)@,
                self@,
                options.block_size,
                primary,
            ),
            r is Err ==> final(image)@ == old(image)@ && r->Err_0@ == ErrorType::IOError,
    {
        let bs = options.block_size;
        let bs64 = bs as u64;
        let count = self.partitions.len();
        let plen_bytes: u64 = 128u64 * (count as u64);
        let plen_blocks: u64 = plen_bytes / bs64;
        let mypos: u64 = if primary {
            self.primary_gpt.0
        } else {
            self.backup_gpt.0
        };
        let part_start: u64 = if primary {
            2u64
        } else {
            self.backup_gpt.0 - plen_blocks
        };
        proof {
            vstd::arithmetic::div_mod::lemma_fundamental_div_mod(128 * (count as int), bs as int);
            assert(plen_blocks * bs64 == plen_bytes);
            if !primary {
                assert((self@.backup_gpt - plen_blocks) * bs64 <= self@.backup_gpt * bs64)
                    by (nonlinear_arith)
                    requires
                        plen_blocks >= 0,
                        bs64 >= 0,
                        self@.backup_gpt >= plen_blocks,
                ;
                assert(part_start * bs64 + plen_bytes == self@.backup_gpt * bs64)
                    by (nonlinear_arith)
                    requires
                        part_start == self@.backup_gpt - plen_blocks,
                        plen_blocks * bs64 == plen_bytes,
                ;
            }
            assert(part_start as int == part_start_block(self@, bs, primary));
            assert(mypos as int == header_block(self@, primary));
        }
        let eoff64: u64 = part_start * bs64;
        let hoff64: u64 = mypos * bs64;
        let ilen: u64 = image.len() as u64;
        if !(eoff64 + plen_bytes <= ilen && hoff64 + bs64 <= ilen && hoff64 + 92 <= ilen) {
            return Err(GPTError::new(ErrorType::IOError));
        }
        let entries = self.build_entries();
        proof {
            lemma_entries_bytes_len(self@.partitions);
        }
        let part_crc = crc32(&entries);
        let mut hdr = self.build_header_zero_crc(primary, part_start, part_crc);
        let hdr_crc = crc32(&hdr);
        write_u32_at(&mut hdr, 16, hdr_crc);
        proof {
            lemma_header_bytes_len(self@, primary, zeros(4), part_crc, part_start);
            assert(hdr@ =~= header_bytes(
                self@,
                primary,
                u32_to_le(hdr_crc),
                part_crc,
                part_start,
            ));
            assert(hdr@ == final_header_bytes(self@, bs, primary));
        }
        let eoff = eoff64 as usize;
        let hoff = hoff64 as usize;
        write_bytes_at(image, eoff, &entries);
        zero_bytes_at(image, hoff, bs as usize);
        write_bytes_at(image, hoff, &hdr);
        proof {
            assert(image@ =~= write_one(old(image)@, self@, bs, primary));
        }
        Ok(())
    }

    /// Write a GPT to an image: both the primary and the backup copy.
    ///
    /// The image is patched in place at the absolute byte offsets that
    /// the table's geometry dictates; the stored checksum field is not
    /// reused but recomputed from the current state. Fails with an IO
    /// error exactly when a region of either copy lies beyond the end
    /// of the image; the primary copy is written before the backup is
    /// checked.
    pub fn write(&self, image: &mut Vec<u8>, options: &GPTOptions) -> (r: Result<(), GPTError>)
        requires
            write_pre(self@, options.block_size),
        ensures
            r is Ok <==> (copy_fits(self@, options.block_size, true, old(image)@.len() as int)
                && copy_fits(self@, options.block_size, false, old(image)@.len() as int)),
            r is Ok ==> final(image)@ == write_image(old(image)@, self@, options.block_size),
            r is Err ==> r->Err_0@ == ErrorType::IOError,
            !copy_fits(self@, options.block_size, true, old(image)@.len() as int)
                ==> final(image)@ == old(image)@,
            (copy_fits(self@, options.block_size, true, old(image)@.len() as int) && !copy_fits(
                self@,
                options.block_size,
                false,
                old(image)@.len() as int,
            )) ==> final(image)@ == write_one(old(image)@, self@, options.block_size, true),
    {
        match self.write_gpt(image, options, true) {
            Err(e) => {
                return Err(e);
            },
            Ok(u) => u,
        };
        match self.write_gpt(image, options, false) {
            Err(e) => {
                return Err(e);
            },
            Ok(u) => u,
        };
        Ok(())
    }

    /// Gets the amount of partitions that are in use.
    ///
    /// Empty slots between present partitions are not counted.
    pub fn part_count(&self) -> (r: u64)
        ensures
            r == present_count(self@.partitions),
    {
        let n = self.partitions.len();
        let mut cnt: u64 = 0;
        let mut i: usize = 0;
        proof {
            assert(self@.partitions.take(0) =~= Seq::<Option<EntryModel>>::empty());
        }
        while i < n
            invariant
                n == self.partitions@.len(),
                self@.partitions == slots_view(self.partitions@),
                i <= n,
                cnt == present_count(self@.partitions.take(i as int)),
                cnt <= i,
            decreases n - i,
        {
            proof {
                lemma_present_count_push(
                    self@.partitions.take(i as int),
                    self@.partitions[i as int],
                );
                assert(self@.partitions.take(i + 1) =~= self@.partitions.take(i as int).push(
                    self@.partitions[i as int],
                ));
            }
            if self.partitions[i].is_some() {
                cnt += 1;
            }
            i += 1;
        }
        proof {
            assert(self@.partitions.take(n as int) =~= self@.partitions);
        }
        cnt
    }

    /// Gives you readonly access to all partition slots, the empty ones
    /// included.
    pub fn partitions(&self) -> (r: &Vec<Option<PartitionEntry>>)
        ensures
            slots_view(r@) == self@.partitions,
    {
        &self.partitions
    }

    /// Get the first free partition slot index.
    ///
    /// Returns `Some(id)` for the lowest empty slot, `None` if every
    /// slot is occupied.
    pub fn next_id(&self) -> (r: Option<u64>)
        ensures
            match r {
                Some(id) => 0 <= id < self@.partitions.len() && self@.partitions[id as int]
                    is None && forall|j: int| 0 <= j < id ==> self@.partitions[j] is Some,
                None => forall|j: int|
                    0 <= j < self@.partitions.len() ==> self@.partitions[j] is Some,
            },
    {
        let n = self.partitions.len();
        let mut i: usize = 0;
        while i < n
            invariant
                n == self.partitions@.len(),
                self@.partitions == slots_view(self.partitions@),
                i <= n,
                forall|j: int| 0 <= j < i ==> self@.partitions[j] is Some,
            decreases n - i,
        {
            if self.partitions[i].is_none() {
                return Some(i as u64);
            }
            i += 1;
        }
        None
    }

    /// Set a partition slot to the given entry.
    ///
    /// Fails with `InvalidID`, leaving the table unchanged, exactly
    /// when `id` is not below the fixed slot count.
    pub fn set_partition(&mut self, id: u64, part: PartitionEntry) -> (r: Result<(), GPTError>)
        ensures
            r is Ok <==> id < old(self)@.partitions.len(),
            r is Ok ==> final(self)@ == (GptModel {
                partitions: old(self)@.partitions.update(id as int, Some(part@)),
                ..old(self)@
            }),
            r is Err ==> final(self)@ == old(self)@ && r->Err_0@ == ErrorType::InvalidID,
    {
        if id >= self.partitions.len() as u64 {
            return Err(GPTError::new(ErrorType::InvalidID));
        }
        self.partitions.set(id as usize, Some(part));
        proof {
            assert(slots_view(self.partitions@) =~= old(self)@.partitions.update(
                id as int,
                Some(part@),
            ));
        }
        Ok(())
    }

    /// Mark a partition slot as empty.
    ///
    /// Fails with `InvalidID`, leaving the table unchanged, exactly
    /// when `id` is not below the fixed slot count.
    pub fn delete_partition(&mut self, id: u64) -> (r: Result<(), GPTError>)
        ensures
            r is Ok <==> id < old(self)@.partitions.len(),
            r is Ok ==> final(self)@ == (GptModel {
                partitions: old(self)@.partitions.update(id as int, None),
                ..old(self)@
            }),
            r is Err ==> final(self)@ == old(self)@ && r->Err_0@ == ErrorType::InvalidID,
    {
        if id >= self.partitions.len() as u64 {
            return Err(GPTError::new(ErrorType::InvalidID));
        }
        self.partitions.set(id as usize, None);
        proof {
            assert(slots_view(self.partitions@) =~= old(self)@.partitions.update(id as int, None));
        }
        Ok(())
    }

    /// Reads one 128-byte partition entry at byte offset `eoff`.
    fn load_gpt_entry(image: &Vec<u8>, eoff: usize, ignore_utf16: bool) -> (r: Result<
        Option<PartitionEntry>,
        GPTError,
    >)
        requires
            eoff + 128 <= image@.len(),
        ensures
            match r {
                Ok(e) => parse_gpt_entry(image@.subrange(eoff as int, eoff + 128), ignore_utf16)
                    == Ok::<Option<EntryModel>, ErrorType>(slot_view(e)),
                Err(err) => parse_gpt_entry(image@.subrange(eoff as int, eoff + 128), ignore_utf16)
                    == Err::<Option<EntryModel>, ErrorType>(err@),
            },
    {
        let blen: usize = image.len();
        let ghost b = image@.subrange(eoff as int, eoff + 128);
        let part_type = read_uuid_at(image, eoff);
        let part_id = read_uuid_at(image, eoff + 16);
        let start = read_u64_at(image, eoff + 32);
        let end = read_u64_at(image, eoff + 40);
        let flags = read_u64_at(image, eoff + 48);
        proof {
            assert(b.subrange(0, 16) =~= image@.subrange(eoff as int, eoff + 16));
            assert(b.subrange(16, 32) =~= image@.subrange(eoff + 16, eoff + 32));
            assert(b.subrange(32, 40) =~= image@.subrange(eoff + 32, eoff + 40));
            assert(b.subrange(40, 48) =~= image@.subrange(eoff + 40, eoff + 48));
            assert(b.subrange(48, 56) =~= image@.subrange(eoff + 48, eoff + 56));
            assert(b.subrange(56, 128) =~= image@.subrange(eoff + 56, eoff + 128));
        }
        let name = match read_name_field(image, eoff + 56) {
            Some(name) => name,
            None => {
                if ignore_utf16 {
                    String::new()
                } else {
                    proof {
                        assert(parse_gpt_entry(b, false) == Err::<Option<EntryModel>, ErrorType>(
                            ErrorType::UTF16Error,
                        ));
                    }
                    return Err(GPTError::new(ErrorType::UTF16Error));
                }
            },
        };
        if part_type.is_nil() {
            proof {
                assert(parse_gpt_entry(b, ignore_utf16) == Ok::<Option<EntryModel>, ErrorType>(
                    None,
                ));
            }
            Ok(None)
        } else {
            let entry = PartitionEntry {
                part_type,
                part_id,
                start: Block(start),
                end: Block(end),
                flags,
                name,
            };
            proof {
                assert(parse_gpt_entry(b, ignore_utf16) == Ok::<Option<EntryModel>, ErrorType>(
                    Some(entry@),
                ));
            }
            Ok(Some(entry))
        }
    }
}

} // verus!
