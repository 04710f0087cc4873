//! UUID values and the mixed-endian byte order that GPT stores them in.
//!
//! On disk the first three groups of a GPT UUID (4 bytes, 2 bytes, 2 bytes)
//! are little-endian while the last 8 bytes are verbatim; a canonical UUID
//! is big-endian throughout. The transform that fixes this up is its own
//! inverse.
use vstd::prelude::*;
use crate::bytes::{splice, zeros};

verus! {

/// A canonical 16-byte UUID value. The nil UUID (all zero bytes) is a
/// valid value.
#[derive(Debug, PartialEq, Eq)]
pub struct Uuid {
    bytes: Vec<u8>,
}

impl View for Uuid {
    type V = Seq<u8>;

    closed spec fn view(&self) -> Seq<u8> {
        self.bytes@
    }
}

impl Uuid {
    #[verifier::type_invariant]
    spec fn type_inv(self) -> bool {
        self.bytes@.len() == 16
    }

    /// The nil UUID: all 16 bytes zero.
    pub fn nil() -> (r: Uuid)
        ensures
            r@ == zeros(16),
    {
        let mut bytes: Vec<u8> = Vec::new();
        let mut i: usize = 0;
        while i < 16
            invariant
                i <= 16,
                bytes@.len() == i,
                forall|j: int| 0 <= j < i ==> bytes@[j] == 0u8,
            decreases 16 - i,
        {
            bytes.push(0u8);
            i += 1;
        }
        proof {
            assert(bytes@ =~= zeros(16));
        }
        Uuid { bytes }
    }

    /// Builds a UUID from its canonical big-endian bytes; fails unless
    /// exactly 16 bytes are given.
    pub fn from_bytes(bytes: Vec<u8>) -> (r: Option<Uuid>)
        ensures
            r is Some <==> bytes@.len() == 16,
            r is Some ==> r->0@ == bytes@,
    {
        if bytes.len() == 16 {
            Some(Uuid { bytes })
        } else {
            None
        }
    }

    /// The canonical big-endian bytes of the UUID.
    pub fn as_bytes(&self) -> (r: &Vec<u8>)
        ensures
            r@ == self@,
            r@.len() == 16,
    {
        proof {
            use_type_invariant(self);
        }
        &self.bytes
    }

    /// True exactly when every byte is zero.
    pub fn is_nil(&self) -> (r: bool)
        ensures
            r <==> self@ == zeros(16),
    {
        proof {
            use_type_invariant(self);
        }
        let mut i: usize = 0;
        while i < 16
            invariant
                self@.len() == 16,
                i <= 16,
                forall|j: int| 0 <= j < i ==> self@[j] == 0u8,
            decreases 16 - i,
        {
            if self.bytes[i] != 0u8 {
                proof {
                    assert(self@[i as int] != zeros(16)[i as int]);
                }
                return false;
            }
            i += 1;
        }
        proof {
            assert(self@ =~= zeros(16));
        }
        true
    }

    /// Copies the UUID.
    pub fn duplicate(&self) -> (r: Uuid)
        ensures
            r@ == self@,
    {
        proof {
            use_type_invariant(self);
        }
        let bytes = crate::bytes::read_bytes_at(&self.bytes, 0, 16);
        proof {
            assert(self@.subrange(0, 16) =~= self@);
        }
        Uuid { bytes }
    }
}

/// The mixed-endian transform: the byte order of each of the groups
/// `[0, 4)`, `[4, 6)` and `[6, 8)` is reversed and the bytes `[8, 16)`
/// are kept as they are.
pub open spec fn mixed_endian(s: Seq<u8>) -> Seq<u8>
    recommends
        s.len() == 16,
{
    seq![s[3], s[2], s[1], s[0], s[5], s[4], s[7], s[6]] + s.subrange(8, 16)
}

/// The mixed-endian transform is an involution: applying it twice gives
/// back the original 16 bytes, the nil UUID included.
pub proof fn lemma_mixed_endian_involution(s: Seq<u8>)
    requires
        s.len() == 16,
    ensures
        mixed_endian(mixed_endian(s)) == s,
{
    assert(mixed_endian(mixed_endian(s)) =~= s);
}

/// The mixed-endian on-disk form of a canonical UUID, as a fresh buffer.
pub fn mixed_endian_bytes(u: &Uuid) -> (r: Vec<u8>)
    ensures
        r@ == mixed_endian(u@),
        r@.len() == 16,
        u@.len() == 16,
{
    proof {
        use_type_invariant(u);
    }
    let mut seg: Vec<u8> = Vec::new();
    seg.push(u.bytes[3]);
    seg.push(u.bytes[2]);
    seg.push(u.bytes[1]);
    seg.push(u.bytes[0]);
    seg.push(u.bytes[5]);
    seg.push(u.bytes[4]);
    seg.push(u.bytes[7]);
    seg.push(u.bytes[6]);
    let mut i: usize = 8;
    while i < 16
        invariant
            u@.len() == 16,
            u.bytes@ == u@,
            8 <= i <= 16,
            seg@.len() == i,
            forall|j: int| 0 <= j < 8 ==> seg@[j] == mixed_endian(u@)[j],
            forall|j: int| 8 <= j < i ==> seg@[j] == u@[j],
        decreases 16 - i,
    {
        seg.push(u.bytes[i]);
        i += 1;
    }
    proof {
        assert(seg@ =~= mixed_endian(u@));
    }
    seg
}

/// Reads the 16-byte mixed-endian UUID field at byte offset `off` and
/// returns the canonical UUID it denotes.
pub fn read_uuid_at(buf: &Vec<u8>, off: usize) -> (r: Uuid)
    requires
        off + 16 <= buf@.len(),
    ensures
        r@ == mixed_endian(buf@.subrange(off as int, off + 16)),
{
    let blen: usize = buf.len();
    let mut bytes: Vec<u8> = Vec::new();
    bytes.push(buf[off + 3]);
    bytes.push(buf[off + 2]);
    bytes.push(buf[off + 1]);
    bytes.push(buf[off]);
    bytes.push(buf[off + 5]);
    bytes.push(buf[off + 4]);
    bytes.push(buf[off + 7]);
    bytes.push(buf[off + 6]);
    let mut i: usize = 8;
    while i < 16
        invariant
            off + 16 <= buf@.len(),
            buf@.len() <= usize::MAX,
            8 <= i <= 16,
            bytes@.len() == i,
            forall|j: int| 0 <= j < 8 ==> bytes@[j] == mixed_endian(
                buf@.subrange(off as int, off + 16),
            )[j],
            forall|j: int| 8 <= j < i ==> bytes@[j] == buf@[off + j],
        decreases 16 - i,
    {
        bytes.push(buf[off + i]);
        i += 1;
    }
    proof {
        assert(bytes@ =~= mixed_endian(buf@.subrange(off as int, off + 16)));
    }
    Uuid { bytes }
}

/// Writes the canonical UUID `u` as the 16-byte mixed-endian field at
/// byte offset `off`.
pub fn write_uuid_at(buf: &mut Vec<u8>, off: usize, u: &Uuid)
    requires
        off + 16 <= old(buf)@.len(),
    ensures
        final(buf)@ == splice(old(buf)@, off as int, mixed_endian(u@)),
{
    let seg = mixed_endian_bytes(u);
    crate::bytes::write_bytes_at(buf, off, &seg);
}

} // verus!
