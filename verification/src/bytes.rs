//! Byte-buffer primitives shared by the GPT and MBR codecs: reading and
//! writing little-endian integer fields at fixed offsets, and patching a
//! region of a buffer in place.
use vstd::prelude::*;

verus! {

/// The sequence `s` with `seg` written over the bytes starting at `off`;
/// all other bytes are unchanged.
pub open spec fn splice(s: Seq<u8>, off: int, seg: Seq<u8>) -> Seq<u8> {
    Seq::new(s.len(), |i: int| if off <= i && i < off + seg.len() { seg[i - off] } else { s[i] })
}

/// A run of `n` zero bytes.
pub open spec fn zeros(n: int) -> Seq<u8> {
    Seq::new(n as nat, |i: int| 0u8)
}

/// The 16-bit value denoted by two little-endian bytes.
pub open spec fn u16_from_le(s: Seq<u8>) -> u16
    recommends
        s.len() == 2,
{
    (s[0] as u16) | (s[1] as u16) << 8
}

/// The two little-endian bytes of a 16-bit value.
pub open spec fn u16_to_le(x: u16) -> Seq<u8> {
    seq![(x & 0xff) as u8, ((x >> 8) & 0xff) as u8]
}

/// The 32-bit value denoted by four little-endian bytes.
pub open spec fn u32_from_le(s: Seq<u8>) -> u32
    recommends
        s.len() == 4,
{
    (s[0] as u32) | (s[1] as u32) << 8 | (s[2] as u32) << 16 | (s[3] as u32) << 24
}

/// The four little-endian bytes of a 32-bit value.
pub open spec fn u32_to_le(x: u32) -> Seq<u8> {
    seq![
        (x & 0xff) as u8,
        ((x >> 8) & 0xff) as u8,
        ((x >> 16) & 0xff) as u8,
        ((x >> 24) & 0xff) as u8,
    ]
}

/// The 64-bit value denoted by eight little-endian bytes.
pub open spec fn u64_from_le(s: Seq<u8>) -> u64
    recommends
        s.len() == 8,
{
    (s[0] as u64) | (s[1] as u64) << 8 | (s[2] as u64) << 16 | (s[3] as u64) << 24 | (
    s[4] as u64) << 32 | (s[5] as u64) << 40 | (s[6] as u64) << 48 | (s[7] as u64) << 56
}

/// The eight little-endian bytes of a 64-bit value.
pub open spec fn u64_to_le(x: u64) -> Seq<u8> {
    seq![
        (x & 0xff) as u8,
        ((x >> 8) & 0xff) as u8,
        ((x >> 16) & 0xff) as u8,
        ((x >> 24) & 0xff) as u8,
        ((x >> 32) & 0xff) as u8,
        ((x >> 40) & 0xff) as u8,
        ((x >> 48) & 0xff) as u8,
        ((x >> 56) & 0xff) as u8,
    ]
}

/// The 16-bit little-endian layout round-trips in both directions.
pub proof fn lemma_u16_le_auto()
    ensures
        forall|x: u16| #[trigger] u16_from_le(u16_to_le(x)) == x,
        forall|s: Seq<u8>| s.len() == 2 ==> #[trigger] u16_to_le(u16_from_le(s)) == s,
{
    assert forall|x: u16| #[trigger] u16_from_le(u16_to_le(x)) == x by {
        assert((x & 0xff) as u8 as u16 | (((x >> 8) & 0xff) as u8 as u16) << 8 == x)
            by (bit_vector);
    }
    assert forall|s: Seq<u8>| s.len() == 2 implies #[trigger] u16_to_le(u16_from_le(s)) == s by {
        let b0 = s[0];
        let b1 = s[1];
        assert({
            let v = (b0 as u16) | (b1 as u16) << 8;
            (v & 0xff) as u8 == b0 && ((v >> 8) & 0xff) as u8 == b1
        }) by (bit_vector);
        assert(u16_to_le(u16_from_le(s)) =~= s);
    }
}

/// The 32-bit little-endian layout round-trips in both directions.
pub proof fn lemma_u32_le_auto()
    ensures
        forall|x: u32| #[trigger] u32_from_le(u32_to_le(x)) == x,
        forall|s: Seq<u8>| s.len() == 4 ==> #[trigger] u32_to_le(u32_from_le(s)) == s,
{
    assert forall|x: u32| #[trigger] u32_from_le(u32_to_le(x)) == x by {
        assert((x & 0xff) as u8 as u32 | (((x >> 8) & 0xff) as u8 as u32) << 8 | (((x >> 16)
            & 0xff) as u8 as u32) << 16 | (((x >> 24) & 0xff) as u8 as u32) << 24 == x)
            by (bit_vector);
    }
    assert forall|s: Seq<u8>| s.len() == 4 implies #[trigger] u32_to_le(u32_from_le(s)) == s by {
        let b0 = s[0];
        let b1 = s[1];
        let b2 = s[2];
        let b3 = s[3];
        assert({
            let v = (b0 as u32) | (b1 as u32) << 8 | (b2 as u32) << 16 | (b3 as u32) << 24;
            (v & 0xff) as u8 == b0 && ((v >> 8) & 0xff) as u8 == b1 && ((v >> 16) & 0xff) as u8
                == b2 && ((v >> 24) & 0xff) as u8 == b3
        }) by (bit_vector);
        assert(u32_to_le(u32_from_le(s)) =~= s);
    }
}

/// The 64-bit little-endian layout round-trips in both directions.
pub proof fn lemma_u64_le_auto()
    ensures
        forall|x: u64| #[trigger] u64_from_le(u64_to_le(x)) == x,
        forall|s: Seq<u8>| s.len() == 8 ==> #[trigger] u64_to_le(u64_from_le(s)) == s,
{
    assert forall|x: u64| #[trigger] u64_from_le(u64_to_le(x)) == x by {
        assert((x & 0xff) as u8 as u64 | (((x >> 8) & 0xff) as u8 as u64) << 8 | (((x >> 16)
            & 0xff) as u8 as u64) << 16 | (((x >> 24) & 0xff) as u8 as u64) << 24 | (((x >> 32)
            & 0xff) as u8 as u64) << 32 | (((x >> 40) & 0xff) as u8 as u64) << 40 | (((x >> 48)
            & 0xff) as u8 as u64) << 48 | (((x >> 56) & 0xff) as u8 as u64) << 56 == x)
            by (bit_vector);
    }
    assert forall|s: Seq<u8>| s.len() == 8 implies #[trigger] u64_to_le(u64_from_le(s)) == s by {
        let b0 = s[0];
        let b1 = s[1];
        let b2 = s[2];
        let b3 = s[3];
        let b4 = s[4];
        let b5 = s[5];
        let b6 = s[6];
        let b7 = s[7];
        assert({
            let v = (b0 as u64) | (b1 as u64) << 8 | (b2 as u64) << 16 | (b3 as u64) << 24 | (
            b4 as u64) << 32 | (b5 as u64) << 40 | (b6 as u64) << 48 | (b7 as u64) << 56;
            (v & 0xff) as u8 == b0 && ((v >> 8) & 0xff) as u8 == b1 && ((v >> 16) & 0xff) as u8
                == b2 && ((v >> 24) & 0xff) as u8 == b3 && ((v >> 32) & 0xff) as u8 == b4 && ((v
                >> 40) & 0xff) as u8 == b5 && ((v >> 48) & 0xff) as u8 == b6 && ((v >> 56)
                & 0xff) as u8 == b7
        }) by (bit_vector);
        assert(u64_to_le(u64_from_le(s)) =~= s);
    }
}

/// The little-endian bytes of zero are zero bytes, and conversely.
pub proof fn lemma_le_of_zero()
    ensures
        u16_to_le(0) == zeros(2),
        u32_to_le(0) == zeros(4),
        u64_to_le(0) == zeros(8),
        u16_from_le(zeros(2)) == 0,
        u32_from_le(zeros(4)) == 0,
        u64_from_le(zeros(8)) == 0,
{
    assert(0u16 & 0xff == 0 && (0u16 >> 8) & 0xff == 0) by (bit_vector);
    assert(0u32 & 0xff == 0 && (0u32 >> 8) & 0xff == 0 && (0u32 >> 16) & 0xff == 0 && (0u32
        >> 24) & 0xff == 0) by (bit_vector);
    assert(0u64 & 0xff == 0 && (0u64 >> 8) & 0xff == 0 && (0u64 >> 16) & 0xff == 0 && (0u64
        >> 24) & 0xff == 0 && (0u64 >> 32) & 0xff == 0 && (0u64 >> 40) & 0xff == 0 && (0u64
        >> 48) & 0xff == 0 && (0u64 >> 56) & 0xff == 0) by (bit_vector);
    assert(u16_to_le(0) =~= zeros(2));
    assert(u32_to_le(0) =~= zeros(4));
    assert(u64_to_le(0) =~= zeros(8));
    assert((0u8 as u16) | (0u8 as u16) << 8 == 0) by (bit_vector);
    assert((0u8 as u32) | (0u8 as u32) << 8 | (0u8 as u32) << 16 | (0u8 as u32) << 24 == 0)
        by (bit_vector);
    assert((0u8 as u64) | (0u8 as u64) << 8 | (0u8 as u64) << 16 | (0u8 as u64) << 24 | (
    0u8 as u64) << 32 | (0u8 as u64) << 40 | (0u8 as u64) << 48 | (0u8 as u64) << 56 == 0)
        by (bit_vector);
}

/// Reading back the spliced region yields the written segment.
pub proof fn lemma_splice_read_back(s: Seq<u8>, off: int, seg: Seq<u8>)
    requires
        0 <= off,
        off + seg.len() <= s.len(),
    ensures
        splice(s, off, seg).subrange(off, off + seg.len() as int) == seg,
{
    assert(splice(s, off, seg).subrange(off, off + seg.len() as int) =~= seg);
}

/// A subrange that lies entirely outside the spliced region is unchanged.
pub proof fn lemma_splice_elsewhere(s: Seq<u8>, off: int, seg: Seq<u8>, a: int, b: int)
    requires
        0 <= a <= b <= s.len(),
        b <= off || off + seg.len() <= a,
    ensures
        splice(s, off, seg).subrange(a, b) == s.subrange(a, b),
{
    assert(splice(s, off, seg).subrange(a, b) =~= s.subrange(a, b));
}

/// Reads the little-endian 16-bit field at byte offset `off`.
pub fn read_u16_at(buf: &Vec<u8>, off: usize) -> (r: u16)
    requires
        off + 2 <= buf@.len(),
    ensures
        r == u16_from_le(buf@.subrange(off as int, off + 2)),
{
    let blen: usize = buf.len();
    let r = buf[off] as u16 | (buf[off + 1] as u16) << 8u16;
    proof {
        let s = buf@.subrange(off as int, off + 2);
        assert(s[0] == buf@[off as int] && s[1] == buf@[off + 1]);
    }
    r
}

/// Reads the little-endian 32-bit field at byte offset `off`.
pub fn read_u32_at(buf: &Vec<u8>, off: usize) -> (r: u32)
    requires
        off + 4 <= buf@.len(),
    ensures
        r == u32_from_le(buf@.subrange(off as int, off + 4)),
{
    let blen: usize = buf.len();
    let r = buf[off] as u32 | (buf[off + 1] as u32) << 8u32 | (buf[off + 2] as u32) << 16u32 | (
    buf[off + 3] as u32) << 24u32;
    proof {
        let s = buf@.subrange(off as int, off + 4);
        assert(s[0] == buf@[off as int] && s[1] == buf@[off + 1] && s[2] == buf@[off + 2] && s[3]
            == buf@[off + 3]);
    }
    r
}

/// Reads the little-endian 64-bit field at byte offset `off`.
pub fn read_u64_at(buf: &Vec<u8>, off: usize) -> (r: u64)
    requires
        off + 8 <= buf@.len(),
    ensures
        r == u64_from_le(buf@.subrange(off as int, off + 8)),
{
    let blen: usize = buf.len();
    let r = buf[off] as u64 | (buf[off + 1] as u64) << 8u64 | (buf[off + 2] as u64) << 16u64 | (
    buf[off + 3] as u64) << 24u64 | (buf[off + 4] as u64) << 32u64 | (buf[off + 5] as u64)
        << 40u64 | (buf[off + 6] as u64) << 48u64 | (buf[off + 7] as u64) << 56u64;
    proof {
        let s = buf@.subrange(off as int, off + 8);
        assert(forall|i: int| 0 <= i < 8 ==> s[i] == buf@[off + i]);
    }
    r
}

/// The two little-endian bytes of `x`, as a fresh buffer.
pub fn u16_le_vec(x: u16) -> (r: Vec<u8>)
    ensures
        r@ == u16_to_le(x),
{
    proof {
        assert(x & 0xff < 256 && (x >> 8) & 0xff < 256) by (bit_vector);
    }
    let mut r: Vec<u8> = Vec::new();
    r.push((x & 0xff) as u8);
    r.push(((x >> 8u16) & 0xff) as u8);
    proof {
        assert(r@ =~= u16_to_le(x));
    }
    r
}

/// The four little-endian bytes of `x`, as a fresh buffer.
pub fn u32_le_vec(x: u32) -> (r: Vec<u8>)
    ensures
        r@ == u32_to_le(x),
{
    proof {
        assert(x & 0xff < 256 && (x >> 8) & 0xff < 256 && (x >> 16) & 0xff < 256 && (x >> 24)
            & 0xff < 256) by (bit_vector);
    }
    let mut r: Vec<u8> = Vec::new();
    r.push((x & 0xff) as u8);
    r.push(((x >> 8u32) & 0xff) as u8);
    r.push(((x >> 16u32) & 0xff) as u8);
    r.push(((x >> 24u32) & 0xff) as u8);
    proof {
        assert(r@ =~= u32_to_le(x));
    }
    r
}

/// The eight little-endian bytes of `x`, as a fresh buffer.
pub fn u64_le_vec(x: u64) -> (r: Vec<u8>)
    ensures
        r@ == u64_to_le(x),
{
    proof {
        assert(x & 0xff < 256 && (x >> 8) & 0xff < 256 && (x >> 16) & 0xff < 256 && (x >> 24)
            & 0xff < 256 && (x >> 32) & 0xff < 256 && (x >> 40) & 0xff < 256 && (x >> 48) & 0xff
            < 256 && (x >> 56) & 0xff < 256) by (bit_vector);
    }
    let mut r: Vec<u8> = Vec::new();
    r.push((x & 0xff) as u8);
    r.push(((x >> 8u64) & 0xff) as u8);
    r.push(((x >> 16u64) & 0xff) as u8);
    r.push(((x >> 24u64) & 0xff) as u8);
    r.push(((x >> 32u64) & 0xff) as u8);
    r.push(((x >> 40u64) & 0xff) as u8);
    r.push(((x >> 48u64) & 0xff) as u8);
    r.push(((x >> 56u64) & 0xff) as u8);
    proof {
        assert(r@ =~= u64_to_le(x));
    }
    r
}

/// Overwrites the bytes at `off..off + src.len()` with `src`.
pub fn write_bytes_at(buf: &mut Vec<u8>, off: usize, src: &Vec<u8>)
    requires
        off + src@.len() <= old(buf)@.len(),
    ensures
        final(buf)@ == splice(old(buf)@, off as int, src@),
{
    let blen: usize = buf.len();
    let mut i: usize = 0;
    while i < src.len()
        invariant
            off + src@.len() <= buf@.len(),
            buf@.len() <= usize::MAX,
            i <= src@.len(),
            buf@.len() == old(buf)@.len(),
            forall|j: int| off <= j < off + i ==> buf@[j] == src@[j - off],
            forall|j: int|
                0 <= j < buf@.len() && !(off <= j < off + i) ==> buf@[j] == old(buf)@[j],
        decreases src@.len() - i,
    {
        let v = src[i];
        buf.set(off + i, v);
        i += 1;
    }
    proof {
        assert(buf@ =~= splice(old(buf)@, off as int, src@));
    }
}

/// Appends `src` to the end of `dst`.
pub fn append_bytes(dst: &mut Vec<u8>, src: &Vec<u8>)
    ensures
        final(dst)@ == old(dst)@ + src@,
{
    let mut i: usize = 0;
    proof {
        assert(old(dst)@ + src@.take(0) =~= old(dst)@);
    }
    while i < src.len()
        invariant
            i <= src@.len(),
            dst@ == old(dst)@ + src@.take(i as int),
        decreases src@.len() - i,
    {
        dst.push(src[i]);
        proof {
            assert(src@.take(i + 1) =~= src@.take(i as int).push(src@[i as int]));
            assert(dst@ =~= old(dst)@ + src@.take(i + 1));
        }
        i += 1;
    }
    proof {
        assert(src@.take(src@.len() as int) =~= src@);
    }
}

/// A fresh buffer of `n` zero bytes.
pub fn zero_vec(n: usize) -> (r: Vec<u8>)
    ensures
        r@ == zeros(n as int),
{
    let mut r: Vec<u8> = Vec::new();
    let mut i: usize = 0;
    while i < n
        invariant
            i <= n,
            r@.len() == i,
            forall|j: int| 0 <= j < i ==> r@[j] == 0u8,
        decreases n - i,
    {
        r.push(0u8);
        i += 1;
    }
    proof {
        assert(r@ =~= zeros(n as int));
    }
    r
}

/// Overwrites the bytes at `off..off + n` with zeros.
pub fn zero_bytes_at(buf: &mut Vec<u8>, off: usize, n: usize)
    requires
        off + n <= old(buf)@.len(),
    ensures
        final(buf)@ == splice(old(buf)@, off as int, zeros(n as int)),
{
    let blen: usize = buf.len();
    let mut i: usize = 0;
    while i < n
        invariant
            off + n <= buf@.len(),
            buf@.len() <= usize::MAX,
            i <= n,
            buf@.len() == old(buf)@.len(),
            forall|j: int| off <= j < off + i ==> buf@[j] == 0u8,
            forall|j: int|
                0 <= j < buf@.len() && !(off <= j < off + i) ==> buf@[j] == old(buf)@[j],
        decreases n - i,
    {
        buf.set(off + i, 0u8);
        i += 1;
    }
    proof {
        assert(buf@ =~= splice(old(buf)@, off as int, zeros(n as int)));
    }
}

/// Copies the bytes at `off..off + n` out into a fresh buffer.
pub fn read_bytes_at(buf: &Vec<u8>, off: usize, n: usize) -> (r: Vec<u8>)
    requires
        off + n <= buf@.len(),
    ensures
        r@ == buf@.subrange(off as int, off + n),
{
    let blen: usize = buf.len();
    let mut r: Vec<u8> = Vec::new();
    let mut i: usize = 0;
    while i < n
        invariant
            off + n <= buf@.len(),
            buf@.len() <= usize::MAX,
            i <= n,
            r@.len() == i,
            forall|j: int| 0 <= j < i ==> r@[j] == buf@[off + j],
        decreases n - i,
    {
        r.push(buf[off + i]);
        i += 1;
    }
    proof {
        assert(r@ =~= buf@.subrange(off as int, off + n));
    }
    r
}

/// Compares two buffers for byte equality.
pub fn bytes_eq(a: &Vec<u8>, b: &Vec<u8>) -> (r: bool)
    ensures
        r <==> a@ == b@,
{
    if a.len() != b.len() {
        proof {
            assert(a@.len() != b@.len());
        }
        return false;
    }
    let n = a.len();
    let mut i: usize = 0;
    while i < n
        invariant
            n == a@.len() == b@.len(),
            i <= n,
            forall|j: int| 0 <= j < i ==> a@[j] == b@[j],
        decreases n - i,
    {
        if a[i] != b[i] {
            return false;
        }
        i += 1;
    }
    proof {
        assert(a@ =~= b@);
    }
    true
}

/// Writes `x` as a little-endian 16-bit field at byte offset `off`.
pub fn write_u16_at(buf: &mut Vec<u8>, off: usize, x: u16)
    requires
        off + 2 <= old(buf)@.len(),
    ensures
        final(buf)@ == splice(old(buf)@, off as int, u16_to_le(x)),
{
    let bs = u16_le_vec(x);
    write_bytes_at(buf, off, &bs);
}

/// Writes `x` as a little-endian 32-bit field at byte offset `off`.
pub fn write_u32_at(buf: &mut Vec<u8>, off: usize, x: u32)
    requires
        off + 4 <= old(buf)@.len(),
    ensures
        final(buf)@ == splice(old(buf)@, off as int, u32_to_le(x)),
{
    let bs = u32_le_vec(x);
    write_bytes_at(buf, off, &bs);
}

/// Writes `x` as a little-endian 64-bit field at byte offset `off`.
pub fn write_u64_at(buf: &mut Vec<u8>, off: usize, x: u64)
    requires
        off + 8 <= old(buf)@.len(),
    ensures
        final(buf)@ == splice(old(buf)@, off as int, u64_to_le(x)),
{
    let bs = u64_le_vec(x);
    write_bytes_at(buf, off, &bs);
}

} // verus!
