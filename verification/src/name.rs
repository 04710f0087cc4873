//! The fixed-width partition name codec.
//!
//! A GPT partition name is stored as exactly 36 UTF-16 little-endian code
//! units (72 bytes). On write the name is encoded to UTF-16, truncated to
//! the first 36 code units and zero-padded; on read the 36 units are
//! decoded as UTF-16 and the result is cut at the first embedded NUL
//! character, so that trailing padding never becomes part of the name.
use vstd::prelude::*;
use vstd::utf8::{is_scalar, char_is_scalar, char_u32_cast};
use crate::bytes::{splice, read_u16_at, write_u16_at, u16_to_le, u16_from_le, lemma_u16_le_auto};

verus! {

/// The UTF-16 code units that encode a single character: one unit for a
/// value below `0x10000`, otherwise a high/low surrogate pair.
pub open spec fn utf16_char(c: char) -> Seq<u16> {
    let v = c as u32;
    if v < 0x10000 {
        seq![v as u16]
    } else {
        seq![
            (0xD800 + (v - 0x10000) / 0x400) as u16,
            (0xDC00 + (v - 0x10000) % 0x400) as u16,
        ]
    }
}

/// The UTF-16 encoding of a character sequence.
pub open spec fn utf16(s: Seq<char>) -> Seq<u16>
    decreases s.len(),
{
    if s.len() == 0 {
        Seq::empty()
    } else {
        utf16_char(s[0]) + utf16(s.skip(1))
    }
}

/// UTF-16 decoding of a unit sequence: `None` exactly when the units are
/// not valid UTF-16 (an unpaired or reversed surrogate).
pub open spec fn utf16_decode(u: Seq<u16>) -> Option<Seq<char>>
    decreases u.len(),
{
    if u.len() == 0 {
        Some(Seq::empty())
    } else if u[0] < 0xD800 || u[0] >= 0xE000 {
        match utf16_decode(u.skip(1)) {
            Some(cs) => Some(seq![(u[0] as u32) as char] + cs),
            None => None,
        }
    } else if u[0] < 0xDC00 && u.len() >= 2 && 0xDC00 <= u[1] && u[1] < 0xE000 {
        match utf16_decode(u.skip(2)) {
            Some(cs) => Some(
                seq![((0x10000 + (u[0] - 0xD800) * 0x400 + (u[1] - 0xDC00)) as u32) as char] + cs,
            ),
            None => None,
        }
    } else {
        None
    }
}

/// The index of the first NUL character, or the length if there is none.
pub open spec fn first_nul(cs: Seq<char>) -> int
    decreases cs.len(),
{
    if cs.len() == 0 {
        0
    } else if cs[0] == '\0' {
        0
    } else {
        1 + first_nul(cs.skip(1))
    }
}

/// The prefix of a character sequence before its first NUL character.
pub open spec fn nul_truncate(cs: Seq<char>) -> Seq<char> {
    cs.take(first_nul(cs))
}

/// The name encoded to UTF-16, truncated to the first 36 code units and
/// zero-padded to exactly 36.
pub open spec fn name_units(s: Seq<char>) -> Seq<u16> {
    Seq::new(36, |i: int| if i < utf16(s).len() { utf16(s)[i] } else { 0u16 })
}

/// A sequence of 16-bit units laid out as little-endian byte pairs.
pub open spec fn units_le_bytes(us: Seq<u16>) -> Seq<u8>
    decreases us.len(),
{
    if us.len() == 0 {
        Seq::empty()
    } else {
        u16_to_le(us[0]) + units_le_bytes(us.skip(1))
    }
}

/// The 16-bit units denoted by a byte sequence of little-endian pairs.
pub open spec fn units_of_field(f: Seq<u8>) -> Seq<u16> {
    Seq::new((f.len() / 2) as nat, |i: int| u16_from_le(f.subrange(2 * i, 2 * i + 2)))
}

/// The 72-byte on-disk form of a name.
pub open spec fn name_field_bytes(s: Seq<char>) -> Seq<u8> {
    units_le_bytes(name_units(s))
}

/// The name denoted by a 72-byte field: the units decoded as UTF-16 and
/// cut at the first NUL; `None` when the units are not valid UTF-16.
pub open spec fn decode_name_field(f: Seq<u8>) -> Option<Seq<char>> {
    match utf16_decode(units_of_field(f)) {
        Some(cs) => Some(nul_truncate(cs)),
        None => None,
    }
}

/// Basic bounds on `first_nul`: it points at the first NUL character, or
/// past the end when there is none.
pub proof fn lemma_first_nul(cs: Seq<char>)
    ensures
        0 <= first_nul(cs) <= cs.len(),
        forall|j: int| 0 <= j < first_nul(cs) ==> cs[j] != '\0',
        first_nul(cs) < cs.len() ==> cs[first_nul(cs)] == '\0',
    decreases cs.len(),
{
    if cs.len() == 0 {
    } else if cs[0] == '\0' {
    } else {
        lemma_first_nul(cs.skip(1));
        assert forall|j: int| 0 <= j < first_nul(cs) implies cs[j] != '\0' by {
            if j > 0 {
                assert(cs.skip(1)[j - 1] == cs[j]);
            }
        }
        if first_nul(cs) < cs.len() {
            assert(cs.skip(1)[first_nul(cs) - 1] == cs[first_nul(cs)]);
        }
    }
}

/// In a concatenation whose first part holds no NUL, the first NUL lies
/// in the second part.
pub proof fn lemma_first_nul_concat(cs: Seq<char>, t: Seq<char>)
    requires
        forall|j: int| 0 <= j < cs.len() ==> cs[j] != '\0',
    ensures
        first_nul(cs + t) == cs.len() + first_nul(t),
    decreases cs.len(),
{
    if cs.len() == 0 {
        assert(cs + t =~= t);
    } else {
        assert((cs + t)[0] == cs[0]);
        assert((cs + t).skip(1) =~= cs.skip(1) + t);
        assert(forall|j: int| 0 <= j < cs.skip(1).len() ==> cs.skip(1)[j] == cs[j + 1]);
        lemma_first_nul_concat(cs.skip(1), t);
    }
}

/// Appending one character extends the UTF-16 encoding by the units of
/// that character.
pub proof fn lemma_utf16_push(s: Seq<char>, c: char)
    ensures
        utf16(s.push(c)) == utf16(s) + utf16_char(c),
    decreases s.len(),
{
    if s.len() == 0 {
        assert(s.push(c)[0] == c);
        assert(s.push(c).skip(1) =~= Seq::<char>::empty());
        assert(utf16(Seq::<char>::empty()) == Seq::<u16>::empty());
        assert(utf16(s.push(c)) == utf16_char(c) + utf16(Seq::<char>::empty()));
        assert(utf16(s.push(c)) =~= utf16(s) + utf16_char(c));
    } else {
        assert(s.push(c)[0] == s[0]);
        assert(s.push(c).skip(1) =~= s.skip(1).push(c));
        lemma_utf16_push(s.skip(1), c);
        assert(utf16(s.push(c)) =~= utf16(s) + utf16_char(c));
    }
}

/// Encodes a string to its full sequence of UTF-16 code units.
pub fn encode_utf16_units(name: &str) -> (r: Vec<u16>)
    ensures
        r@ == utf16(name@),
{
    let n = name.unicode_len();
    let mut units: Vec<u16> = Vec::new();
    let mut i: usize = 0;
    proof {
        assert(name@.take(0) =~= Seq::<char>::empty());
    }
    while i < n
        invariant
            n == name@.len(),
            i <= n,
            units@ == utf16(name@.take(i as int)),
        decreases n - i,
    {
        let c = name.get_char(i);
        proof {
            char_is_scalar(c);
        }
        let v = c as u32;
        if v < 0x10000 {
            units.push(v as u16);
            proof {
                assert(utf16_char(c) =~= seq![v as u16]);
            }
        } else {
            let w = v - 0x10000;
            units.push((0xD800 + w / 0x400) as u16);
            units.push((0xDC00 + w % 0x400) as u16);
            proof {
                assert(utf16_char(c) =~= seq![
                    (0xD800 + (v - 0x10000) / 0x400) as u16,
                    (0xDC00 + (v - 0x10000) % 0x400) as u16,
                ]);
            }
        }
        proof {
            lemma_utf16_push(name@.take(i as int), c);
            assert(name@.take(i + 1) =~= name@.take(i as int).push(name@[i as int]));
            assert(units@ =~= utf16(name@.take(i + 1)));
        }
        i += 1;
    }
    proof {
        assert(name@.take(n as int) =~= name@);
    }
    units
}

/// Relies on char::from_u32: every Unicode scalar value (a code point
/// outside the surrogate range) converts to the char with that value.
#[verifier::external_body]
fn char_from_u32(v: u32) -> (c: char)
    requires
        is_scalar(v),
    ensures
        c as u32 == v,
{
    char::from_u32(v).unwrap()
}

/// Relies on String's FromIterator over char: collecting characters
/// yields the string of exactly those characters in order.
#[verifier::external_body]
pub(crate) fn chars_to_string(cs: &Vec<char>) -> (r: String)
    ensures
        r@ == cs@,
{
    cs.iter().collect()
}

/// Decodes a sequence of UTF-16 code units; fails exactly when the units
/// are not valid UTF-16.
pub fn decode_utf16_units(units: &Vec<u16>) -> (r: Option<Vec<char>>)
    ensures
        match r {
            Some(cs) => utf16_decode(units@) == Some(cs@),
            None => utf16_decode(units@) is None,
        },
{
    let n = units.len();
    let mut chars: Vec<char> = Vec::new();
    let mut i: usize = 0;
    proof {
        assert(units@.skip(0) =~= units@);
        if let Some(t) = utf16_decode(units@) {
            assert(Seq::<char>::empty() + t =~= t);
        }
    }
    while i < n
        invariant
            n == units@.len(),
            i <= n,
            utf16_decode(units@) == match utf16_decode(units@.skip(i as int)) {
                Some(t) => Some(chars@ + t),
                None => None::<Seq<char>>,
            },
        decreases n - i,
    {
        let ghost s = units@.skip(i as int);
        proof {
            assert(s[0] == units@[i as int]);
        }
        let u = units[i];
        if u < 0xD800 || u >= 0xE000 {
            proof {
                assert(is_scalar(u as u32));
            }
            let c = char_from_u32(u as u32);
            let ghost old_cs = chars@;
            chars.push(c);
            proof {
                char_u32_cast(c, u as u32);
                assert(s.skip(1) =~= units@.skip(i + 1));
                assert(match utf16_decode(s.skip(1)) {
                    Some(t) => utf16_decode(s) == Some(seq![c] + t),
                    None => utf16_decode(s) is None,
                });
                if let Some(t) = utf16_decode(units@.skip(i + 1)) {
                    assert(old_cs + (seq![c] + t) =~= chars@ + t);
                }
            }
            i += 1;
        } else if u < 0xDC00 {
            if i + 1 < n {
                let w = units[i + 1];
                if 0xDC00 <= w && w < 0xE000 {
                    proof {
                        assert(s.len() >= 2);
                        assert(s[1] == units@[i + 1]);
                    }
                    let v = 0x10000u32 + ((u - 0xD800) as u32) * 0x400u32 + ((w - 0xDC00) as u32);
                    proof {
                        assert(v <= 0x10FFFF);
                        assert(is_scalar(v));
                    }
                    let c = char_from_u32(v);
                    let ghost old_cs = chars@;
                    chars.push(c);
                    proof {
                        char_u32_cast(c, v);
                        assert(s.skip(2) =~= units@.skip(i + 2));
                        assert(match utf16_decode(s.skip(2)) {
                            Some(t) => utf16_decode(s) == Some(seq![c] + t),
                            None => utf16_decode(s) is None,
                        });
                        if let Some(t) = utf16_decode(units@.skip(i + 2)) {
                            assert(old_cs + (seq![c] + t) =~= chars@ + t);
                        }
                    }
                    i += 2;
                } else {
                    proof {
                        assert(utf16_decode(s) is None);
                    }
                    return None;
                }
            } else {
                proof {
                    assert(utf16_decode(s) is None);
                }
                return None;
            }
        } else {
            proof {
                assert(utf16_decode(s) is None);
            }
            return None;
        }
    }
    proof {
        assert(units@.skip(n as int) =~= Seq::<u16>::empty());
        assert(utf16_decode(Seq::<u16>::empty()) == Some(Seq::<char>::empty()));
        assert(chars@ + Seq::<char>::empty() =~= chars@);
    }
    Some(chars)
}

/// Cuts a character sequence at its first NUL.
pub fn truncate_at_nul(cs: &Vec<char>) -> (r: Vec<char>)
    ensures
        r@ == nul_truncate(cs@),
{
    let n = cs.len();
    let mut r: Vec<char> = Vec::new();
    let mut i: usize = 0;
    while i < n
        invariant
            n == cs@.len(),
            i <= n,
            r@ == cs@.take(i as int),
            forall|j: int| 0 <= j < i ==> cs@[j] != '\0',
        decreases n - i,
    {
        let c = cs[i];
        if c == '\0' {
            proof {
                lemma_first_nul_is(cs@, i as int);
            }
            return r;
        }
        r.push(c);
        proof {
            assert(r@ =~= cs@.take(i + 1));
        }
        i += 1;
    }
    proof {
        lemma_first_nul_is(cs@, n as int);
    }
    r
}

/// `first_nul` is the unique index below which no NUL occurs and at
/// which one does (or the length, if none occurs at all).
pub proof fn lemma_first_nul_is(cs: Seq<char>, k: int)
    requires
        0 <= k <= cs.len(),
        forall|j: int| 0 <= j < k ==> cs[j] != '\0',
        k < cs.len() ==> cs[k] == '\0',
    ensures
        first_nul(cs) == k,
{
    lemma_first_nul(cs);
    if first_nul(cs) < k {
        assert(cs[first_nul(cs)] == '\0');
    }
    if first_nul(cs) > k {
        assert(cs[k] != '\0');
    }
}

/// The pointwise facts behind `nul_truncate`: the result is the NUL-free
/// prefix of its input and stops exactly at the first NUL.
pub proof fn lemma_nul_truncate(cs: Seq<char>)
    ensures
        nul_truncate(cs).len() <= cs.len(),
        forall|j: int|
            0 <= j < nul_truncate(cs).len() ==> nul_truncate(cs)[j] == cs[j] && cs[j] != '\0',
        nul_truncate(cs).len() < cs.len() ==> cs[nul_truncate(cs).len() as int] == '\0',
{
    lemma_first_nul(cs);
}

/// Appending one unit extends the byte layout by that unit's two bytes.
pub proof fn lemma_units_le_bytes_push(us: Seq<u16>, u: u16)
    ensures
        units_le_bytes(us.push(u)) == units_le_bytes(us) + u16_to_le(u),
    decreases us.len(),
{
    if us.len() == 0 {
        assert(us.push(u)[0] == u);
        assert(us.push(u).skip(1) =~= Seq::<u16>::empty());
        assert(units_le_bytes(Seq::<u16>::empty()) == Seq::<u8>::empty());
        assert(units_le_bytes(us.push(u)) =~= units_le_bytes(us) + u16_to_le(u));
    } else {
        assert(us.push(u)[0] == us[0]);
        assert(us.push(u).skip(1) =~= us.skip(1).push(u));
        lemma_units_le_bytes_push(us.skip(1), u);
        assert(units_le_bytes(us.push(u)) =~= units_le_bytes(us) + u16_to_le(u));
    }
}

/// The byte layout of `n` units is `2 n` bytes long.
pub proof fn lemma_units_le_bytes_len(us: Seq<u16>)
    ensures
        units_le_bytes(us).len() == 2 * us.len(),
    decreases us.len(),
{
    lemma_u16_le_auto();
    if us.len() > 0 {
        lemma_units_le_bytes_len(us.skip(1));
    }
}

/// Reading 16-bit units back from their little-endian byte layout yields
/// the original units.
pub proof fn lemma_units_round_trip(us: Seq<u16>)
    ensures
        units_of_field(units_le_bytes(us)) == us,
    decreases us.len(),
{
    lemma_u16_le_auto();
    lemma_units_le_bytes_len(us);
    let f = units_le_bytes(us);
    if us.len() == 0 {
        assert(units_of_field(f) =~= us);
    } else {
        lemma_units_round_trip(us.skip(1));
        lemma_units_le_bytes_len(us.skip(1));
        let rest = units_le_bytes(us.skip(1));
        assert(f == u16_to_le(us[0]) + rest);
        assert forall|i: int| 0 <= i < us.len() implies units_of_field(f)[i] == us[i] by {
            if i == 0 {
                assert(f.subrange(0, 2) =~= u16_to_le(us[0]));
            } else {
                assert(f.subrange(2 * i, 2 * i + 2) =~= rest.subrange(
                    2 * (i - 1),
                    2 * (i - 1) + 2,
                ));
                assert(units_of_field(rest)[i - 1] == us.skip(1)[i - 1]);
            }
        }
        assert(units_of_field(f) =~= us);
    }
}

/// `n` zero units.
pub open spec fn pad_units(n: int) -> Seq<u16> {
    Seq::new(n as nat, |i: int| 0u16)
}

/// `n` NUL characters.
pub open spec fn nul_chars(n: int) -> Seq<char> {
    Seq::new(n as nat, |i: int| '\0')
}

/// Zero units decode to NUL characters.
pub proof fn lemma_pad_units_decode(n: int)
    requires
        n >= 0,
    ensures
        utf16_decode(pad_units(n)) == Some(nul_chars(n)),
    decreases n,
{
    if n == 0 {
        assert(pad_units(0) =~= Seq::<u16>::empty());
        assert(nul_chars(0) =~= Seq::<char>::empty());
    } else {
        lemma_pad_units_decode(n - 1);
        let u = pad_units(n);
        assert(u[0] == 0u16);
        assert(u.skip(1) =~= pad_units(n - 1));
        char_u32_cast('\0', 0u32);
        assert(seq![(u[0] as u32) as char] + nul_chars(n - 1) =~= nul_chars(n));
    }
}

/// Decoding a buffer that starts with the encoding of `s` yields `s`
/// followed by whatever the remaining units decode to.
pub proof fn lemma_decode_encode_prefix(s: Seq<char>, t: Seq<u16>)
    ensures
        utf16_decode(utf16(s) + t) == match utf16_decode(t) {
            Some(cs) => Some(s + cs),
            None => None::<Seq<char>>,
        },
    decreases s.len(),
{
    if s.len() == 0 {
        assert(utf16(s) + t =~= t);
        if let Some(cs) = utf16_decode(t) {
            assert(s + cs =~= cs);
        }
    } else {
        let c = s[0];
        char_is_scalar(c);
        char_u32_cast(c, c as u32);
        let v = c as u32;
        let rest = utf16(s.skip(1)) + t;
        let u = utf16(s) + t;
        assert(u =~= utf16_char(c) + rest);
        lemma_decode_encode_prefix(s.skip(1), t);
        if v < 0x10000 {
            assert(u[0] == v as u16);
            assert(u.skip(1) =~= rest);
            if let Some(cs) = utf16_decode(t) {
                assert(seq![c] + (s.skip(1) + cs) =~= s + cs);
            }
        } else {
            let hi = (0xD800 + (v - 0x10000) / 0x400) as u16;
            let lo = (0xDC00 + (v - 0x10000) % 0x400) as u16;
            assert((v - 0x10000) / 0x400 <= 0x3FF && 0 <= (v - 0x10000) / 0x400
                && 0 <= (v - 0x10000) % 0x400 < 0x400) by {
                vstd::arithmetic::div_mod::lemma_div_is_ordered_by_denominator(
                    v - 0x10000,
                    0x400,
                    0x400,
                );
                assert((v - 0x10000) / 0x400 <= 0x3FF) by (nonlinear_arith)
                    requires
                        0 <= v - 0x10000 <= 0xFFFFF,
                ;
            }
            assert(u[0] == hi && u[1] == lo);
            assert(u.skip(2) =~= rest);
            assert(0x10000 + (hi - 0xD800) * 0x400 + (lo - 0xDC00) == v) by {
                vstd::arithmetic::div_mod::lemma_fundamental_div_mod(v - 0x10000, 0x400);
            }
            if let Some(cs) = utf16_decode(t) {
                assert(seq![c] + (s.skip(1) + cs) =~= s + cs);
            }
        }
    }
}

/// The fixed-width field keeps the first 36 code units of the encoding
/// unchanged: a longer encoding is cut after unit 36, a shorter one is
/// zero-padded.
pub proof fn lemma_name_units_truncation(s: Seq<char>)
    ensures
        utf16(s).len() >= 36 ==> name_units(s) == utf16(s).take(36),
        utf16(s).len() < 36 ==> name_units(s) == utf16(s) + pad_units(36 - utf16(s).len()),
{
    if utf16(s).len() >= 36 {
        assert(name_units(s) =~= utf16(s).take(36));
    } else {
        assert(name_units(s) =~= utf16(s) + pad_units(36 - utf16(s).len()));
    }
}

/// A name whose encoding fits in the field and which holds no NUL
/// character is recovered exactly from its on-disk form.
pub proof fn lemma_name_round_trip(s: Seq<char>)
    requires
        utf16(s).len() <= 36,
        forall|j: int| 0 <= j < s.len() ==> s[j] != '\0',
    ensures
        decode_name_field(name_field_bytes(s)) == Some(s),
{
    let k = 36 - utf16(s).len();
    lemma_name_units_truncation(s);
    if utf16(s).len() == 36 {
        assert(name_units(s) =~= utf16(s) + pad_units(0));
    }
    lemma_units_round_trip(name_units(s));
    lemma_pad_units_decode(k);
    lemma_decode_encode_prefix(s, pad_units(k));
    let full = s + nul_chars(k);
    assert(utf16_decode(name_units(s)) == Some(full));
    lemma_first_nul_concat(s, nul_chars(k));
    if k > 0 {
        assert(nul_chars(k)[0] == '\0');
    }
    assert(first_nul(nul_chars(k)) == 0);
    assert(nul_truncate(full) =~= s);
}

/// Reads the 36 code units of the name field at byte offset `off`.
pub fn read_name_units(buf: &Vec<u8>, off: usize) -> (r: Vec<u16>)
    requires
        off + 72 <= buf@.len(),
    ensures
        r@ == units_of_field(buf@.subrange(off as int, off + 72)),
{
    let blen: usize = buf.len();
    let mut r: Vec<u16> = Vec::new();
    let mut i: usize = 0;
    while i < 36
        invariant
            off + 72 <= buf@.len(),
            buf@.len() <= usize::MAX,
            i <= 36,
            r@.len() == i,
            forall|j: int|
                0 <= j < i ==> r@[j] == u16_from_le(
                    buf@.subrange(off + 2 * j, off + 2 * j + 2),
                ),
        decreases 36 - i,
    {
        let u = read_u16_at(buf, off + 2 * i);
        r.push(u);
        i += 1;
    }
    proof {
        let f = buf@.subrange(off as int, off + 72);
        assert forall|j: int| 0 <= j < 36 implies r@[j] == units_of_field(f)[j] by {
            assert(f.subrange(2 * j, 2 * j + 2) =~= buf@.subrange(off + 2 * j, off + 2 * j + 2));
        }
        assert(r@ =~= units_of_field(f));
    }
    r
}

/// Reads and decodes the name field at byte offset `off`; fails exactly
/// when the stored units are not valid UTF-16.
pub fn read_name_field(buf: &Vec<u8>, off: usize) -> (r: Option<String>)
    requires
        off + 72 <= buf@.len(),
    ensures
        match r {
            Some(name) => decode_name_field(buf@.subrange(off as int, off + 72)) == Some(name@),
            None => decode_name_field(buf@.subrange(off as int, off + 72)) is None,
        },
{
    let units = read_name_units(buf, off);
    match decode_utf16_units(&units) {
        Some(cs) => {
            let cut = truncate_at_nul(&cs);
            Some(chars_to_string(&cut))
        },
        None => None,
    }
}

/// The 72-byte on-disk form of `name`, as a fresh buffer.
pub fn name_field_vec(name: &str) -> (r: Vec<u8>)
    ensures
        r@ == name_field_bytes(name@),
        r@.len() == 72,
{
    let mut buf = crate::bytes::zero_vec(72);
    write_name_field(&mut buf, 0, name);
    proof {
        lemma_units_le_bytes_len(name_units(name@));
        assert(buf@ =~= name_field_bytes(name@));
    }
    buf
}

/// Encodes `name` into the 72-byte field at byte offset `off`.
pub fn write_name_field(buf: &mut Vec<u8>, off: usize, name: &str)
    requires
        off + 72 <= old(buf)@.len(),
    ensures
        final(buf)@ == splice(old(buf)@, off as int, name_field_bytes(name@)),
{
    let blen: usize = buf.len();
    let all = encode_utf16_units(name);
    let mut padded: Vec<u16> = Vec::new();
    let mut i: usize = 0;
    while i < 36
        invariant
            all@ == utf16(name@),
            i <= 36,
            padded@.len() == i,
            forall|j: int| 0 <= j < i ==> padded@[j] == name_units(name@)[j],
        decreases 36 - i,
    {
        if i < all.len() {
            padded.push(all[i]);
        } else {
            padded.push(0u16);
        }
        i += 1;
    }
    proof {
        assert(padded@ =~= name_units(name@));
        assert(buf@.subrange(off as int, off as int) =~= units_le_bytes(padded@.take(0)));
    }
    let mut k: usize = 0;
    while k < 36
        invariant
            off + 72 <= buf@.len(),
            buf@.len() == old(buf)@.len(),
            buf@.len() <= usize::MAX,
            k <= 36,
            padded@.len() == 36,
            padded@ == name_units(name@),
            buf@.subrange(off as int, off + 2 * k) == units_le_bytes(padded@.take(k as int)),
            forall|j: int|
                0 <= j < buf@.len() && !(off <= j < off + 2 * k) ==> buf@[j] == old(buf)@[j],
        decreases 36 - k,
    {
        let ghost prev = buf@;
        write_u16_at(buf, off + 2 * k, padded[k]);
        proof {
            lemma_u16_le_auto();
            lemma_units_le_bytes_push(padded@.take(k as int), padded@[k as int]);
            lemma_units_le_bytes_len(padded@.take(k as int));
            assert(padded@.take(k + 1) =~= padded@.take(k as int).push(padded@[k as int]));
            assert(buf@.subrange(off as int, off + 2 * (k + 1)) =~= units_le_bytes(
                padded@.take(k + 1),
            ));
        }
        k += 1;
    }
    proof {
        lemma_units_le_bytes_len(padded@);
        assert(padded@.take(36) =~= padded@);
        assert(buf@ =~= splice(old(buf)@, off as int, name_field_bytes(name@)));
    }
}

} // verus!
