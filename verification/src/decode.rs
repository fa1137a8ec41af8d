//! Fixed-width integers stored in little- or big-endian byte order.
use vstd::prelude::*;

verus! {

/// Value of the four bytes at `i`, least significant byte first.
pub open spec fn u32_le_at(s: Seq<u8>, i: int) -> int {
    s[i] + 256 * s[i + 1] + 65536 * s[i + 2] + 16777216 * s[i + 3]
}

/// Value of the four bytes at `i`, most significant byte first.
pub open spec fn u32_be_at(s: Seq<u8>, i: int) -> int {
    s[i + 3] + 256 * s[i + 2] + 65536 * s[i + 1] + 16777216 * s[i]
}

/// Value of the four bytes at `i` in the given byte order.
pub open spec fn u32_at(s: Seq<u8>, i: int, little_endian: bool) -> int {
    if little_endian {
        u32_le_at(s, i)
    } else {
        u32_be_at(s, i)
    }
}

/// Value of the eight bytes at `i` in the given byte order.
pub open spec fn u64_at(s: Seq<u8>, i: int, little_endian: bool) -> int {
    if little_endian {
        u32_le_at(s, i) + 4294967296 * u32_le_at(s, i + 4)
    } else {
        u32_be_at(s, i + 4) + 4294967296 * u32_be_at(s, i)
    }
}

/// The two's-complement reading of a 32-bit pattern.
pub open spec fn signed32(u: int) -> int {
    if u < 0x8000_0000 {
        u
    } else {
        u - 0x1_0000_0000
    }
}

/// The signed 32-bit integer stored at `i` in the given byte order.
pub open spec fn i32_at(s: Seq<u8>, i: int, little_endian: bool) -> int {
    signed32(u32_at(s, i, little_endian))
}

/// Reads the unsigned 32-bit integer at `at`.
pub fn read_u32(buf: &[u8], at: usize, little_endian: bool) -> (r: u32)
    requires
        at + 4 <= buf@.len(),
    ensures
        r == u32_at(buf@, at as int, little_endian),
{
    let b0 = buf[at] as u32;
    let b1 = buf[at + 1] as u32;
    let b2 = buf[at + 2] as u32;
    let b3 = buf[at + 3] as u32;
    if little_endian {
        b0 + 256 * b1 + 65536 * b2 + 16777216 * b3
    } else {
        b3 + 256 * b2 + 65536 * b1 + 16777216 * b0
    }
}

/// Reads the signed (two's-complement) 32-bit integer at `at`.
pub fn read_i32(buf: &[u8], at: usize, little_endian: bool) -> (r: i32)
    requires
        at + 4 <= buf@.len(),
    ensures
        r == i32_at(buf@, at as int, little_endian),
{
    let u = read_u32(buf, at, little_endian);
    if u < 0x8000_0000 {
        u as i32
    } else {
        let low: i32 = (u - 0x8000_0000) as i32;
        low + i32::MIN
    }
}

/// Reads the unsigned 64-bit integer at `at`.
pub fn read_u64(buf: &[u8], at: usize, little_endian: bool) -> (r: u64)
    requires
        at + 8 <= buf.len(),
    ensures
        r == u64_at(buf@, at as int, little_endian),
{
    if little_endian {
        let lo = read_u32(buf, at, true) as u64;
        let hi = read_u32(buf, at + 4, true) as u64;
        lo + 4294967296 * hi
    } else {
        let hi = read_u32(buf, at, false) as u64;
        let lo = read_u32(buf, at + 4, false) as u64;
        lo + 4294967296 * hi
    }
}

/// A four-byte field written in one byte order reads, in the other order, the
/// same value as the field with its bytes reversed.
pub proof fn lemma_byte_order_mirror_u32(a: Seq<u8>, i: int, b: Seq<u8>, j: int)
    requires
        0 <= i,
        i + 4 <= a.len(),
        0 <= j,
        j + 4 <= b.len(),
        forall|k: int| 0 <= k < 4 ==> #[trigger] b[j + k] == a[i + 3 - k],
    ensures
        u32_at(b, j, false) == u32_at(a, i, true),
        u32_at(b, j, true) == u32_at(a, i, false),
{
    assert(b[j + 0] == a[i + 3 - 0]);
    assert(b[j + 1] == a[i + 3 - 1]);
    assert(b[j + 2] == a[i + 3 - 2]);
    assert(b[j + 3] == a[i + 3 - 3]);
}

/// An eight-byte field written in one byte order reads, in the other order,
/// the same value as the field with its bytes reversed.
pub proof fn lemma_byte_order_mirror_u64(a: Seq<u8>, i: int, b: Seq<u8>, j: int)
    requires
        0 <= i,
        i + 8 <= a.len(),
        0 <= j,
        j + 8 <= b.len(),
        forall|k: int| 0 <= k < 8 ==> #[trigger] b[j + k] == a[i + 7 - k],
    ensures
        u64_at(b, j, false) == u64_at(a, i, true),
        u64_at(b, j, true) == u64_at(a, i, false),
{
    assert(b[j + 0] == a[i + 7 - 0]);
    assert(b[j + 1] == a[i + 7 - 1]);
    assert(b[j + 2] == a[i + 7 - 2]);
    assert(b[j + 3] == a[i + 7 - 3]);
    assert(b[j + 4] == a[i + 7 - 4]);
    assert(b[j + 5] == a[i + 7 - 5]);
    assert(b[j + 6] == a[i + 7 - 6]);
    assert(b[j + 7] == a[i + 7 - 7]);
}

/// The four bytes of `v`, least significant first.
pub open spec fn le_bytes32(v: u32) -> Seq<u8> {
    seq![(v & 0xff) as u8, ((v >> 8) & 0xff) as u8, ((v >> 16) & 0xff) as u8, ((v >> 24) & 0xff) as u8]
}

/// The four bytes of `v`, most significant first.
pub open spec fn be_bytes32(v: u32) -> Seq<u8> {
    seq![((v >> 24) & 0xff) as u8, ((v >> 16) & 0xff) as u8, ((v >> 8) & 0xff) as u8, (v & 0xff) as u8]
}

/// The eight bytes of `v`, least significant first.
pub open spec fn le_bytes64(v: u64) -> Seq<u8> {
    seq![
        (v & 0xff) as u8,
        ((v >> 8) & 0xff) as u8,
        ((v >> 16) & 0xff) as u8,
        ((v >> 24) & 0xff) as u8,
        ((v >> 32) & 0xff) as u8,
        ((v >> 40) & 0xff) as u8,
        ((v >> 48) & 0xff) as u8,
        ((v >> 56) & 0xff) as u8,
    ]
}

/// The eight bytes of `v`, most significant first.
pub open spec fn be_bytes64(v: u64) -> Seq<u8> {
    seq![
        ((v >> 56) & 0xff) as u8,
        ((v >> 48) & 0xff) as u8,
        ((v >> 40) & 0xff) as u8,
        ((v >> 32) & 0xff) as u8,
        ((v >> 24) & 0xff) as u8,
        ((v >> 16) & 0xff) as u8,
        ((v >> 8) & 0xff) as u8,
        (v & 0xff) as u8,
    ]
}

/// Every 32-bit value written in either byte order reads back unchanged.
pub proof fn lemma_u32_round_trip(v: u32)
    ensures
        u32_at(le_bytes32(v), 0, true) == v,
        u32_at(be_bytes32(v), 0, false) == v,
{
    let b0 = v & 0xff;
    let b1 = (v >> 8) & 0xff;
    let b2 = (v >> 16) & 0xff;
    let b3 = (v >> 24) & 0xff;
    assert(b0 < 256 && b1 < 256 && b2 < 256 && b3 < 256) by (bit_vector)
        requires
            b0 == v & 0xff,
            b1 == (v >> 8) & 0xff,
            b2 == (v >> 16) & 0xff,
            b3 == (v >> 24) & 0xff,
    ;
    assert(v == b0 + 256 * b1 + 65536 * b2 + 16777216 * b3) by (bit_vector)
        requires
            b0 == v & 0xff,
            b1 == (v >> 8) & 0xff,
            b2 == (v >> 16) & 0xff,
            b3 == (v >> 24) & 0xff,
    ;
}

/// Every signed 32-bit value written in either byte order (two's complement)
/// reads back unchanged.
pub proof fn lemma_i32_round_trip(v: i32)
    ensures
        i32_at(le_bytes32(v as u32), 0, true) == v,
        i32_at(be_bytes32(v as u32), 0, false) == v,
{
    let u = v as u32;
    lemma_u32_round_trip(u);
    assert(v >= 0 ==> u == v) by (bit_vector)
        requires
            u == v as u32,
    ;
    assert(v < 0 ==> u == v + 0x1_0000_0000) by (bit_vector)
        requires
            u == v as u32,
    ;
    assert(v >= 0 <==> u < 0x8000_0000) by (bit_vector)
        requires
            u == v as u32,
    ;
}

/// Every 64-bit value written in either byte order reads back unchanged.
pub proof fn lemma_u64_round_trip(v: u64)
    ensures
        u64_at(le_bytes64(v), 0, true) == v,
        u64_at(be_bytes64(v), 0, false) == v,
{
    let lo = (v & 0xffff_ffff) as u32;
    let hi = (v >> 32) as u32;
    assert(v == lo + 4294967296 * hi) by (bit_vector)
        requires
            lo == (v & 0xffff_ffff) as u32,
            hi == (v >> 32) as u32,
    ;
    lemma_u32_round_trip(lo);
    lemma_u32_round_trip(hi);
    assert((v & 0xff) as u8 == (lo & 0xff) as u8) by (bit_vector) requires lo == (v & 0xffff_ffff) as u32;
    assert(((v >> 8) & 0xff) as u8 == ((lo >> 8) & 0xff) as u8) by (bit_vector) requires lo == (v & 0xffff_ffff) as u32;
    assert(((v >> 16) & 0xff) as u8 == ((lo >> 16) & 0xff) as u8) by (bit_vector) requires lo == (v & 0xffff_ffff) as u32;
    assert(((v >> 24) & 0xff) as u8 == ((lo >> 24) & 0xff) as u8) by (bit_vector) requires lo == (v & 0xffff_ffff) as u32;
    assert(((v >> 32) & 0xff) as u8 == (hi & 0xff) as u8) by (bit_vector) requires hi == (v >> 32) as u32;
    assert(((v >> 40) & 0xff) as u8 == ((hi >> 8) & 0xff) as u8) by (bit_vector) requires hi == (v >> 32) as u32;
    assert(((v >> 48) & 0xff) as u8 == ((hi >> 16) & 0xff) as u8) by (bit_vector) requires hi == (v >> 32) as u32;
    assert(((v >> 56) & 0xff) as u8 == ((hi >> 24) & 0xff) as u8) by (bit_vector) requires hi == (v >> 32) as u32;
    let l = le_bytes64(v);
    let b = be_bytes64(v);
    assert(u32_le_at(l, 0) == u32_at(le_bytes32(lo), 0, true));
    assert(u32_le_at(l, 4) == u32_at(le_bytes32(hi), 0, true));
    assert(u32_be_at(b, 4) == u32_at(be_bytes32(lo), 0, false));
    assert(u32_be_at(b, 0) == u32_at(be_bytes32(hi), 0, false));
}

} // verus!
