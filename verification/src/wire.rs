//! Little-endian integer encodings used by every frame of the protocol.

use vstd::prelude::*;

verus! {

/// The two little-endian bytes of `v`.
pub open spec fn le16(v: u16) -> Seq<u8> {
    seq![(v % 256) as u8, (v / 256) as u8]
}

/// The four little-endian bytes of `v`.
pub open spec fn le32(v: u32) -> Seq<u8> {
    seq![
        (v % 256) as u8,
        ((v / 256) % 256) as u8,
        ((v / 65536) % 256) as u8,
        (v / 16777216) as u8,
    ]
}

/// The eight little-endian bytes of `v`.
pub open spec fn le64(v: u64) -> Seq<u8> {
    le32((v % 0x1_0000_0000) as u32) + le32((v / 0x1_0000_0000) as u32)
}

/// The `u16` whose little-endian bytes start at `b[i]`.
pub open spec fn dec16(b: Seq<u8>, i: int) -> u16 {
    (b[i] as int + 256 * b[i + 1] as int) as u16
}

/// The `u32` whose little-endian bytes start at `b[i]`.
pub open spec fn dec32(b: Seq<u8>, i: int) -> u32 {
    (b[i] as int + 256 * b[i + 1] as int + 65536 * b[i + 2] as int + 16777216 * b[i + 3] as int) as u32
}

/// The `u64` whose little-endian bytes start at `b[i]`.
pub open spec fn dec64(b: Seq<u8>, i: int) -> u64 {
    (dec32(b, i) as int + 0x1_0000_0000 * dec32(b, i + 4) as int) as u64
}

pub proof fn lemma_le16_dec(v: u16, s: Seq<u8>, i: int)
    requires
        0 <= i,
        i + 2 <= s.len(),
        s.subrange(i, i + 2) == le16(v),
    ensures
        dec16(s, i) == v,
{
    assert(s[i] == le16(v)[0] && s[i + 1] == le16(v)[1]);
}

pub proof fn lemma_le32_dec(v: u32, s: Seq<u8>, i: int)
    requires
        0 <= i,
        i + 4 <= s.len(),
        s.subrange(i, i + 4) == le32(v),
    ensures
        dec32(s, i) == v,
{
    assert(s[i] == le32(v)[0] && s[i + 1] == le32(v)[1] && s[i + 2] == le32(v)[2] && s[i + 3] == le32(v)[3]);
    let a = v % 256;
    let b = (v / 256) % 256;
    let c = (v / 65536) % 256;
    let d = v / 16777216;
    assert(a + 256 * b + 65536 * c + 16777216 * d == v) by (nonlinear_arith)
        requires a == v % 256, b == (v / 256) % 256, c == (v / 65536) % 256, d == v / 16777216;
}

pub proof fn lemma_le64_dec(v: u64, s: Seq<u8>, i: int)
    requires
        0 <= i,
        i + 8 <= s.len(),
        s.subrange(i, i + 8) == le64(v),
    ensures
        dec64(s, i) == v,
{
    let lo = (v % 0x1_0000_0000) as u32;
    let hi = (v / 0x1_0000_0000) as u32;
    assert(s.subrange(i, i + 4) =~= le64(v).subrange(0, 4));
    assert(le64(v).subrange(0, 4) =~= le32(lo));
    assert(s.subrange(i + 4, i + 8) =~= le64(v).subrange(4, 8));
    assert(le64(v).subrange(4, 8) =~= le32(hi));
    lemma_le32_dec(lo, s, i);
    lemma_le32_dec(hi, s, i + 4);
    assert(lo + 0x1_0000_0000 * hi == v) by (nonlinear_arith)
        requires lo == v % 0x1_0000_0000, hi == v / 0x1_0000_0000;
}

pub fn u16_le(v: u16) -> (r: [u8; 2])
    ensures
        r@ == le16(v),
{
    let r = [(v % 256) as u8, (v / 256) as u8];
    assert(r@ =~= le16(v));
    r
}

pub fn u32_le(v: u32) -> (r: [u8; 4])
    ensures
        r@ == le32(v),
{
    let r = [(v % 256) as u8, ((v / 256) % 256) as u8, ((v / 65536) % 256) as u8, (v / 16777216) as u8];
    assert(r@ =~= le32(v));
    r
}

pub fn u64_le(v: u64) -> (r: [u8; 8])
    ensures
        r@ == le64(v),
{
    let lo = (v % 0x1_0000_0000) as u32;
    let hi = (v / 0x1_0000_0000) as u32;
    let a = u32_le(lo);
    let b = u32_le(hi);
    let r = [a[0], a[1], a[2], a[3], b[0], b[1], b[2], b[3]];
    assert(r@ =~= le64(v));
    r
}

pub fn read_u16(b: &[u8], i: usize) -> (r: u16)
    requires
        i + 2 <= b@.len(),
    ensures
        r == dec16(b@, i as int),
{
    (b[i] as u16) + (b[i + 1] as u16) * 256
}

pub fn read_u32(b: &[u8], i: usize) -> (r: u32)
    requires
        i + 4 <= b@.len(),
    ensures
        r == dec32(b@, i as int),
{
    (b[i] as u32) + (b[i + 1] as u32) * 256 + (b[i + 2] as u32) * 65536 + (b[i + 3] as u32) * 16777216
}

pub fn read_u64(b: &[u8], i: usize) -> (r: u64)
    requires
        i + 8 <= b@.len(),
    ensures
        r == dec64(b@, i as int),
{
    let _n = b.len();
    (read_u32(b, i) as u64) + (read_u32(b, i + 4) as u64) * 0x1_0000_0000
}

/// Appends `bytes` to `out`.
pub fn extend(out: &mut Vec<u8>, bytes: &[u8])
    ensures
        final(out)@ == old(out)@ + bytes@,
{
    let mut i: usize = 0;
    while i < bytes.len()
        invariant
            i <= bytes@.len(),
            out@ == old(out)@ + bytes@.subrange(0, i as int),
        decreases bytes@.len() - i,
    {
        out.push(bytes[i]);
        i = i + 1;
        assert(out@ =~= old(out)@ + bytes@.subrange(0, i as int));
    }
    assert(bytes@.subrange(0, bytes@.len() as int) =~= bytes@);
}

} // verus!
