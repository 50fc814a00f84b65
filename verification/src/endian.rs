//! Big-endian integers inside byte sequences.
//!
//! The specification functions say which bytes an integer is written as and which
//! integer a run of bytes holds. The executable functions call `byteorder`.
use byteorder::{BigEndian, ByteOrder};
use vstd::prelude::*;

verus! {

/// The two bytes of `v`, most significant first.
pub open spec fn be16(v: u16) -> Seq<u8> {
    seq![(v / 0x100) as u8, (v % 0x100) as u8]
}

/// The four bytes of `v`, most significant first.
pub open spec fn be32(v: u32) -> Seq<u8> {
    seq![
        (v / 0x100_0000) as u8,
        ((v / 0x1_0000) % 0x100) as u8,
        ((v / 0x100) % 0x100) as u8,
        (v % 0x100) as u8,
    ]
}

/// The eight bytes of `v`, most significant first.
pub open spec fn be64(v: u64) -> Seq<u8> {
    be32((v / 0x1_0000_0000) as u32) + be32((v % 0x1_0000_0000) as u32)
}

/// The integer held by the two bytes at `at`.
pub open spec fn value16(s: Seq<u8>, at: int) -> int {
    s[at] * 0x100 + s[at + 1]
}

/// The integer held by the four bytes at `at`.
pub open spec fn value32(s: Seq<u8>, at: int) -> int {
    s[at] * 0x100_0000 + s[at + 1] * 0x1_0000 + s[at + 2] * 0x100 + s[at + 3]
}

/// The integer held by the eight bytes at `at`.
pub open spec fn value64(s: Seq<u8>, at: int) -> int {
    value32(s, at) * 0x1_0000_0000 + value32(s, at + 4)
}

/// `s` with the bytes from `at` on replaced by `w`.
pub open spec fn overwrite(s: Seq<u8>, at: int, w: Seq<u8>) -> Seq<u8> {
    Seq::new(s.len(), |i: int| if at <= i < at + w.len() { w[i - at] } else { s[i] })
}

/// The view of optional bytes.
pub open spec fn bytes_view(r: Option<Vec<u8>>) -> Option<Seq<u8>> {
    match r {
        Some(v) => Some(v@),
        None => None,
    }
}

/// Reading the bytes of a 16-bit integer gives the integer back.
pub proof fn lemma_value16(s: Seq<u8>, at: int, v: u16)
    requires
        0 <= at,
        at + 2 <= s.len(),
        s.subrange(at, at + 2) == be16(v),
    ensures
        value16(s, at) == v,
{
    let w = s.subrange(at, at + 2);
    assert(s[at] == w[0]);
    assert(s[at + 1] == w[1]);
}

/// Reading the bytes of a 32-bit integer gives the integer back.
pub proof fn lemma_value32(s: Seq<u8>, at: int, v: u32)
    requires
        0 <= at,
        at + 4 <= s.len(),
        s.subrange(at, at + 4) == be32(v),
    ensures
        value32(s, at) == v,
{
    let w = s.subrange(at, at + 4);
    assert(s[at] == w[0]);
    assert(s[at + 1] == w[1]);
    assert(s[at + 2] == w[2]);
    assert(s[at + 3] == w[3]);
}

/// Reading the bytes of a 64-bit integer gives the integer back.
pub proof fn lemma_value64(s: Seq<u8>, at: int, v: u64)
    requires
        0 <= at,
        at + 8 <= s.len(),
        s.subrange(at, at + 8) == be64(v),
    ensures
        value64(s, at) == v,
{
    let w = s.subrange(at, at + 8);
    let hi = (v / 0x1_0000_0000) as u32;
    let lo = (v % 0x1_0000_0000) as u32;
    assert(s.subrange(at, at + 4) =~= w.subrange(0, 4));
    assert(s.subrange(at + 4, at + 8) =~= w.subrange(4, 8));
    assert(w.subrange(0, 4) =~= be32(hi));
    assert(w.subrange(4, 8) =~= be32(lo));
    lemma_value32(s, at, hi);
    lemma_value32(s, at + 4, lo);
}

/// Appends `bytes` to `out`.
pub fn append_bytes(out: &mut Vec<u8>, bytes: &[u8])
    ensures
        final(out)@ == old(out)@ + bytes@,
{
    let ghost before = out@;
    out.extend_from_slice(bytes);
    assert(out@ =~= before + bytes@);
}

/// Calls `byteorder::BigEndian::write_u16` on the bytes of `out` from `at` on: the first two
/// of them become the bytes of `v`, and nothing else changes.
#[verifier::external_body]
pub(crate) fn write_u16(out: &mut Vec<u8>, at: usize, v: u16)
    requires
        at + 2 <= old(out)@.len(),
    ensures
        final(out)@ == overwrite(old(out)@, at as int, be16(v)),
{
    BigEndian::write_u16(&mut out[at..], v)
}

/// Calls `byteorder::BigEndian::write_u32` on the bytes of `out` from `at` on: the first four
/// of them become the bytes of `v`, and nothing else changes.
#[verifier::external_body]
pub(crate) fn write_u32(out: &mut Vec<u8>, at: usize, v: u32)
    requires
        at + 4 <= old(out)@.len(),
    ensures
        final(out)@ == overwrite(old(out)@, at as int, be32(v)),
{
    BigEndian::write_u32(&mut out[at..], v)
}

/// Calls `byteorder::BigEndian::write_u64` on the bytes of `out` from `at` on: the first eight
/// of them become the bytes of `v`, and nothing else changes.
#[verifier::external_body]
pub(crate) fn write_u64(out: &mut Vec<u8>, at: usize, v: u64)
    requires
        at + 8 <= old(out)@.len(),
    ensures
        final(out)@ == overwrite(old(out)@, at as int, be64(v)),
{
    BigEndian::write_u64(&mut out[at..], v)
}

/// Calls `byteorder::BigEndian::read_u16` on the bytes of `buf` from `at` on: the result is the
/// integer that the first two of them hold.
#[verifier::external_body]
pub(crate) fn read_u16(buf: &[u8], at: usize) -> (r: u16)
    requires
        at + 2 <= buf@.len(),
    ensures
        r == value16(buf@, at as int),
{
    BigEndian::read_u16(&buf[at..])
}

/// Calls `byteorder::BigEndian::read_u32` on the bytes of `buf` from `at` on: the result is the
/// integer that the first four of them hold.
#[verifier::external_body]
pub(crate) fn read_u32(buf: &[u8], at: usize) -> (r: u32)
    requires
        at + 4 <= buf@.len(),
    ensures
        r == value32(buf@, at as int),
{
    BigEndian::read_u32(&buf[at..])
}

/// Calls `byteorder::BigEndian::read_u64` on the bytes of `buf` from `at` on: the result is the
/// integer that the first eight of them hold.
#[verifier::external_body]
pub(crate) fn read_u64(buf: &[u8], at: usize) -> (r: u64)
    requires
        at + 8 <= buf@.len(),
    ensures
        r == value64(buf@, at as int),
{
    BigEndian::read_u64(&buf[at..])
}

/// Appends the two bytes of `v` to `out`.
pub fn push_u16(out: &mut Vec<u8>, v: u16)
    ensures
        final(out)@ == old(out)@ + be16(v),
{
    let at: usize = out.len();
    out.push(0);
    out.push(0);
    write_u16(out, at, v);
    assert(out@ =~= old(out)@ + be16(v));
}

/// Appends the four bytes of `v` to `out`.
pub fn push_u32(out: &mut Vec<u8>, v: u32)
    ensures
        final(out)@ == old(out)@ + be32(v),
{
    let at: usize = out.len();
    append_bytes(out, &[0, 0, 0, 0]);
    write_u32(out, at, v);
    assert(out@ =~= old(out)@ + be32(v));
}

/// Appends the eight bytes of `v` to `out`.
pub fn push_u64(out: &mut Vec<u8>, v: u64)
    ensures
        final(out)@ == old(out)@ + be64(v),
{
    let at: usize = out.len();
    append_bytes(out, &[0, 0, 0, 0, 0, 0, 0, 0]);
    write_u64(out, at, v);
    assert(out@ =~= old(out)@ + be64(v));
}

} // verus!
