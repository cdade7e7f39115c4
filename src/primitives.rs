//! Little-endian readers and writers for the widths both formats use.
//!
//! Readers take a byte slice and a cursor and fail with [`ShortRead`] when
//! fewer bytes than requested remain; writers append to a byte vector.
use vstd::prelude::*;

verus! {

/// Fewer bytes remained than a read asked for.
#[derive(Debug, Clone, Copy, PartialEq, Eq)]
pub struct ShortRead;

/// The little-endian `u32` made of the four bytes of `s` from `i` on.
pub open spec fn le_u32(s: Seq<u8>, i: int) -> u32 {
    (s[i] as u32) | ((s[i + 1] as u32) << 8u32) | ((s[i + 2] as u32) << 16u32) | ((s[i + 3] as u32)
        << 24u32)
}

/// The little-endian `i32` made of the four bytes of `s` from `i` on.
pub open spec fn le_i32(s: Seq<u8>, i: int) -> i32 {
    #[verifier::truncate]
    (le_u32(s, i) as i32)
}

/// The four little-endian bytes of `v`.
pub open spec fn u32_bytes(v: u32) -> Seq<u8> {
    seq![
        (v & 0xff) as u8,
        ((v >> 8u32) & 0xff) as u8,
        ((v >> 16u32) & 0xff) as u8,
        ((v >> 24u32) & 0xff) as u8,
    ]
}

/// The four little-endian bytes of `v`.
pub open spec fn i32_bytes(v: i32) -> Seq<u8> {
    u32_bytes(#[verifier::truncate] (v as u32))
}

/// Decoding the encoding of a `u32` gives it back.
pub proof fn lemma_u32_round_trip(v: u32)
    ensures
        u32_bytes(v).len() == 4,
        le_u32(u32_bytes(v), 0) == v,
{
    let s = u32_bytes(v);
    assert(s[0] == (v & 0xff) as u8);
    assert(s[1] == ((v >> 8u32) & 0xff) as u8);
    assert(s[2] == ((v >> 16u32) & 0xff) as u8);
    assert(s[3] == ((v >> 24u32) & 0xff) as u8);
    assert((((v & 0xff) as u8) as u32) | ((((v >> 8u32) & 0xff) as u8) as u32) << 8u32 | ((((v
        >> 16u32) & 0xff) as u8) as u32) << 16u32 | ((((v >> 24u32) & 0xff) as u8) as u32) << 24u32
        == v) by (bit_vector);
}

/// Decoding the encoding of an `i32` gives it back.
pub proof fn lemma_i32_round_trip(v: i32)
    ensures
        i32_bytes(v).len() == 4,
        le_i32(i32_bytes(v), 0) == v,
{
    let u = #[verifier::truncate] (v as u32);
    lemma_u32_round_trip(u);
    assert((#[verifier::truncate] ((#[verifier::truncate] (v as u32)) as i32)) == v) by (bit_vector);
}

/// Reads one byte.
pub fn read_u8(r: &[u8], pos: &mut usize) -> (res: Result<u8, ShortRead>)
    ensures
        *old(pos) < r@.len() ==> res == Ok::<u8, ShortRead>(r@[*old(pos) as int]) && *final(pos)
            == *old(pos) + 1,
        *old(pos) >= r@.len() ==> res == Err::<u8, ShortRead>(ShortRead) && *final(pos) == *old(
            pos),
{
    if *pos < r.len() {
        let b = r[*pos];
        *pos = *pos + 1;
        Ok(b)
    } else {
        Err(ShortRead)
    }
}

/// Reads a little-endian `u32`.
pub fn read_u32(r: &[u8], pos: &mut usize) -> (res: Result<u32, ShortRead>)
    ensures
        *old(pos) + 4 <= r@.len() ==> res == Ok::<u32, ShortRead>(le_u32(r@, *old(pos) as int))
            && *final(pos) == *old(pos) + 4,
        *old(pos) + 4 > r@.len() ==> res == Err::<u32, ShortRead>(ShortRead) && *final(pos)
            == *old(pos),
{
    if *pos <= r.len() && r.len() - *pos >= 4 {
        let p = *pos;
        let v = (r[p] as u32) | ((r[p + 1] as u32) << 8u32) | ((r[p + 2] as u32) << 16u32) | ((r[p
            + 3] as u32) << 24u32);
        *pos = p + 4;
        Ok(v)
    } else {
        Err(ShortRead)
    }
}

/// Reads a little-endian `i32`.
pub fn read_i32(r: &[u8], pos: &mut usize) -> (res: Result<i32, ShortRead>)
    ensures
        *old(pos) + 4 <= r@.len() ==> res == Ok::<i32, ShortRead>(le_i32(r@, *old(pos) as int))
            && *final(pos) == *old(pos) + 4,
        *old(pos) + 4 > r@.len() ==> res == Err::<i32, ShortRead>(ShortRead) && *final(pos)
            == *old(pos),
{
    match read_u32(r, pos) {
        Ok(v) => Ok(#[verifier::truncate] (v as i32)),
        Err(e) => Err(e),
    }
}

/// Reads the bit pattern of a little-endian IEEE-754 single.
pub fn read_f32(r: &[u8], pos: &mut usize) -> (res: Result<u32, ShortRead>)
    ensures
        *old(pos) + 4 <= r@.len() ==> res == Ok::<u32, ShortRead>(le_u32(r@, *old(pos) as int))
            && *final(pos) == *old(pos) + 4,
        *old(pos) + 4 > r@.len() ==> res == Err::<u32, ShortRead>(ShortRead) && *final(pos)
            == *old(pos),
{
    read_u32(r, pos)
}

/// The little-endian `u32` at byte `p`, which the caller has bounds-checked.
pub fn u32_at(r: &[u8], p: usize) -> (v: u32)
    requires
        p + 4 <= r@.len(),
    ensures
        v == le_u32(r@, p as int),
{
    (r[p] as u32) | ((r[p + 1] as u32) << 8u32) | ((r[p + 2] as u32) << 16u32) | ((r[p + 3] as u32)
        << 24u32)
}

/// The little-endian `i32` at byte `p`, which the caller has bounds-checked.
pub fn i32_at(r: &[u8], p: usize) -> (v: i32)
    requires
        p + 4 <= r@.len(),
    ensures
        v == le_i32(r@, p as int),
{
    #[verifier::truncate]
    (u32_at(r, p) as i32)
}

/// Appends one byte.
pub fn write_u8(b: u8, w: &mut Vec<u8>)
    ensures
        final(w)@ == old(w)@.push(b),
{
    w.push(b);
}

/// Appends a little-endian `u32`.
pub fn write_u32(i: u32, w: &mut Vec<u8>)
    ensures
        final(w)@ == old(w)@ + u32_bytes(i),
{
    w.push((i & 0xff) as u8);
    w.push(((i >> 8u32) & 0xff) as u8);
    w.push(((i >> 16u32) & 0xff) as u8);
    w.push(((i >> 24u32) & 0xff) as u8);
    assert(final(w)@ =~= old(w)@ + u32_bytes(i));
}

/// Appends a little-endian `i32`.
pub fn write_i32(i: i32, w: &mut Vec<u8>)
    ensures
        final(w)@ == old(w)@ + i32_bytes(i),
{
    write_u32(#[verifier::truncate] (i as u32), w);
}

/// Appends the bit pattern of an IEEE-754 single, little-endian.
pub fn write_f32(f: u32, w: &mut Vec<u8>)
    ensures
        final(w)@ == old(w)@ + u32_bytes(f),
{
    write_u32(f, w);
}

} // verus!
