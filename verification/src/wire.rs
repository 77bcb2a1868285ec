//! Writes integers into a byte vector.

use crate::error::{written, SerializationError};
use vstd::prelude::*;

verus! {

/// The two bytes of `v`, most significant first.
pub open spec fn be16(v: u16) -> Seq<u8> {
    seq![(v / 256) as u8, (v % 256) as u8]
}

/// Appends one byte through `byteorder::WriteBytesExt::write_u8`.
///
/// Trusted: the call succeeds, and the vector then holds what it held
/// before, followed by `value`. The method hands the byte to the writer's
/// `write_all` and fails only as that does; the writer of a `Vec<u8>`
/// appends what it is given and does not fail.
#[verifier::external_body]
fn put_u8(buf: &mut Vec<u8>, value: u8) -> (r: Result<(), std::io::Error>)
    ensures
        r is Ok,
        final(buf)@ == old(buf)@.push(value),
{
    byteorder::WriteBytesExt::write_u8(buf, value)
}

/// Appends two bytes through `byteorder::WriteBytesExt::write_u16` in
/// `byteorder::BigEndian` order.
///
/// Trusted: the call succeeds, and the vector then holds what it held
/// before, followed by the high byte and then the low byte of `value`. The
/// method hands the two bytes to the writer's `write_all` and fails only as
/// that does; the writer of a `Vec<u8>` appends what it is given and does
/// not fail.
#[verifier::external_body]
fn put_u16(buf: &mut Vec<u8>, value: u16) -> (r: Result<(), std::io::Error>)
    ensures
        r is Ok,
        final(buf)@ == old(buf)@ + be16(value),
{
    byteorder::WriteBytesExt::write_u16::<byteorder::BigEndian>(buf, value)
}

/// Appends one byte to `buf`.
pub fn write_u8(buf: &mut Vec<u8>, value: u8) -> (r: Result<(), SerializationError>)
    ensures
        r is Ok,
        final(buf)@ == old(buf)@.push(value),
{
    written(put_u8(buf, value))
}

/// Appends `value` to `buf`, most significant byte first.
pub fn write_u16(buf: &mut Vec<u8>, value: u16) -> (r: Result<(), SerializationError>)
    ensures
        r is Ok,
        final(buf)@ == old(buf)@ + be16(value),
{
    written(put_u16(buf, value))
}

/// Values from this one on have no variable-length encoding.
pub const VARINT_LIMIT: u64 = 0x4000_0000_0000_0000;

/// The variable-length encoding of `v`: one, two, four or eight bytes, most
/// significant first, with the length class in the two top bits of the first
/// byte.
pub open spec fn varint_bytes(v: u64) -> Seq<u8>
    recommends
        v < VARINT_LIMIT,
{
    if v < 0x40 {
        seq![v as u8]
    } else if v < 0x4000 {
        be16((0x4000 + v) as u16)
    } else if v < 0x4000_0000 {
        be16((0x8000 + v / 0x1_0000) as u16) + be16((v % 0x1_0000) as u16)
    } else {
        be16((0xc000 + v / 0x1_0000_0000_0000) as u16) + be16(
            ((v / 0x1_0000_0000) % 0x1_0000) as u16,
        ) + be16(((v / 0x1_0000) % 0x1_0000) as u16) + be16((v % 0x1_0000) as u16)
    }
}

/// Number of bytes in the variable-length encoding of `v`.
pub open spec fn varint_size(v: u64) -> nat {
    if v < 0x40 {
        1
    } else if v < 0x4000 {
        2
    } else if v < 0x4000_0000 {
        4
    } else {
        8
    }
}

/// The encoding of a value has the length that `varint_size` gives.
pub proof fn lemma_varint_size(v: u64)
    ensures
        varint_bytes(v).len() == varint_size(v),
        1 <= varint_size(v) <= 8,
{
}

/// Number of bytes that `write_varint` appends for `v`.
pub fn varint_len(v: u64) -> (n: usize)
    requires
        v < VARINT_LIMIT,
    ensures
        n == varint_size(v),
        n == varint_bytes(v).len(),
{
    if v < 0x40 {
        1
    } else if v < 0x4000 {
        2
    } else if v < 0x4000_0000 {
        4
    } else {
        8
    }
}

/// Appends the variable-length encoding of `v` to `buf`.
pub fn write_varint(buf: &mut Vec<u8>, v: u64) -> (r: Result<(), SerializationError>)
    requires
        v < VARINT_LIMIT,
    ensures
        r is Ok,
        final(buf)@ == old(buf)@ + varint_bytes(v),
{
    if v < 0x40 {
        write_u8(buf, v as u8)?;
    } else if v < 0x4000 {
        write_u16(buf, (0x4000 + v) as u16)?;
    } else if v < 0x4000_0000 {
        write_u16(buf, (0x8000 + v / 0x1_0000) as u16)?;
        write_u16(buf, (v % 0x1_0000) as u16)?;
    } else {
        write_u16(buf, (0xc000 + v / 0x1_0000_0000_0000) as u16)?;
        write_u16(buf, ((v / 0x1_0000_0000) % 0x1_0000) as u16)?;
        write_u16(buf, ((v / 0x1_0000) % 0x1_0000) as u16)?;
        write_u16(buf, (v % 0x1_0000) as u16)?;
    }
    Ok(())
}

/// Appends a copy of `bytes` to `buf`.
pub fn write_bytes(buf: &mut Vec<u8>, bytes: &Vec<u8>)
    ensures
        final(buf)@ == old(buf)@ + bytes@,
{
    buf.extend_from_slice(bytes.as_slice());
}

} // verus!
