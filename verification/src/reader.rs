//! Endian-aware primitive reader: fixed-width unsigned integers taken from a
//! byte image at a given position, under the byte order that the data-encoding
//! flag selects. The byte-order arithmetic itself is done by `byteorder`; each
//! call is trusted to return exactly the value that `le_val` / `be_val` give
//! to the bytes read.

use vstd::prelude::*;
use vstd::slice::slice_subrange;
use crate::model::{be_val, field_val, le_val, valid_encoding, ELFDATA2LSB};

verus! {

/// Relies on byteorder::LittleEndian::read_u16: the first two bytes of the
/// slice, least significant first.
#[verifier::external_body]
fn read_le_u16(s: &[u8]) -> (r: u16)
    requires
        s@.len() == 2,
    ensures
        r as nat == le_val(s@),
{
    <byteorder::LittleEndian as byteorder::ByteOrder>::read_u16(s)
}

/// Relies on byteorder::BigEndian::read_u16: the first two bytes of the
/// slice, most significant first.
#[verifier::external_body]
fn read_be_u16(s: &[u8]) -> (r: u16)
    requires
        s@.len() == 2,
    ensures
        r as nat == be_val(s@),
{
    <byteorder::BigEndian as byteorder::ByteOrder>::read_u16(s)
}

/// Relies on byteorder::LittleEndian::read_u32: the first four bytes of the
/// slice, least significant first.
#[verifier::external_body]
fn read_le_u32(s: &[u8]) -> (r: u32)
    requires
        s@.len() == 4,
    ensures
        r as nat == le_val(s@),
{
    <byteorder::LittleEndian as byteorder::ByteOrder>::read_u32(s)
}

/// Relies on byteorder::BigEndian::read_u32: the first four bytes of the
/// slice, most significant first.
#[verifier::external_body]
fn read_be_u32(s: &[u8]) -> (r: u32)
    requires
        s@.len() == 4,
    ensures
        r as nat == be_val(s@),
{
    <byteorder::BigEndian as byteorder::ByteOrder>::read_u32(s)
}

/// Relies on byteorder::LittleEndian::read_u64: the first eight bytes of the
/// slice, least significant first.
#[verifier::external_body]
fn read_le_u64(s: &[u8]) -> (r: u64)
    requires
        s@.len() == 8,
    ensures
        r as nat == le_val(s@),
{
    <byteorder::LittleEndian as byteorder::ByteOrder>::read_u64(s)
}

/// Relies on byteorder::BigEndian::read_u64: the first eight bytes of the
/// slice, most significant first.
#[verifier::external_body]
fn read_be_u64(s: &[u8]) -> (r: u64)
    requires
        s@.len() == 8,
    ensures
        r as nat == be_val(s@),
{
    <byteorder::BigEndian as byteorder::ByteOrder>::read_u64(s)
}

/// Reads the 16-bit field at `pos` under the byte order that `enc` selects.
pub fn read_u16_at(enc: u8, bytes: &[u8], pos: usize) -> (r: u16)
    requires
        valid_encoding(enc),
        pos + 2 <= bytes@.len(),
    ensures
        r as nat == field_val(enc, bytes@.subrange(pos as int, pos + 2)),
{
    // the exec length call puts the slice's length, and with it `pos + w`,
    // within usize bounds
    let _n = bytes.len();
    let field = slice_subrange(bytes, pos, pos + 2);
    if enc == ELFDATA2LSB {
        read_le_u16(field)
    } else {
        read_be_u16(field)
    }
}

/// Reads the 32-bit field at `pos` under the byte order that `enc` selects.
pub fn read_u32_at(enc: u8, bytes: &[u8], pos: usize) -> (r: u32)
    requires
        valid_encoding(enc),
        pos + 4 <= bytes@.len(),
    ensures
        r as nat == field_val(enc, bytes@.subrange(pos as int, pos + 4)),
{
    // the exec length call puts the slice's length, and with it `pos + w`,
    // within usize bounds
    let _n = bytes.len();
    let field = slice_subrange(bytes, pos, pos + 4);
    if enc == ELFDATA2LSB {
        read_le_u32(field)
    } else {
        read_be_u32(field)
    }
}

/// Reads the 64-bit field at `pos` under the byte order that `enc` selects.
pub fn read_u64_at(enc: u8, bytes: &[u8], pos: usize) -> (r: u64)
    requires
        valid_encoding(enc),
        pos + 8 <= bytes@.len(),
    ensures
        r as nat == field_val(enc, bytes@.subrange(pos as int, pos + 8)),
{
    // the exec length call puts the slice's length, and with it `pos + w`,
    // within usize bounds
    let _n = bytes.len();
    let field = slice_subrange(bytes, pos, pos + 8);
    if enc == ELFDATA2LSB {
        read_le_u64(field)
    } else {
        read_be_u64(field)
    }
}

} // verus!
