//! Decoding and re-encoding of a columnar native binary row format: a fixed
//! signature, a self-describing column-width header, and rows made of a null
//! bitmap followed by the packed bytes of every non-null column. The library
//! counts rows, and reproduces structurally valid files holding the first or
//! last `n` rows, with every byte-layout rule stated and proved.

use vstd::prelude::*;

pub mod byte_reader;
pub mod column_definitions;
pub mod bytes;
pub mod file_signature;
pub mod format;
pub mod operations;
pub mod row_codec;
pub mod vertica_native_file;

use crate::byte_reader::ByteReader;
use crate::bytes::{le16_at, le32_at};
use crate::format::FormatError;

verus! {

/// Reads exactly `length` raw bytes, or fails with `Truncated` leaving the
/// reader untouched.
pub fn read_variable(reader: &mut ByteReader, length: usize) -> (res: Result<Vec<u8>, FormatError>)
    requires
        old(reader).wf(),
    ensures
        final(reader).wf(),
        final(reader).data@ == old(reader).data@,
        match res {
            Ok(v) => {
                &&& old(reader).pos + length <= old(reader).data@.len()
                &&& v@ == old(reader).data@.subrange(
                    old(reader).pos as int,
                    old(reader).pos + length,
                )
                &&& final(reader).pos == old(reader).pos + length
            },
            Err(e) => {
                &&& old(reader).pos + length > old(reader).data@.len()
                &&& e == FormatError::Truncated
                &&& *final(reader) == *old(reader)
            },
        },
{
    if length > reader.data.len() - reader.pos {
        return Err(FormatError::Truncated);
    }
    let mut v: Vec<u8> = Vec::new();
    let mut i: usize = 0;
    while i < length
        invariant
            i <= length,
            reader.wf(),
            reader.data@ == old(reader).data@,
            reader.pos == old(reader).pos,
            reader.pos + length <= reader.data@.len(),
            reader.data@.len() <= usize::MAX,
            v@ == reader.data@.subrange(reader.pos as int, reader.pos + i),
        decreases length - i,
    {
        let b = reader.data[reader.pos + i];
        v.push(b);
        assert(v@ =~= reader.data@.subrange(reader.pos as int, reader.pos + i + 1));
        i = i + 1;
    }
    reader.pos = reader.pos + length;
    Ok(v)
}

/// Reads one byte, or fails with `Truncated` leaving the reader untouched.
pub fn read_u8(reader: &mut ByteReader) -> (res: Result<u8, FormatError>)
    requires
        old(reader).wf(),
    ensures
        final(reader).wf(),
        final(reader).data@ == old(reader).data@,
        match res {
            Ok(v) => {
                &&& old(reader).pos + 1 <= old(reader).data@.len()
                &&& v == old(reader).data@[old(reader).pos as int]
                &&& final(reader).pos == old(reader).pos + 1
            },
            Err(e) => {
                &&& old(reader).pos + 1 > old(reader).data@.len()
                &&& e == FormatError::Truncated
                &&& *final(reader) == *old(reader)
            },
        },
{
    if reader.pos >= reader.data.len() {
        return Err(FormatError::Truncated);
    }
    let b = reader.data[reader.pos];
    reader.pos = reader.pos + 1;
    Ok(b)
}

/// Reads a two-byte little-endian integer, or fails with `Truncated` leaving
/// the reader untouched.
pub fn read_u16(reader: &mut ByteReader) -> (res: Result<u16, FormatError>)
    requires
        old(reader).wf(),
    ensures
        final(reader).wf(),
        final(reader).data@ == old(reader).data@,
        match res {
            Ok(v) => {
                &&& old(reader).pos + 2 <= old(reader).data@.len()
                &&& v == le16_at(old(reader).data@, old(reader).pos as int)
                &&& final(reader).pos == old(reader).pos + 2
            },
            Err(e) => {
                &&& old(reader).pos + 2 > old(reader).data@.len()
                &&& e == FormatError::Truncated
                &&& *final(reader) == *old(reader)
            },
        },
{
    if reader.data.len() - reader.pos < 2 {
        return Err(FormatError::Truncated);
    }
    let b0 = reader.data[reader.pos];
    let b1 = reader.data[reader.pos + 1];
    reader.pos = reader.pos + 2;
    Ok((b0 as u16) | ((b1 as u16) << 8))
}

/// Reads a four-byte little-endian integer, or fails with `Truncated` leaving
/// the reader untouched.
pub fn read_u32(reader: &mut ByteReader) -> (res: Result<u32, FormatError>)
    requires
        old(reader).wf(),
    ensures
        final(reader).wf(),
        final(reader).data@ == old(reader).data@,
        match res {
            Ok(v) => {
                &&& old(reader).pos + 4 <= old(reader).data@.len()
                &&& v == le32_at(old(reader).data@, old(reader).pos as int)
                &&& final(reader).pos == old(reader).pos + 4
            },
            Err(e) => {
                &&& old(reader).pos + 4 > old(reader).data@.len()
                &&& e == FormatError::Truncated
                &&& *final(reader) == *old(reader)
            },
        },
{
    if reader.data.len() - reader.pos < 4 {
        return Err(FormatError::Truncated);
    }
    let b0 = reader.data[reader.pos];
    let b1 = reader.data[reader.pos + 1];
    let b2 = reader.data[reader.pos + 2];
    let b3 = reader.data[reader.pos + 3];
    reader.pos = reader.pos + 4;
    Ok((b0 as u32) | ((b1 as u32) << 8) | ((b2 as u32) << 16) | ((b3 as u32) << 24))
}

} // verus!
