use vstd::prelude::*;

use crate::error::PackError;

verus! {

/// A seekable byte source: the whole content and a cursor into it.
///
/// The cursor may stand past the end of the content (as a file's may after a
/// seek); reads from there find nothing left.
pub struct ByteSource {
    data: Vec<u8>,
    pos: u64,
}

impl ByteSource {
    /// The whole content of the source.
    pub closed spec fn content(&self) -> Seq<u8> {
        self.data@
    }

    /// The cursor.
    pub closed spec fn position(&self) -> nat {
        self.pos as nat
    }

    /// The bytes from the cursor to the end.
    pub open spec fn rest(&self) -> Seq<u8> {
        if self.position() <= self.content().len() {
            self.content().subrange(self.position() as int, self.content().len() as int)
        } else {
            Seq::empty()
        }
    }

    /// A source over `data`, with the cursor at its start.
    pub fn new(data: Vec<u8>) -> (r: ByteSource)
        ensures
            r.content() == data@,
            r.position() == 0,
    {
        ByteSource { data, pos: 0 }
    }

    /// The length of the whole content.
    pub fn len(&self) -> (r: usize)
        ensures
            r == self.content().len(),
    {
        self.data.len()
    }

    /// The remaining bytes, as a slice.
    pub fn remaining(&self) -> (r: &[u8])
        ensures
            r@ == self.rest(),
    {
        let len = self.data.len();
        if self.pos <= len as u64 {
            vstd::slice::slice_subrange(self.data.as_slice(), self.pos as usize, len)
        } else {
            vstd::slice::slice_subrange(self.data.as_slice(), len, len)
        }
    }

    /// Takes the next byte and moves the cursor past it.
    fn take_byte(&mut self) -> (r: Option<u8>)
        ensures
            final(self).content() == old(self).content(),
            match r {
                Some(b) => old(self).rest().len() > 0 && b == old(self).rest()[0]
                    && final(self).position() == old(self).position() + 1,
                None => old(self).rest().len() == 0 && *final(self) == *old(self),
            },
    {
        if self.pos < self.data.len() as u64 {
            let b = self.data[self.pos as usize];
            self.pos = self.pos + 1;
            Some(b)
        } else {
            None
        }
    }
}

/// Moves the cursor of `file` to `offset`, counted from the start.
pub fn seek(file: &mut ByteSource, offset: u64) -> (r: Result<(), PackError>)
    ensures
        r is Ok,
        final(file).content() == old(file).content(),
        final(file).position() == offset,
{
    file.pos = offset;
    Ok(())
}

/// The cursor of `file`.
pub fn get_offset(file: &mut ByteSource) -> (r: Result<u64, PackError>)
    ensures
        *final(file) == *old(file),
        r matches Ok(p) && p == old(file).position(),
{
    Ok(file.pos)
}

/// Reads the next `N` bytes; with fewer than `N` left it fails and consumes
/// nothing.
pub fn read_bytes<const N: usize>(stream: &mut ByteSource) -> (r: Result<[u8; N], PackError>)
    ensures
        final(stream).content() == old(stream).content(),
        match r {
            Ok(b) => N <= old(stream).rest().len() && b@ == old(stream).rest().take(N as int)
                && final(stream).position() == old(stream).position() + N,
            Err(e) => old(stream).rest().len() < N && e == PackError::UnexpectedEof
                && final(stream).position() == old(stream).position(),
        },
{
    let len = stream.data.len();
    let avail: u64 = if stream.pos <= len as u64 {
        len as u64 - stream.pos
    } else {
        0
    };
    if avail < N as u64 {
        return Err(PackError::UnexpectedEof);
    }
    if N == 0 {
        let empty: [u8; N] = vstd::array::array_fill_for_copy_types(0u8);
        assert(empty@ =~= old(stream).rest().take(N as int));
        return Ok(empty);
    }
    let start = stream.pos as usize;
    let mut bytes: [u8; N] = vstd::array::array_fill_for_copy_types(0u8);
    let mut i: usize = 0;
    while i < N
        invariant
            start + N <= len,
            len == stream.data.len(),
            start == stream.pos,
            i <= N,
            forall|j: int| 0 <= j < i ==> bytes@[j] == stream.data@[start + j],
        decreases N - i,
    {
        bytes[i] = stream.data[start + i];
        i = i + 1;
    }
    stream.pos = (start + N) as u64;
    assert(bytes@ =~= old(stream).rest().take(N as int));
    Ok(bytes)
}

/// Reads a big-endian `u32`.
pub fn read_u32(stream: &mut ByteSource) -> (r: Result<u32, PackError>)
    ensures
        final(stream).content() == old(stream).content(),
        match r {
            Ok(v) => 4 <= old(stream).rest().len()
                && v == be_u32(old(stream).rest().take(4))
                && final(stream).position() == old(stream).position() + 4,
            Err(e) => old(stream).rest().len() < 4 && e == PackError::UnexpectedEof
                && final(stream).position() == old(stream).position(),
        },
{
    let bytes: [u8; 4] = read_bytes(stream)?;
    Ok(from_be_bytes(bytes))
}

/// The big-endian value of four bytes.
pub open spec fn be_u32(b: Seq<u8>) -> nat {
    ((b[0] as nat * 256 + b[1] as nat) * 256 + b[2] as nat) * 256 + b[3] as nat
}

fn from_be_bytes(b: [u8; 4]) -> (r: u32)
    ensures
        r == be_u32(b@),
{
    let v: u32 = ((b[0] as u32 * 256 + b[1] as u32) * 256 + b[2] as u32) * 256 + b[3] as u32;
    v
}

/// Reads a 20-byte hash.
pub fn read_hash(stream: &mut ByteSource) -> (r: Result<crate::hash::Hash, PackError>)
    ensures
        final(stream).content() == old(stream).content(),
        match r {
            Ok(h) => 20 <= old(stream).rest().len() && h.0@ == old(stream).rest().take(20)
                && final(stream).position() == old(stream).position() + 20,
            Err(e) => old(stream).rest().len() < 20 && e == PackError::UnexpectedEof
                && final(stream).position() == old(stream).position(),
        },
{
    let bytes: [u8; 20] = read_bytes(stream)?;
    Ok(crate::hash::Hash(bytes))
}

/// Reads the bytes before the next `delimiter` and consumes the delimiter too.
/// Where no delimiter is left it fails and consumes nothing.
pub fn read_until_delimiter(stream: &mut ByteSource, delimiter: u8) -> (r: Result<Vec<u8>, PackError>)
    ensures
        final(stream).content() == old(stream).content(),
        match r {
            Ok(v) => v.len() < old(stream).rest().len()
                && v@ == old(stream).rest().take(v.len() as int)
                && old(stream).rest()[v.len() as int] == delimiter
                && !v@.contains(delimiter)
                && final(stream).position() == old(stream).position() + v.len() + 1,
            Err(e) => !old(stream).rest().contains(delimiter) && e == PackError::UnexpectedEof
                && final(stream).position() == old(stream).position(),
        },
{
    let ghost rest = stream.rest();
    let start = stream.pos;
    let mut bytes: Vec<u8> = Vec::new();
    loop
        invariant
            stream.content() == old(stream).content(),
            rest == old(stream).rest(),
            start == old(stream).position(),
            bytes.len() <= rest.len(),
            stream.rest() == rest.skip(bytes.len() as int),
            stream.position() == start + bytes.len(),
            bytes@ == rest.take(bytes.len() as int),
            !bytes@.contains(delimiter),
        decreases rest.len() - bytes.len(),
    {
        match stream.take_byte() {
            Some(b) => {
                if b == delimiter {
                    return Ok(bytes);
                }
                bytes.push(b);
                assert(bytes@ =~= rest.take(bytes.len() as int));
                assert(stream.rest() =~= rest.skip(bytes.len() as int));
            },
            None => {
                assert(rest =~= bytes@);
                stream.pos = start;
                return Err(PackError::UnexpectedEof);
            },
        }
    }
}

/// Reads one byte of a variable-length integer: its low seven bits, and
/// whether its continuation flag (the top bit) is set.
pub fn read_var_int_byte(stream: &mut ByteSource) -> (r: Result<(u8, bool), PackError>)
    ensures
        final(stream).content() == old(stream).content(),
        match r {
            Ok((v, more)) => 0 < old(stream).rest().len()
                && v == old(stream).rest()[0] % 128
                && more == (old(stream).rest()[0] >= 128)
                && final(stream).position() == old(stream).position() + 1,
            Err(e) => old(stream).rest().len() == 0 && e == PackError::UnexpectedEof
                && final(stream).position() == old(stream).position(),
        },
{
    let bytes: [u8; 1] = read_bytes(stream)?;
    let byte = bytes[0];
    Ok((byte % 128, byte >= 128))
}

} // verus!
