use vstd::prelude::*;

use crate::error::PackError;
use crate::source::{ByteSource, get_offset, seek};

verus! {

/// What inflating the zlib stream at the start of `input` gives: the
/// decompressed bytes and the number of bytes of `input` that the stream
/// takes; `None` where `input` does not start with a valid zlib stream.
pub uninterp spec fn zlib_inflate(input: Seq<u8>) -> Option<(Seq<u8>, nat)>;

/// Relies on flate2's `read::ZlibDecoder`: reading it to the end inflates the
/// zlib stream at the start of `input`, and `total_in` then counts the bytes
/// of `input` that the stream took, however far the decoder's buffer read
/// ahead into what follows.
#[verifier::external_body]
fn inflate_stream(input: &[u8]) -> (r: Option<(Vec<u8>, u64)>)
    ensures
        match r {
            Some((out, used)) => zlib_inflate(input@) == Some((out@, used as nat))
                && used <= input@.len(),
            None => zlib_inflate(input@) is None,
        },
{
    let mut decoder = flate2::read::ZlibDecoder::new(input);
    let mut out = Vec::new();
    match std::io::Read::read_to_end(&mut decoder, &mut out) {
        Ok(_) => Some((out, decoder.total_in())),
        Err(_) => None,
    }
}

/// Decompresses the zlib block at the cursor and leaves the cursor on the
/// first byte after the block, however far the decompressor read ahead. A
/// block that does not decompress fails with `IoFailure` and moves nothing.
pub fn read_zlib_block(file: &mut ByteSource) -> (r: Result<Vec<u8>, PackError>)
    ensures
        final(file).content() == old(file).content(),
        match zlib_inflate(old(file).rest()) {
            Some((out, used)) => r matches Ok(d) && d@ == out && final(file).position()
                == old(file).position() + used,
            None => r == Err::<Vec<u8>, PackError>(PackError::IoFailure) && final(file).position()
                == old(file).position(),
        },
{
    let total = file.len();
    let start = match get_offset(file) {
        Ok(p) => p,
        Err(e) => return Err(e),
    };
    match inflate_stream(file.remaining()) {
        Some((out, used)) => {
            let end: u64 = if start <= total as u64 {
                start + used
            } else {
                start
            };
            let _ = seek(file, end);
            Ok(out)
        },
        None => Err(PackError::IoFailure),
    }
}

/// Decompresses the zlib block at the cursor, hands the decompressed bytes
/// to `reader` and returns what it returns. The cursor is left on the first
/// byte after the block before `reader` runs, so it stands there whether
/// `reader` succeeds or fails. A block that does not decompress fails with
/// `IoFailure`, moves nothing and does not call `reader`.
pub fn read_zlib_stream_exact<T, F: FnOnce(&[u8]) -> Result<T, PackError>>(
    file: &mut ByteSource,
    reader: F,
) -> (r: Result<T, PackError>)
    requires
        forall|d: &[u8]| reader.requires((d,)),
    ensures
        final(file).content() == old(file).content(),
        match zlib_inflate(old(file).rest()) {
            Some((out, used)) => final(file).position() == old(file).position() + used && exists|
                d: &[u8],
            | d@ == out && reader.ensures((d,), r),
            None => r matches Err(e) && e == PackError::IoFailure && final(file).position()
                == old(file).position(),
        },
{
    match read_zlib_block(file) {
        Ok(data) => {
            let slice = data.as_slice();
            let result = reader(slice);
            assert(slice@ == data@);
            result
        },
        Err(e) => Err(e),
    }
}

} // verus!
