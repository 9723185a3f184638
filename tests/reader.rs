use std::io::Write;

use git::error::PackError;
use git::partial::read_partial_int;
use git::source::{
    get_offset, read_bytes, read_hash, read_u32, read_until_delimiter, read_var_int_byte, seek,
    ByteSource,
};
use git::zlib::{read_zlib_block, read_zlib_stream_exact};

fn compress(data: &[u8]) -> Vec<u8> {
    let mut enc = flate2::write::ZlibEncoder::new(Vec::new(), flate2::Compression::default());
    enc.write_all(data).unwrap();
    enc.finish().unwrap()
}

#[test]
fn read_bytes_in_order() {
    let mut src = ByteSource::new(vec![1, 2, 3, 4, 5]);
    let a: [u8; 2] = read_bytes(&mut src).unwrap();
    let b: [u8; 3] = read_bytes(&mut src).unwrap();
    assert_eq!(a, [1, 2]);
    assert_eq!(b, [3, 4, 5]);
}

#[test]
fn short_read_fails_and_consumes_nothing() {
    let mut src = ByteSource::new(vec![7, 8, 9]);
    let r: Result<[u8; 4], PackError> = read_bytes(&mut src);
    assert_eq!(r, Err(PackError::UnexpectedEof));
    assert_eq!(get_offset(&mut src), Ok(0));
    assert_eq!(read_u32(&mut src), Err(PackError::UnexpectedEof));
    assert_eq!(read_hash(&mut src), Err(PackError::UnexpectedEof));
    let rest: [u8; 3] = read_bytes(&mut src).unwrap();
    assert_eq!(rest, [7, 8, 9]);
}

#[test]
fn read_u32_is_big_endian() {
    let mut src = ByteSource::new(vec![0x12, 0x34, 0x56, 0x78, 0x9a]);
    assert_eq!(read_u32(&mut src), Ok(0x12345678));
    assert_eq!(get_offset(&mut src), Ok(4));
}

#[test]
fn read_hash_takes_twenty_bytes() {
    let bytes: Vec<u8> = (0u8..21).collect();
    let mut src = ByteSource::new(bytes);
    let h = read_hash(&mut src).unwrap();
    let want: Vec<u8> = (0u8..20).collect();
    assert_eq!(h.0.to_vec(), want);
    assert_eq!(get_offset(&mut src), Ok(20));
}

#[test]
fn read_until_delimiter_excludes_delimiter() {
    let mut src = ByteSource::new(b"tree 12\0rest".to_vec());
    assert_eq!(read_until_delimiter(&mut src, 0), Ok(b"tree 12".to_vec()));
    assert_eq!(get_offset(&mut src), Ok(8));
    assert_eq!(read_until_delimiter(&mut src, 0), Err(PackError::UnexpectedEof));
    assert_eq!(get_offset(&mut src), Ok(8));
}

#[test]
fn var_int_byte_splits_flag() {
    let mut src = ByteSource::new(vec![0x95, 0x05]);
    assert_eq!(read_var_int_byte(&mut src), Ok((0x15, true)));
    assert_eq!(read_var_int_byte(&mut src), Ok((0x05, false)));
    assert_eq!(read_var_int_byte(&mut src), Err(PackError::UnexpectedEof));
}

#[test]
fn partial_int_masking() {
    let mut src = ByteSource::new(vec![0x11, 0x22]);
    let mut mask: u8 = 0b0101;
    assert_eq!(read_partial_int(&mut src, 4, &mut mask), Ok(0x0022_0011));
    assert_eq!(mask, 0);
    assert_eq!(get_offset(&mut src), Ok(2));
}

#[test]
fn partial_int_shifts_mask_per_position() {
    let mut src = ByteSource::new(vec![0xaa]);
    let mut mask: u8 = 0b1001_0010;
    assert_eq!(read_partial_int(&mut src, 3, &mut mask), Ok(0xaa00));
    assert_eq!(mask, 0b0001_0010);
}

#[test]
fn partial_int_eof_leaves_state() {
    let mut src = ByteSource::new(vec![0x11]);
    let mut mask: u8 = 0b0011;
    assert_eq!(read_partial_int(&mut src, 4, &mut mask), Err(PackError::UnexpectedEof));
    assert_eq!(mask, 0b0011);
    assert_eq!(get_offset(&mut src), Ok(0));
}

#[test]
fn zlib_boundary_recovery() {
    let first = compress(b"the first object, long enough to matter");
    let second = compress(b"second");
    let mut data = first.clone();
    data.extend_from_slice(&second);
    let mut src = ByteSource::new(data);
    let text = read_zlib_stream_exact(&mut src, |d: &[u8]| Ok(d.to_vec())).unwrap();
    assert_eq!(text, b"the first object, long enough to matter".to_vec());
    assert_eq!(get_offset(&mut src), Ok(first.len() as u64));
    let marker: [u8; 1] = read_bytes(&mut src).unwrap();
    assert_eq!(marker[0], second[0]);
    assert_eq!(seek(&mut src, first.len() as u64), Ok(()));
    assert_eq!(read_zlib_block(&mut src), Ok(b"second".to_vec()));
    assert_eq!(get_offset(&mut src), Ok((first.len() + second.len()) as u64));
}

#[test]
fn zlib_consumer_failure_still_repositions() {
    let block = compress(b"abc");
    let mut data = block.clone();
    data.push(0x42);
    let mut src = ByteSource::new(data);
    let r: Result<(), PackError> =
        read_zlib_stream_exact(&mut src, |_d: &[u8]| Err(PackError::MalformedEncoding));
    assert_eq!(r, Err(PackError::MalformedEncoding));
    let next: [u8; 1] = read_bytes(&mut src).unwrap();
    assert_eq!(next[0], 0x42);
}

#[test]
fn zlib_corrupt_block_is_io_failure() {
    let mut src = ByteSource::new(vec![0x00, 0x01, 0x02, 0x03]);
    assert_eq!(read_zlib_block(&mut src), Err(PackError::IoFailure));
    assert_eq!(get_offset(&mut src), Ok(0));
}

#[test]
fn seek_moves_cursor() {
    let mut src = ByteSource::new(vec![1, 2, 3]);
    assert_eq!(seek(&mut src, 2), Ok(()));
    let b: [u8; 1] = read_bytes(&mut src).unwrap();
    assert_eq!(b, [3]);
    assert_eq!(seek(&mut src, 10), Ok(()));
    assert_eq!(get_offset(&mut src), Ok(10));
    assert_eq!(src.remaining().len(), 0);
}
