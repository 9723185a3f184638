use git::error::PackError;
use git::source::ByteSource;
use git::varint::{
    read_offset_encoding, read_size_encoding, read_type_and_size, write_offset_encoding,
    write_size_encoding, write_type_and_size,
};

#[test]
fn offset_round_trip_boundaries() {
    let values: [u64; 9] = [0, 1, 127, 128, 16383, 16384, 0x4af, 1 << 63, u64::MAX];
    for v in values {
        let mut bytes = write_offset_encoding(v);
        bytes.push(0xAB);
        let len = bytes.len() as u64 - 1;
        let mut src = ByteSource::new(bytes);
        assert_eq!(read_offset_encoding(&mut src), Ok(v));
        assert_eq!(git::source::get_offset(&mut src), Ok(len));
    }
}

#[test]
fn offset_encoding_exact_bytes() {
    assert_eq!(write_offset_encoding(0), vec![0x00]);
    assert_eq!(write_offset_encoding(127), vec![0x7f]);
    assert_eq!(write_offset_encoding(128), vec![0x80, 0x00]);
    assert_eq!(write_offset_encoding(0x4af), vec![0x88, 0x2f]);
    assert_eq!(write_offset_encoding(16384), vec![0xff, 0x00]);
}

#[test]
fn offset_encoding_has_no_redundant_forms() {
    // [0x80, 0x00] is 128, not 0: each extra byte adds a disjoint range.
    let mut src = ByteSource::new(vec![0x80, 0x00]);
    assert_eq!(read_offset_encoding(&mut src), Ok(128));
}

#[test]
fn offset_decode_too_large_is_malformed() {
    let mut bytes = vec![0xff; 10];
    bytes.push(0x7f);
    let mut src = ByteSource::new(bytes);
    assert_eq!(read_offset_encoding(&mut src), Err(PackError::MalformedEncoding));
    assert_eq!(git::source::get_offset(&mut src), Ok(0));
}

#[test]
fn offset_decode_unterminated_is_eof() {
    let mut src = ByteSource::new(vec![0x81, 0x82]);
    assert_eq!(read_offset_encoding(&mut src), Err(PackError::UnexpectedEof));
    assert_eq!(git::source::get_offset(&mut src), Ok(0));
}

#[test]
fn size_encoding_exact_bytes() {
    assert_eq!(write_size_encoding(0), vec![0x00]);
    assert_eq!(write_size_encoding(127), vec![0x7f]);
    assert_eq!(write_size_encoding(128), vec![0x80, 0x01]);
    assert_eq!(write_size_encoding(300), vec![0xac, 0x02]);
}

#[test]
fn size_encoding_round_trip() {
    let values: [usize; 8] = [0, 1, 15, 16, 2047, 2048, 1 << 40, usize::MAX];
    for v in values {
        let mut src = ByteSource::new(write_size_encoding(v));
        assert_eq!(read_size_encoding(&mut src), Ok(v));
    }
}

#[test]
fn size_decode_accepts_redundant_trailing_zeros() {
    let mut src = ByteSource::new(vec![0x85, 0x80, 0x00]);
    assert_eq!(read_size_encoding(&mut src), Ok(5));
    assert_eq!(git::source::get_offset(&mut src), Ok(3));
}

#[test]
fn size_decode_too_large_is_malformed() {
    let mut bytes = vec![0xff; 10];
    bytes.push(0x01);
    let mut src = ByteSource::new(bytes);
    assert_eq!(read_size_encoding(&mut src), Err(PackError::MalformedEncoding));
}

#[test]
fn size_decode_unterminated_is_eof() {
    let mut src = ByteSource::new(vec![0x80]);
    assert_eq!(read_size_encoding(&mut src), Err(PackError::UnexpectedEof));
}

#[test]
fn type_and_size_round_trip() {
    let sizes: [usize; 7] = [0, 1, 15, 16, 2047, 2048, usize::MAX];
    for t in 0u8..8 {
        for s in sizes {
            let mut src = ByteSource::new(write_type_and_size(t, s));
            assert_eq!(read_type_and_size(&mut src), Ok((t, s)));
        }
    }
}

#[test]
fn type_and_size_example() {
    let bytes = write_type_and_size(3, 20);
    assert_eq!((bytes[0] >> 4) & 0x7, 3);
    assert_eq!(bytes[0] & 0xf, 20 & 0xf);
    assert_eq!(bytes, vec![0xb4, 0x01]);
    let mut src = ByteSource::new(bytes);
    assert_eq!(read_type_and_size(&mut src), Ok((3, 20)));
}

#[test]
fn type_and_size_empty_is_eof() {
    let mut src = ByteSource::new(vec![]);
    assert_eq!(read_type_and_size(&mut src), Err(PackError::UnexpectedEof));
}

#[test]
fn type_and_size_too_large_is_malformed() {
    let mut bytes = vec![0xff; 10];
    bytes.push(0x7f);
    let mut src = ByteSource::new(bytes);
    assert_eq!(read_type_and_size(&mut src), Err(PackError::MalformedEncoding));
    assert_eq!(git::source::get_offset(&mut src), Ok(0));
}

#[test]
fn packed_header_matches_type_and_size_encoding() {
    let sizes: [usize; 6] = [0, 1, 15, 16, 2047, 2048];
    for t in 0u8..8 {
        for s in sizes {
            let packed = (s & 0xf) | ((t as usize) << 4) | ((s >> 4) << 7);
            assert_eq!(write_size_encoding(packed), write_type_and_size(t, s));
        }
    }
}
