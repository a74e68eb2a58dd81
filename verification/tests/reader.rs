use nnue::parser::reader::{NNUEReader, ReadError};

fn block(payload: &[u8]) -> Vec<u8> {
    let mut bytes = b"COMPRESSED_LEB128".to_vec();
    bytes.extend((payload.len() as u32).to_le_bytes());
    bytes.extend(payload);
    bytes
}

#[test]
fn reads_positive_and_negative_values() {
    let bytes = block(&[0x05, 0x7b, 0xc7, 0x01, 0xb9, 0x7e]);
    let mut reader = NNUEReader::new(&bytes);
    assert_eq!(reader.read_leb128_i32(4).unwrap(), vec![5, -5, 199, -199]);
}

#[test]
fn reads_shared_i32_block() {
    let bytes = block(&[0x01, 0x7e, 0x03]);
    let mut reader = NNUEReader::new(&bytes);
    assert_eq!(
        reader.read_shared_leb128_i32(2, 1).unwrap(),
        (vec![1, -2], vec![3])
    );
}

#[test]
fn rejects_bad_magic() {
    let mut bytes = block(&[0]);
    bytes[0] = b'X';
    let mut reader = NNUEReader::new(&bytes);
    assert!(reader.read_leb128_i32(1).is_err());
}

#[test]
fn rejects_leftover_payload() {
    let bytes = block(&[1, 2]);
    let mut reader = NNUEReader::new(&bytes);
    assert!(reader.read_leb128_i16(1).is_err());
}

#[test]
fn rejects_malformed_overlong_leb128() {
    let bytes = block(&[0x80, 0x80, 0x80, 0x80, 0x80]);
    let mut reader = NNUEReader::new(&bytes);
    assert!(reader.read_leb128_i32(1).is_err());
}

#[test]
fn decodes_i32_max_sleb128() {
    // i32::MAX = 0x7FFFFFFF → 5-byte SLEB128: FF FF FF FF 07
    let bytes = block(&[0xff, 0xff, 0xff, 0xff, 0x07]);
    let mut reader = NNUEReader::new(&bytes);
    assert_eq!(reader.read_leb128_i32(1).unwrap(), vec![i32::MAX]);
}

#[test]
fn decodes_i32_min_sleb128() {
    // i32::MIN = -2147483648 → 5-byte SLEB128: 80 80 80 80 78
    let bytes = block(&[0x80, 0x80, 0x80, 0x80, 0x78]);
    let mut reader = NNUEReader::new(&bytes);
    assert_eq!(reader.read_leb128_i32(1).unwrap(), vec![i32::MIN]);
}

#[test]
fn rejects_eof_while_reading_block() {
    let bytes = b"COMPRESSED_LEB128";
    let mut reader = NNUEReader::new(bytes);
    assert!(reader.read_leb128_i32(0).is_err());
}

#[test]
fn finish_rejects_trailing_bytes() {
    let bytes = [1, 2, 3];
    let reader = NNUEReader::new(&bytes);
    assert!(reader.finish().is_err());
}

#[test]
fn finish_accepts_consumed_bytes() {
    let bytes = [1, 2, 3];
    let mut reader = NNUEReader::new(&bytes);
    reader.read_bytes(3).unwrap();
    assert!(reader.finish().is_ok());
}

#[test]
fn reports_the_kind_of_each_failure() {
    let bad_magic = {
        let mut bytes = block(&[0]);
        bytes[3] = b'Q';
        bytes
    };
    assert_eq!(
        NNUEReader::new(&bad_magic).read_leb128_i32(1),
        Err(ReadError::InvalidLeb128Magic)
    );
    assert_eq!(
        NNUEReader::new(&block(&[0x80])).read_leb128_i32(1),
        Err(ReadError::TruncatedLeb128)
    );
    assert_eq!(
        NNUEReader::new(&block(&[0x80, 0x80, 0x80, 0x80, 0x80, 0x00])).read_leb128_i32(1),
        Err(ReadError::OverlongLeb128)
    );
    assert_eq!(
        NNUEReader::new(&block(&[0xff, 0xff, 0xff, 0xff, 0x0f])).read_leb128_i32(1),
        Err(ReadError::MalformedLeb128)
    );
    assert_eq!(
        NNUEReader::new(&block(&[0x80, 0x80, 0x80, 0x80, 0x77])).read_leb128_i32(1),
        Err(ReadError::MalformedLeb128)
    );
    assert_eq!(
        NNUEReader::new(&block(&[0x80, 0x80, 0x02])).read_leb128_i16(1),
        Err(ReadError::OutOfI16Range)
    );
    assert_eq!(
        NNUEReader::new(&block(&[1, 2, 3])).read_leb128_i16(1),
        Err(ReadError::LeftoverPayload(2))
    );
    assert_eq!(
        NNUEReader::new(&block(&[1, 2, 3, 4])).read_shared_leb128_i32(1, 1),
        Err(ReadError::LeftoverPayload(2))
    );
    assert_eq!(NNUEReader::new(&[1, 2, 3]).read_u32(), Err(ReadError::UnexpectedEof));
    assert_eq!(NNUEReader::new(&[1, 2, 3]).finish(), Err(ReadError::TrailingBytes(3)));
    let mut reader = NNUEReader::new(&[1, 2, 3]);
    reader.read_i8().unwrap();
    assert_eq!(reader.read_bytes(usize::MAX), Err(ReadError::LengthOverflow));
}

#[test]
fn block_length_is_checked_against_the_bytes_left() {
    let mut bytes = block(&[1, 2]);
    bytes.pop();
    assert_eq!(NNUEReader::new(&bytes).read_leb128_i32(2), Err(ReadError::UnexpectedEof));
}

#[test]
fn reads_little_endian_integers_and_raw_arrays() {
    let bytes = [
        0x78, 0x56, 0x34, 0x12, // u32
        0xff, // i8
        0xfe, 0xff, 0xff, 0xff, // i32
        0x01, 0x80, // i8 array
        0x01, 0x00, 0x00, 0x00, 0x00, 0x00, 0x00, 0x80, // i32 array
    ];
    let mut reader = NNUEReader::new(&bytes);
    assert_eq!(reader.read_u32(), Ok(0x1234_5678));
    assert_eq!(reader.read_i8(), Ok(-1));
    assert_eq!(reader.read_i32(), Ok(-2));
    assert_eq!(reader.read_i8_vec(2), Ok(vec![1, -128]));
    assert_eq!(reader.read_i32_vec(2), Ok(vec![1, i32::MIN]));
    assert_eq!(reader.finish(), Ok(()));
    assert_eq!(reader.read_i8_vec(1), Err(ReadError::UnexpectedEof));
    assert_eq!(reader.read_i32_vec(0), Ok(vec![]));
}

#[test]
fn reads_blocks_one_after_another() {
    let mut bytes = block(&[0x7f]);
    bytes.extend(block(&[0x80, 0x01, 0x00]));
    let mut reader = NNUEReader::new(&bytes);
    assert_eq!(reader.read_leb128_i16(1), Ok(vec![-1]));
    assert_eq!(reader.read_leb128_i16(2), Ok(vec![128, 0]));
    assert_eq!(reader.finish(), Ok(()));
}

#[test]
fn shared_block_splits_a_single_block() {
    let payload = [0x01, 0x7e, 0x03, 0xc7, 0x01, 0x40];
    let bytes = block(&payload);
    let whole = NNUEReader::new(&bytes).read_leb128_i32(5).unwrap();
    for first in 0..=5 {
        let (xs, ys) = NNUEReader::new(&bytes)
            .read_shared_leb128_i32(first, 5 - first)
            .unwrap();
        assert_eq!(xs, whole[..first].to_vec());
        assert_eq!(ys, whole[first..].to_vec());
    }
    assert_eq!(whole, vec![1, -2, 3, 199, -64]);
}

#[test]
fn i16_blocks_agree_with_i32_blocks_in_range() {
    let bytes = block(&[0xff, 0xff, 0x01, 0x80, 0x80, 0x7e]);
    let wide = NNUEReader::new(&bytes).read_leb128_i32(2).unwrap();
    let narrow = NNUEReader::new(&bytes).read_leb128_i16(2).unwrap();
    assert_eq!(wide, vec![i16::MAX as i32, i16::MIN as i32]);
    assert_eq!(narrow.iter().map(|&v| v as i32).collect::<Vec<_>>(), wide);
}
