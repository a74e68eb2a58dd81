use nnue::parser::reader::ReadError;
use nnue::parser::readers::NNUEReader;

#[test]
fn vec_reader_reads_u32_and_bytes_in_turn() {
    let bytes = vec![0x20, 0x2f, 0xf3, 0x7a, 1, 2, 3];
    let mut reader = NNUEReader::new(&bytes);
    assert_eq!(reader.read_u32(), Ok(0x7AF3_2F20));
    assert_eq!(reader.read_bytes(2), Ok(&[1u8, 2][..]));
    assert_eq!(reader.read_bytes(0), Ok(&[][..]));
    assert_eq!(reader.read_u32(), Err(ReadError::UnexpectedEof));
    assert_eq!(reader.read_bytes(1), Ok(&[3u8][..]));
    assert_eq!(reader.read_bytes(1), Err(ReadError::UnexpectedEof));
}

#[test]
fn vec_reader_reports_eof_on_short_input() {
    let bytes = vec![1, 2, 3];
    let mut reader = NNUEReader::new(&bytes);
    assert_eq!(reader.read_bytes(4), Err(ReadError::UnexpectedEof));
    assert_eq!(reader.read_u32(), Err(ReadError::UnexpectedEof));
    assert_eq!(reader.read_bytes(3), Ok(&[1u8, 2, 3][..]));
}
