use repak::{Error, IoError, Reader};
use repak::bytes::{put_bool, put_slice, put_u128, put_u32, put_u64, same_bytes};

#[test]
fn numbers_are_stored_least_significant_byte_first() {
    let mut out = vec![];
    put_u32(&mut out, 0x0403_0201);
    put_u64(&mut out, 0x0c0b_0a09_0807_0605);
    put_u128(&mut out, 0x1c1b_1a19_1817_1615_1413_1211_100f_0e0d);
    put_bool(&mut out, true);
    put_slice(&mut out, &[0, 9]);
    let mut expected: Vec<u8> = (1..=28).collect();
    expected.extend_from_slice(&[1, 0, 9]);
    assert_eq!(out, expected);

    let mut reader = Reader::new(&out);
    assert_eq!(reader.read_u32().unwrap(), 0x0403_0201);
    assert_eq!(reader.read_u64().unwrap(), 0x0c0b_0a09_0807_0605);
    assert_eq!(reader.read_u128().unwrap(), 0x1c1b_1a19_1817_1615_1413_1211_100f_0e0d);
    assert!(reader.read_bool().unwrap());
    assert!(!reader.read_bool().unwrap());
    assert!(matches!(reader.read_bool(), Err(Error::Bool(9))));
    assert!(matches!(reader.read_u8(), Err(Error::Io(IoError::UnexpectedEof))));
}

#[test]
fn a_position_may_lie_past_the_end() {
    let data = [1u8, 2, 3];
    let mut reader = Reader::new(&data);
    reader.seek(2);
    assert_eq!(reader.read_len(1).unwrap(), [3]);
    assert_eq!(reader.pos, 3);
    reader.seek(u64::MAX);
    assert_eq!(reader.read_len(0).unwrap(), [0u8; 0]);
    assert!(matches!(reader.read_len(1), Err(Error::Io(IoError::UnexpectedEof))));
    reader.seek(1);
    assert!(matches!(reader.read_guid(), Err(Error::Io(IoError::UnexpectedEof))));
}

#[test]
fn byte_strings_are_compared_whole() {
    assert!(same_bytes(b"", b""));
    assert!(same_bytes(b"ab", b"ab"));
    assert!(!same_bytes(b"ab", b"abc"));
    assert!(!same_bytes(b"abd", b"abc"));
}
