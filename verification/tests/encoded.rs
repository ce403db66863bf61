use repak::{Block, Entry, Error, IoError, Reader, Version};
use repak::encoded::EncodedFields;

fn entry(slot: Option<u32>, blocks: Option<Vec<Block>>, flags: u8) -> Entry {
    Entry {
        offset: 0x1234,
        compressed: 100,
        uncompressed: if slot.is_some() { 500 } else { 100 },
        compression_slot: slot,
        timestamp: None,
        hash: None,
        blocks,
        flags,
        compression_block_size: 0x1_0000,
    }
}

fn bytes_of(entry: &Entry) -> Vec<u8> {
    let mut out = vec![];
    entry.write_encoded(&mut out).unwrap();
    out
}

fn read_back(entry: &Entry, version: Version) -> Entry {
    let mut buf = bytes_of(entry);
    let len = buf.len() as u64;
    buf.push(0xaa);
    let mut reader = Reader::new(&buf);
    let read = Entry::read_encoded(&mut reader, version).unwrap();
    assert_eq!(reader.pos, len);
    read
}

fn assert_same(a: &Entry, b: &Entry) {
    assert_eq!(a.offset, b.offset);
    assert_eq!(a.compressed, b.compressed);
    assert_eq!(a.uncompressed, b.uncompressed);
    assert_eq!(a.compression_slot, b.compression_slot);
    assert_eq!(a.blocks, b.blocks);
    assert_eq!(a.flags, b.flags);
    assert_eq!(a.compression_block_size, b.compression_block_size);
    assert_eq!(b.hash, None);
    assert_eq!(b.timestamp, None);
}

#[test]
fn a_single_block_is_read_back_from_the_compressed_size() {
    let base = Entry::get_serialized_size(Version::V11, Some(0), 1);
    let e = entry(Some(0), Some(vec![Block { start: base, end: base + 100 }]), 0);
    let buf = bytes_of(&e);
    // 0x20 units of block size, one block, slot code one, three short numbers
    let bits: u32 = 0x20 | 1 << 6 | 1 << 23 | 7 << 29;
    let mut expected = bits.to_le_bytes().to_vec();
    expected.extend_from_slice(&[0x34, 0x12, 0, 0, 0xf4, 1, 0, 0, 100, 0, 0, 0]);
    assert_eq!(buf, expected);
    assert_same(&e, &read_back(&e, Version::V11));
}

#[test]
fn several_blocks_lie_one_behind_the_other() {
    let base = Entry::get_serialized_size(Version::V10, Some(3), 3);
    let blocks = vec![
        Block { start: base, end: base + 40 },
        Block { start: base + 40, end: base + 99 },
        Block { start: base + 99, end: base + 100 },
    ];
    let e = entry(Some(3), Some(blocks), 0);
    assert_eq!(bytes_of(&e).len(), 4 + 12 + 12);
    assert_same(&e, &read_back(&e, Version::V10));
}

#[test]
fn encrypted_blocks_start_at_cipher_blocks() {
    let base = Entry::get_serialized_size(Version::V10, Some(0), 2);
    let blocks = vec![
        Block { start: base, end: base + 33 },
        Block { start: base + 48, end: base + 115 },
    ];
    let e = entry(Some(0), Some(blocks), 1);
    assert_same(&e, &read_back(&e, Version::V10));
    let base = Entry::get_serialized_size(Version::V10, Some(0), 1);
    let e = entry(Some(0), Some(vec![Block { start: base, end: base + 7 }]), 1);
    assert_eq!(bytes_of(&e).len(), 4 + 12 + 4);
    assert_same(&e, &read_back(&e, Version::V10));
}

#[test]
fn without_compression_there_is_one_size() {
    let e = entry(None, None, 0);
    assert_eq!(bytes_of(&e).len(), 4 + 8);
    assert_same(&e, &read_back(&e, Version::V11));
    // a compressed size of its own is not kept
    let mut e = entry(None, None, 1);
    e.compressed = 112;
    let read = read_back(&e, Version::V11);
    assert_eq!(read.compressed, 100);
    assert_eq!(read.flags, 1);
}

#[test]
fn large_numbers_take_eight_bytes() {
    let base = Entry::get_serialized_size(Version::V11, Some(0x3e), 1);
    let mut e = entry(Some(0x3e), None, 0);
    e.offset = u32::MAX as u64 + 1;
    e.uncompressed = u64::MAX;
    e.compressed = 1 << 40;
    e.blocks = Some(vec![Block { start: base, end: base + (1 << 40) }]);
    e.compression_block_size = 126_977;
    assert_eq!(bytes_of(&e).len(), 4 + 4 + 24);
    assert_same(&e, &read_back(&e, Version::V11));
    e.offset = u32::MAX as u64;
    e.compression_block_size = 0x3e << 11;
    assert_eq!(bytes_of(&e).len(), 4 + 4 + 16);
    assert_same(&e, &read_back(&e, Version::V11));
    // the largest size that the field can tell is stored apart, since it marks that
    e.compression_block_size = 0x3f << 11;
    assert_eq!(bytes_of(&e).len(), 4 + 4 + 4 + 16);
    assert_same(&e, &read_back(&e, Version::V11));
}

#[test]
fn a_packed_header_cut_short_is_an_error() {
    let base = Entry::get_serialized_size(Version::V10, Some(0), 2);
    let blocks = vec![
        Block { start: base, end: base + 40 },
        Block { start: base + 40, end: base + 100 },
    ];
    let mut e = entry(Some(0), Some(blocks), 0);
    e.compression_block_size = 1;
    let buf = bytes_of(&e);
    for len in 0..buf.len() {
        let r = Entry::read_encoded(&mut Reader::new(&buf[..len]), Version::V10);
        assert!(matches!(r, Err(Error::Io(IoError::UnexpectedEof))));
    }
}

#[test]
fn the_end_of_a_block_has_to_fit() {
    let bits: u32 = 1 << 6 | 1 << 23 | 3 << 30;
    let mut buf = bits.to_le_bytes().to_vec();
    buf.extend_from_slice(&[0; 8]);
    buf.extend_from_slice(&u64::MAX.to_le_bytes());
    let fields = EncodedFields::read(&mut Reader::new(&buf)).unwrap();
    assert_eq!(fields.block_count(), 1);
    assert_eq!(fields.compression_slot(), Some(0));
    assert!(!fields.encrypted());
    assert!(!fields.addressable(Version::V11));
    let fits = EncodedFields { compressed: u64::MAX - 1000, ..fields };
    assert!(fits.addressable(Version::V11));
}

#[test]
fn blocks_without_a_slot_are_read_all_the_same() {
    // two blocks, no slot
    let bits: u32 = 2 << 6 | 3 << 30;
    let mut buf = bits.to_le_bytes().to_vec();
    buf.extend_from_slice(&[1, 0, 0, 0, 9, 0, 0, 0, 4, 0, 0, 0, 5, 0, 0, 0]);
    let e = Entry::read_encoded(&mut Reader::new(&buf), Version::V11).unwrap();
    let base = Entry::get_serialized_size(Version::V11, None, 2);
    assert_eq!(
        e.blocks,
        Some(vec![
            Block { start: base, end: base + 4 },
            Block { start: base + 4, end: base + 9 }
        ])
    );
    assert_eq!((e.offset, e.uncompressed, e.compressed), (1, 9, 9));
}
