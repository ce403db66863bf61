use repak::{Block, Entry, EntryLocation, Error, IoError, Reader, Version};
use repak::entry::align;

fn entry(slot: Option<u32>, blocks: Option<Vec<Block>>) -> Entry {
    Entry {
        offset: 0x0102_0304_0506,
        compressed: 0x54,
        uncompressed: 0x99,
        compression_slot: slot,
        timestamp: None,
        hash: Some([7; 20]),
        blocks,
        flags: 1,
        compression_block_size: 0x1_0000,
    }
}

fn bytes_of(entry: &Entry, version: Version, location: EntryLocation) -> Vec<u8> {
    let mut out = vec![];
    entry.write(&mut out, version, location).unwrap();
    out
}

#[test]
fn test_entry() {
    let data = vec![
        0x00, 0x00, 0x00, 0x00, 0x00, 0x00, 0x00, 0x00, 0x54, 0x02, 0x00, 0x00, 0x00, 0x00, 0x00,
        0x00, 0x54, 0x02, 0x00, 0x00, 0x00, 0x00, 0x00, 0x00, 0x00, 0x00, 0x00, 0x00, 0x00, 0xDD,
        0x94, 0xFD, 0xC3, 0x5F, 0xF5, 0x91, 0xA9, 0x9A, 0x5E, 0x14, 0xDC, 0x9B, 0xD3, 0x58, 0x89,
        0x78, 0xA6, 0x1C, 0x00, 0x00, 0x00, 0x00, 0x00,
    ];
    let mut out = vec![];
    let entry = Entry::read(&mut Reader::new(&data), Version::V5).unwrap();
    entry.write(&mut out, Version::V5, EntryLocation::Data).unwrap();
    assert_eq!(&data, &out);
}

#[test]
fn a_header_is_read_back_in_every_version() {
    let versions = [
        (Version::V0, 48),
        (Version::V1, 56),
        (Version::V2, 48),
        (Version::V3, 89),
        (Version::V5, 89),
        (Version::V8A, 86),
        (Version::V8B, 89),
        (Version::V11, 89),
    ];
    for (version, size) in versions {
        let block = |start, end| Block { start, end };
        let written = entry(Some(2), Some(vec![block(89, 100), block(100, 0x77)]));
        let mut buf = bytes_of(&written, version, EntryLocation::Index);
        assert_eq!(buf.len(), size);
        buf.extend_from_slice(&[1, 2, 3]);
        let mut reader = Reader::new(&buf);
        let read = Entry::read(&mut reader, version).unwrap();
        assert_eq!(reader.pos, size as u64);
        assert_eq!(read.offset, written.offset);
        assert_eq!(read.compressed, 0x54);
        assert_eq!(read.uncompressed, 0x99);
        assert_eq!(read.compression_slot, Some(2));
        assert_eq!(read.hash, Some([7; 20]));
        assert_eq!(read.timestamp, if version == Version::V1 { Some(0) } else { None });
        if version >= Version::V3 {
            assert_eq!(read.blocks, written.blocks);
            assert_eq!(read.flags, 1);
            assert_eq!(read.compression_block_size, 0x1_0000);
        } else {
            assert_eq!(read.blocks, None);
            assert_eq!(read.flags, 0);
            assert_eq!(read.compression_block_size, 0);
        }
        let again = bytes_of(&read, version, EntryLocation::Index);
        assert_eq!(&again[..], &buf[..size]);
    }
}

#[test]
fn the_bytes_of_a_header() {
    let written = entry(Some(2), Some(vec![Block { start: 3, end: 4 }]));
    let buf = bytes_of(&written, Version::V8A, EntryLocation::Index);
    assert_eq!(&buf[..8], &[6, 5, 4, 3, 2, 1, 0, 0]);
    assert_eq!(&buf[8..16], &[0x54, 0, 0, 0, 0, 0, 0, 0]);
    assert_eq!(&buf[16..24], &[0x99, 0, 0, 0, 0, 0, 0, 0]);
    assert_eq!(buf[24], 3);
    assert_eq!(&buf[25..45], &[7; 20]);
    assert_eq!(&buf[45..49], &[1, 0, 0, 0]);
    assert_eq!(&buf[49..65], &[3, 0, 0, 0, 0, 0, 0, 0, 4, 0, 0, 0, 0, 0, 0, 0]);
    assert_eq!(&buf[65..], &[1, 0, 0, 1, 0]);
    let data = bytes_of(&written, Version::V8A, EntryLocation::Data);
    assert_eq!(&data[..8], &[0; 8]);
    assert_eq!(&data[8..], &buf[8..]);
}

#[test]
fn the_serialized_size_is_the_length_of_the_header() {
    for version in [Version::V3, Version::V4, Version::V7, Version::V8A, Version::V8B] {
        for count in [0u32, 1, 3] {
            let blocks = vec![Block { start: 1, end: 2 }; count as usize];
            let buf = bytes_of(&entry(Some(0), Some(blocks)), version, EntryLocation::Data);
            assert_eq!(Entry::get_serialized_size(version, Some(0), count), buf.len() as u64);
        }
        let buf = bytes_of(&entry(None, None), version, EntryLocation::Data);
        assert_eq!(Entry::get_serialized_size(version, None, 5), buf.len() as u64);
    }
    // older headers have neither flags nor blocks, which are counted all the same
    assert_eq!(Entry::get_serialized_size(Version::V2, None, 0), 49);
    assert_eq!(Entry::get_serialized_size(Version::V1, Some(0), 1), 77);
}

#[test]
fn a_header_cut_short_is_an_error() {
    for version in [Version::V1, Version::V5, Version::V8A] {
        let blocks = vec![Block { start: 1, end: 2 }; 2];
        let buf = bytes_of(&entry(Some(0), Some(blocks)), version, EntryLocation::Data);
        for len in 0..buf.len() {
            let r = Entry::read(&mut Reader::new(&buf[..len]), version);
            assert!(matches!(r, Err(Error::Io(IoError::UnexpectedEof))));
        }
        assert!(Entry::read(&mut Reader::new(&buf), version).is_ok());
    }
}

#[test]
fn flags_and_alignment() {
    let mut e = entry(None, None);
    assert!(e.is_encrypted() && !e.is_deleted());
    e.flags = 2;
    assert!(!e.is_encrypted() && e.is_deleted());
    e.flags = 0xff;
    assert!(e.is_encrypted() && e.is_deleted());
    e.flags = 0xfc;
    assert!(!e.is_encrypted() && !e.is_deleted());
    assert_eq!(align(0), 0);
    assert_eq!(align(1), 16);
    assert_eq!(align(16), 16);
    assert_eq!(align(17), 32);
}

#[test]
fn a_block_is_sixteen_bytes() {
    let mut out = vec![];
    Block { start: 0x0102, end: u64::MAX }.write(&mut out).unwrap();
    assert_eq!(out, [2, 1, 0, 0, 0, 0, 0, 0, 255, 255, 255, 255, 255, 255, 255, 255]);
    let mut reader = Reader::new(&out);
    assert_eq!(Block::read(&mut reader).unwrap(), Block { start: 0x0102, end: u64::MAX });
    assert!(matches!(Block::read(&mut reader), Err(Error::Io(IoError::UnexpectedEof))));
}
