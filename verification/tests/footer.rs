use repak::{Compression, Error, Footer, IoError, Reader, Version, VersionMajor, MAGIC};
use repak::footer::algo_count;

fn footer(version: Version, compression: Vec<Option<Compression>>) -> Footer {
    Footer {
        encryption_uuid: None,
        encrypted: false,
        magic: MAGIC,
        version,
        version_major: version.version_major(),
        index_offset: 0x1122_3344_5566,
        index_size: 77,
        hash: [9; 20],
        frozen: false,
        compression,
    }
}

fn bytes_of(footer: &Footer) -> Vec<u8> {
    let mut buf = vec![];
    footer.write(&mut buf).unwrap();
    buf
}

const ALL: [Version; 13] = [
    Version::V0,
    Version::V1,
    Version::V2,
    Version::V3,
    Version::V4,
    Version::V5,
    Version::V6,
    Version::V7,
    Version::V8A,
    Version::V8B,
    Version::V9,
    Version::V10,
    Version::V11,
];

/// A legacy pak stores no compression method names, so reading fills in a list that is indexed by
/// flag value minus one.
#[test]
fn read_fills_in_legacy_compression_flags_indexed_by_flag_value() {
    let footer = Footer {
        encryption_uuid: None,
        encrypted: false,
        magic: MAGIC,
        version: Version::V3,
        version_major: VersionMajor::CompressionEncryption,
        index_offset: 0,
        index_size: 0,
        hash: [0; 20],
        frozen: false,
        compression: vec![],
    };

    let mut buf = vec![];
    footer.write(&mut buf).unwrap();
    let read_back = Footer::read(&mut Reader::new(&buf), Version::V3).unwrap();

    assert_eq!(
        read_back.compression,
        vec![
            Some(Compression::Zlib), // 0x01
            Some(Compression::Gzip), // 0x02
            None,                    // 0x03 (both) is not a real codec
            Some(Compression::Oodle) // 0x04 custom - Oodle in practice
        ]
    );
}

#[test]
fn a_footer_is_read_back_in_every_version() {
    let sizes = [44, 44, 44, 44, 45, 45, 45, 61, 189, 221, 222, 221, 221];
    for (version, size) in ALL.into_iter().zip(sizes) {
        let methods = vec![Some(Compression::Oodle), None, Some(Compression::LZ4)];
        let mut written = footer(version, methods.clone());
        written.encrypted = version.version_major() >= VersionMajor::IndexEncryption;
        written.frozen = version == Version::V9;
        let mut buf = bytes_of(&written);
        assert_eq!(buf.len(), size);
        buf.push(1);
        let mut reader = Reader::new(&buf);
        let read = Footer::read(&mut reader, version).unwrap();
        assert_eq!(reader.pos, size as u64);
        assert_eq!(read.encrypted, written.encrypted);
        assert_eq!(read.frozen, written.frozen);
        assert_eq!(read.magic, MAGIC);
        assert_eq!(read.version, version);
        assert_eq!(read.version_major, version.version_major());
        assert_eq!(read.index_offset, 0x1122_3344_5566);
        assert_eq!(read.index_size, 77);
        assert_eq!(read.hash, [9; 20]);
        assert_eq!(read.encryption_uuid.is_some(), version >= Version::V7);
        if version >= Version::V8A {
            let mut expected = methods;
            expected.resize(algo_count(version), None);
            assert_eq!(read.compression, expected);
        }
    }
}

#[test]
fn the_bytes_of_a_footer() {
    let mut written = footer(Version::V8A, vec![Some(Compression::Zlib), None]);
    written.encryption_uuid = Some(5);
    written.encrypted = true;
    let buf = bytes_of(&written);
    assert_eq!(&buf[..16], &[0; 16]);
    assert_eq!(buf[16], 1);
    assert_eq!(&buf[17..21], &[0xE1, 0x12, 0x6F, 0x5A]);
    assert_eq!(&buf[21..25], &[8, 0, 0, 0]);
    assert_eq!(&buf[25..33], &[0x66, 0x55, 0x44, 0x33, 0x22, 0x11, 0, 0]);
    assert_eq!(&buf[33..41], &[77, 0, 0, 0, 0, 0, 0, 0]);
    assert_eq!(&buf[41..61], &[9; 20]);
    assert_eq!(&buf[61..67], b"Zlib\0\0");
    assert_eq!(&buf[93..], &[0; 96]);
}

#[test]
fn names_are_found_between_zero_bytes_and_others_are_none() {
    let mut buf = bytes_of(&footer(Version::V8B, vec![]));
    buf[61] = 0;
    buf[62..66].copy_from_slice(b"Gzip");
    buf[93..97].copy_from_slice(b"Z\0st");
    buf[99] = b'd';
    buf[125..129].copy_from_slice(b"zlib");
    buf[157] = 0xff;
    buf[189..194].copy_from_slice(b"Oodle");
    let read = Footer::read(&mut Reader::new(&buf), Version::V8B).unwrap();
    assert_eq!(
        read.compression,
        vec![Some(Compression::Gzip), Some(Compression::Zstd), None, None, Some(Compression::Oodle)]
    );
}

#[test]
fn a_footer_cut_short_is_an_error() {
    for version in ALL {
        let buf = bytes_of(&footer(version, vec![]));
        for len in [0, 10, buf.len() - 1] {
            let r = Footer::read(&mut Reader::new(&buf[..len]), version);
            assert!(matches!(r, Err(Error::Io(IoError::UnexpectedEof))));
        }
    }
}

#[test]
fn a_flag_must_be_zero_or_one() {
    let mut buf = bytes_of(&footer(Version::V9, vec![]));
    buf[16] = 2;
    assert!(matches!(Footer::read(&mut Reader::new(&buf), Version::V9), Err(Error::Bool(2))));
    // the flag is looked at before the rest is
    assert!(matches!(Footer::read(&mut Reader::new(&buf[..17]), Version::V9), Err(Error::Bool(2))));
    buf[16] = 1;
    buf[61] = 7;
    buf[17] = 0;
    assert!(matches!(Footer::read(&mut Reader::new(&buf), Version::V9), Err(Error::Bool(7))));
}

#[test]
fn another_magic_number_is_an_error() {
    let mut written = footer(Version::V11, vec![]);
    written.magic = 0xDEAD_BEEF;
    written.version_major = VersionMajor::PathHashIndex;
    let r = Footer::read(&mut Reader::new(&bytes_of(&written)), Version::V11);
    assert!(matches!(r, Err(Error::Magic(0xDEAD_BEEF))));
}

#[test]
fn another_version_is_an_error_and_an_unknown_number_is_not() {
    let mut buf = bytes_of(&footer(Version::V11, vec![]));
    buf[21] = 10;
    assert!(matches!(
        Footer::read(&mut Reader::new(&buf), Version::V11),
        Err(Error::Version {
            used: VersionMajor::Fnv64BugFix,
            version: VersionMajor::PathHashIndex
        })
    ));
    buf[21] = 12;
    let read = Footer::read(&mut Reader::new(&buf), Version::V11).unwrap();
    assert_eq!(read.version_major, VersionMajor::Fnv64BugFix);
}

#[test]
fn methods_beyond_the_room_are_left_out() {
    let methods = vec![Some(Compression::Zstd); 7];
    let buf = bytes_of(&footer(Version::V8A, methods));
    let read = Footer::read(&mut Reader::new(&buf), Version::V8A).unwrap();
    assert_eq!(read.compression, vec![Some(Compression::Zstd); 4]);
}

#[test]
fn versions_and_their_numbers() {
    for number in 0..12 {
        assert_eq!(VersionMajor::from_repr(number).unwrap().repr(), number);
    }
    assert!(VersionMajor::from_repr(12).is_none());
    assert!(Version::V8B.version_major() == VersionMajor::FNameBasedCompression);
    assert!(Version::V8B.version_major().at_least(VersionMajor::EncryptionKeyGuid));
    assert!(!Version::V0.version_major().at_least(VersionMajor::Initial));
    assert!(Version::V8A.rank() < Version::V8B.rank());
    assert_eq!(Compression::from_name(b"LZ4"), Some(Compression::LZ4));
    assert_eq!(Compression::from_name(b"lz4"), None);
    assert_eq!(Compression::Oodle.name(), "Oodle");
}

#[test]
fn the_number_of_the_key_is_read_but_not_written() {
    let mut buf = bytes_of(&footer(Version::V7, vec![]));
    assert_eq!(&buf[..16], &[0; 16]);
    for i in 0..16 {
        buf[i] = i as u8 + 1;
    }
    let read = Footer::read(&mut Reader::new(&buf), Version::V7).unwrap();
    assert_eq!(read.encryption_uuid, Some(0x100f_0e0d_0c0b_0a09_0807_0605_0403_0201));
    assert_eq!(&bytes_of(&read)[..16], &[0; 16]);
}
