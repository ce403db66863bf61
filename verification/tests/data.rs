use repak::{
    Block, Compression, EncryptionContext, EncryptionPlan, Entry, EntryLocation, Error, IoError,
    Key, PakVariant, PartialEntry, Reader, Version,
};
use repak::cipher::decrypt;
use repak::codec::compress;
use repak::data::{
    build_partial_entry, gather, get_compression_slot, pad_length, pad_zeros_to_alignment, protect,
    PartialBlock, PartialEntryData, COMPRESSION_BLOCK_SIZE,
};

const MOUNT: &str = "../../../A/";
const PATH: &str = "b.uasset"; // the encrypted prefix is 1856 bytes long

fn context(key: &Key, variant: PakVariant) -> EncryptionContext<'_> {
    EncryptionContext { key, variant, mount_point: MOUNT, path: PATH }
}

fn no_oodle(_: &[u8]) -> Result<Vec<u8>, Error> {
    Err(Error::OodleFailed)
}

fn build<'a>(
    allowed: &[Compression],
    key: &Key,
    variant: PakVariant,
    version: Version,
    data: &'a [u8],
) -> PartialEntry<'a> {
    build_partial_entry(allowed, context(key, variant), version, data, &no_oodle).unwrap()
}

fn sample(len: usize) -> Vec<u8> {
    (0..len).map(|i| ((i * i / 7 + i / 300) % 253) as u8).collect()
}

fn read_back(
    e: &Entry,
    file: &[u8],
    version: Version,
    slots: &[Option<Compression>],
    key: &Key,
) -> Result<Vec<u8>, Error> {
    let mut out = vec![];
    let raw = |_: &[u8], _: Vec<u8>| -> Option<Vec<u8>> { None };
    let oodle = None::<&fn(&[u8], Vec<u8>) -> (usize, Vec<u8>)>;
    let mut reader = Reader::new(file);
    e.try_read_file(&mut reader, version, slots, key, oodle, &raw, &mut out).unwrap()?;
    Ok(out)
}

#[test]
fn padding() {
    assert_eq!(pad_length(0, 16), 0);
    assert_eq!(pad_length(1, 16), 16);
    assert_eq!(pad_length(16, 16), 16);
    assert_eq!(pad_length(17, 16), 32);
    assert_eq!(pad_length(10, 3), 12);
    let mut v = vec![1, 2, 3];
    pad_zeros_to_alignment(&mut v, 4);
    assert_eq!(v, [1, 2, 3, 0]);
    pad_zeros_to_alignment(&mut v, 4);
    assert_eq!(v, [1, 2, 3, 0]);
}

#[test]
fn a_method_gets_its_slot_or_a_free_one_or_a_new_one() {
    let mut slots = vec![Some(Compression::Zlib), None, Some(Compression::Oodle), None];
    assert_eq!(get_compression_slot(Version::V11, &mut slots, Compression::Oodle).unwrap(), 2);
    assert_eq!(slots, [Some(Compression::Zlib), None, Some(Compression::Oodle), None]);
    assert_eq!(get_compression_slot(Version::V11, &mut slots, Compression::Zstd).unwrap(), 1);
    assert_eq!(slots[1], Some(Compression::Zstd));
    assert_eq!(get_compression_slot(Version::V11, &mut slots, Compression::LZ4).unwrap(), 3);
    assert_eq!(get_compression_slot(Version::V11, &mut slots, Compression::Gzip).unwrap(), 4);
    let before = slots.clone();
    for (i, method) in before.iter().enumerate() {
        let slot = get_compression_slot(Version::V11, &mut slots, method.unwrap()).unwrap();
        assert_eq!(slot, i as u32);
    }
    assert_eq!(slots, before);
}

#[test]
fn older_archives_have_fixed_slots() {
    let mut slots = vec![Some(Compression::Zlib), None];
    let r = get_compression_slot(Version::V7, &mut slots, Compression::Zstd);
    assert!(matches!(
        r,
        Err(Error::Other(text))
            if text == "cannot use Zstd prior to FNameBasedCompression (pak version 8)"
    ));
    assert_eq!(slots, [Some(Compression::Zlib), None]);
    assert_eq!(get_compression_slot(Version::V7, &mut slots, Compression::Zlib).unwrap(), 0);
    assert_eq!(get_compression_slot(Version::V8A, &mut slots, Compression::Zstd).unwrap(), 1);
}

#[test]
fn plain_data_is_kept_and_hashed() {
    let p = build(&[], &Key::None, PakVariant::Standard, Version::V11, b"hello");
    assert!(matches!(p.data, PartialEntryData::Slice(b"hello")));
    assert_eq!(p.compression, None);
    assert_eq!((p.compressed_size, p.uncompressed_size), (5, 5));
    assert_eq!(p.compression_block_size, 0);
    assert!(!p.encrypted);
    // SHA-1 of "hello"
    assert_eq!(
        p.hash.0,
        [
            0xaa, 0xf4, 0xc6, 0x1d, 0xdc, 0xc5, 0xe8, 0xa2, 0xda, 0xbe, 0xde, 0x0f, 0x3b, 0x48,
            0x2c, 0xd9, 0xae, 0xa9, 0x43, 0x4d
        ]
    );
}

#[test]
fn empty_data_is_not_compressed() {
    let p = build(&[Compression::Zlib], &Key::None, PakVariant::Standard, Version::V11, b"");
    assert_eq!(p.compression, None);
    assert!(matches!(p.data, PartialEntryData::Slice(b"")));
    let mut slots = vec![];
    let e = p.build_entry(Version::V11, &mut slots, 0).unwrap();
    assert_eq!(e.blocks, None);
    assert!(slots.is_empty());
}

#[test]
fn data_is_compressed_block_by_block_and_hashed_afterwards() {
    let size = COMPRESSION_BLOCK_SIZE as usize;
    assert_eq!(size, 0x3e << 11);
    let data = sample(2 * size + 5);
    let methods = [Compression::Zlib, Compression::Gzip, Compression::Zstd, Compression::LZ4];
    for method in methods {
        let p = build(&[method], &Key::None, PakVariant::Standard, Version::V11, &data);
        assert_eq!(p.compression, Some(method));
        assert_eq!(p.compression_block_size, COMPRESSION_BLOCK_SIZE);
        assert_eq!(p.uncompressed_size, data.len() as u64);
        assert_eq!(p.compressed_size, p.data.as_bytes().len() as u64);
        let PartialEntryData::Blocks { data: packed, blocks } = &p.data else {
            panic!("compressed data is held in blocks");
        };
        assert_eq!(blocks.len(), 3);
        assert_eq!(
            blocks.iter().map(|b| b.uncompressed_size).collect::<Vec<_>>(),
            [size, size, 5]
        );
        assert_eq!(blocks.iter().map(|b| b.compressed_size).sum::<usize>(), packed.len());
        let plain = build(&[], &Key::None, PakVariant::Standard, Version::V11, packed);
        assert_eq!(p.hash, plain.hash);
    }
}

#[test]
fn a_partial_entry_is_read_back_from_the_archive() {
    let size = COMPRESSION_BLOCK_SIZE as usize;
    let allowed: [&[Compression]; 5] = [
        &[],
        &[Compression::Zlib],
        &[Compression::Gzip, Compression::Zlib],
        &[Compression::Zstd],
        &[Compression::LZ4],
    ];
    for allowed in allowed {
        for len in [0, 1, 1000, size, size + 1, 3 * size + 17] {
            for version in [Version::V3, Version::V5, Version::V8A, Version::V11] {
                let data = sample(len);
                let p = build(allowed, &Key::None, PakVariant::Standard, version, &data);
                let mut slots =
                    vec![Some(Compression::Zstd), Some(Compression::Zlib), Some(Compression::LZ4)];
                slots.push(Some(Compression::Gzip));
                let mut file = vec![0xcc; 31];
                let e = p.build_entry(version, &mut slots, 31).unwrap();
                e.write(&mut file, version, EntryLocation::Data).unwrap();
                p.write_data(&mut file).unwrap();
                file.extend_from_slice(&[0xdd; 5]);
                assert_eq!(read_back(&e, &file, version, &slots, &Key::None).unwrap(), data);

                // the same from the header in the index
                let mut index = vec![];
                e.write(&mut index, version, EntryLocation::Index).unwrap();
                let listed = Entry::read(&mut Reader::new(&index), version).unwrap();
                assert_eq!(read_back(&listed, &file, version, &slots, &Key::None).unwrap(), data);
                if version >= Version::V5 {
                    let mut index = vec![];
                    e.write_encoded(&mut index).unwrap();
                    let mut reader = Reader::new(&index);
                    let listed = Entry::read_encoded(&mut reader, version).unwrap();
                    let read = read_back(&listed, &file, version, &slots, &Key::None).unwrap();
                    assert_eq!(read, data);
                }
            }
        }
    }
}

#[test]
fn blocks_are_placed_behind_the_header() {
    let data = sample(COMPRESSION_BLOCK_SIZE as usize + 1);
    let p = build(&[Compression::Zlib], &Key::None, PakVariant::Standard, Version::V4, &data);
    let PartialEntryData::Blocks { blocks, .. } = &p.data else {
        panic!("compressed data is held in blocks");
    };
    let (a, b) = (blocks[0].compressed_size as u64, blocks[1].compressed_size as u64);
    let mut slots = vec![Some(Compression::Zlib)];
    let header = Entry::get_serialized_size(Version::V5, Some(0), 2);
    let relative = p.build_entry(Version::V5, &mut slots, 1000).unwrap();
    assert_eq!(
        relative.blocks,
        Some(vec![
            Block { start: header, end: header + a },
            Block { start: header + a, end: header + a + b }
        ])
    );
    let absolute = p.build_entry(Version::V4, &mut slots, 1000).unwrap();
    assert_eq!(absolute.blocks.unwrap()[0].start, 1000 + header);
    assert_eq!(absolute.offset, 1000);
    assert_eq!(absolute.compressed, a + b);
    assert_eq!(absolute.hash, Some(p.hash.0));
}

#[test]
fn a_prefix_of_the_data_is_encrypted() {
    let key = Key::Some([3; 32]);
    let data = sample(5000);
    let p = build(&[], &key, PakVariant::MarvelRivals, Version::V11, &data);
    assert!(p.encrypted);
    assert_eq!(p.compressed_size, 5000);
    let mut bytes = p.data.as_bytes().to_vec();
    assert_ne!(bytes[..1856], data[..1856]);
    assert_eq!(bytes[1856..], data[1856..]);
    decrypt(PakVariant::MarvelRivals, &key, &mut bytes[..1856]).unwrap();
    assert_eq!(bytes, data);
    let mut slots = vec![];
    let e = p.build_entry(Version::V11, &mut slots, 0).unwrap();
    assert_eq!(e.flags, 1);
    assert_eq!(e.blocks, None);
}

#[test]
fn short_data_grows_where_it_may() {
    let key = Key::Some([3; 32]);
    let data = sample(100);
    let p = build(&[], &key, PakVariant::MarvelRivals, Version::V9, &data);
    assert_eq!((p.compressed_size, p.uncompressed_size), (112, 100));
    let mut bytes = p.data.as_bytes().to_vec();
    decrypt(PakVariant::MarvelRivals, &key, &mut bytes).unwrap();
    assert_eq!(bytes[..100], data[..]);
    assert_eq!(bytes[100..], [0; 12]);

    let p = build(&[], &key, PakVariant::MarvelRivals, Version::V10, &data);
    assert_eq!((p.compressed_size, p.uncompressed_size), (100, 100));
    assert_eq!(p.data.as_bytes()[96..], data[96..]);
    let p = build(&[], &key, PakVariant::MarvelRivals, Version::V10, &data[..15]);
    assert!(!p.encrypted);
    let p = build(&[Compression::Zlib], &key, PakVariant::MarvelRivals, Version::V10, &data);
    assert!(p.encrypted);
    assert_eq!(p.compressed_size % 16, 0);
}

#[test]
fn the_standard_variant_encrypts_nothing() {
    let key = Key::Some([3; 32]);
    let p = build(&[], &key, PakVariant::Standard, Version::V11, b"0123456789abcdef");
    assert!(!p.encrypted);
    assert_eq!(p.data.as_bytes(), b"0123456789abcdef");
    assert!(matches!(p.data, PartialEntryData::Blocks { .. }));
}

#[test]
fn the_oodle_compressor_is_handed_in() {
    let twice = |data: &[u8]| -> Result<Vec<u8>, Error> { Ok([data, data].concat()) };
    assert_eq!(compress(Compression::Oodle, b"ab", &twice).unwrap(), b"abab");
    let key = Key::None;
    let ctx = context(&key, PakVariant::Standard);
    let p = build_partial_entry(&[Compression::Oodle], ctx, Version::V11, b"ab", &twice).unwrap();
    assert_eq!(p.data.as_bytes(), b"abab");
    let r = build_partial_entry(&[Compression::Oodle], ctx, Version::V11, b"ab", &no_oodle);
    assert!(matches!(r, Err(Error::OodleFailed)));
    assert_ne!(compress(Compression::Zlib, b"ab", &twice).unwrap(), b"abab");
}

#[test]
fn the_end_of_the_last_block_has_to_fit() {
    let data = sample(100);
    let p = build(&[Compression::Zlib], &Key::None, PakVariant::Standard, Version::V4, &data);
    let slots = vec![Some(Compression::Zlib)];
    let end = Entry::get_serialized_size(Version::V4, Some(0), 1) + p.compressed_size;
    assert!(p.is_placeable(Version::V4, &slots, u64::MAX - end));
    assert!(!p.is_placeable(Version::V4, &slots, u64::MAX - end + 1));
    // since version 5 blocks are counted from the header
    assert!(p.is_placeable(Version::V5, &slots, u64::MAX));
}

#[test]
fn compressed_blocks_are_gathered() {
    let size = COMPRESSION_BLOCK_SIZE as usize;
    let data = vec![0; size + 7];
    let (concatenated, blocks) = gather(&vec![vec![1, 2, 3], vec![4]], &data);
    assert_eq!(concatenated, [1, 2, 3, 4]);
    assert_eq!(
        blocks,
        [
            PartialBlock { uncompressed_size: size, compressed_size: 3 },
            PartialBlock { uncompressed_size: 7, compressed_size: 1 }
        ]
    );
}

#[test]
fn a_planned_prefix_is_encrypted_and_restored() {
    let key = [5; 32];
    let plan = EncryptionPlan { final_len: 40, encrypted_len: 32 };
    let mut buf = sample(37);
    assert!(protect(PakVariant::MarvelRivals, &key, plan, &mut buf));
    assert_eq!(buf.len(), 40);
    assert_eq!(buf[32..37], sample(37)[32..]);
    assert_eq!(buf[37..], [0; 3]);
    decrypt(PakVariant::MarvelRivals, &Key::Some(key), &mut buf[..32]).unwrap();
    assert_eq!(buf[..37], sample(37)[..]);
    let plan = EncryptionPlan { final_len: 3, encrypted_len: 0 };
    let mut buf = vec![1, 2, 3];
    assert!(!protect(PakVariant::MarvelRivals, &key, plan, &mut buf));
    assert_eq!(buf, [1, 2, 3]);
}

#[test]
fn a_key_changes_nothing_in_the_standard_variant() {
    let data = sample(COMPRESSION_BLOCK_SIZE as usize + 300);
    let allowed: [&[Compression]; 4] =
        [&[], &[Compression::Zlib], &[Compression::Gzip], &[Compression::Zstd]];
    for allowed in allowed {
        let with = build(allowed, &Key::Some([3; 32]), PakVariant::Standard, Version::V9, &data);
        let without = build(allowed, &Key::None, PakVariant::Standard, Version::V9, &data);
        assert!(!with.encrypted && !without.encrypted);
        assert_eq!(with.data.as_bytes(), without.data.as_bytes());
        assert_eq!(with.hash, without.hash);
        assert_eq!(with.compression, without.compression);
        assert_eq!(with.compressed_size, without.compressed_size);
        assert_eq!(with.uncompressed_size, without.uncompressed_size);
        assert_eq!(with.compression_block_size, without.compression_block_size);
    }
}

#[test]
fn streams_are_made_at_their_levels() {
    let packed = |method| compress(method, &sample(1000), &no_oodle).unwrap();
    // the fastest level, in the header of a zlib stream and of a gzip member
    assert_eq!(&packed(Compression::Zlib)[..2], &[0x78, 0x01]);
    assert_eq!(&packed(Compression::Gzip)[..3], &[0x1f, 0x8b, 8]);
    assert_eq!(packed(Compression::Gzip)[8], 4);
    let default = zstd::stream::encode_all(&sample(1000)[..], 3).unwrap();
    assert_eq!(packed(Compression::Zstd), default);
}

fn read_in(
    e: &Entry,
    file: &[u8],
    version: Version,
    slots: &[Option<Compression>],
    ctx: EncryptionContext<'_>,
) -> Option<Result<Vec<u8>, Error>> {
    let mut out = vec![];
    let raw = |_: &[u8], _: Vec<u8>| -> Option<Vec<u8>> { None };
    let oodle = None::<&fn(&[u8], Vec<u8>) -> (usize, Vec<u8>)>;
    let mut reader = Reader::new(file);
    let r = e.read_file_in(&mut reader, version, slots, ctx, oodle, &raw, &mut out)?;
    Some(r.map(|_| out))
}

#[test]
fn a_protected_entry_is_read_back_in_its_context() {
    let size = COMPRESSION_BLOCK_SIZE as usize;
    let allowed: [&[Compression]; 5] = [
        &[],
        &[Compression::Zlib],
        &[Compression::Gzip],
        &[Compression::Zstd],
        &[Compression::LZ4],
    ];
    for allowed in allowed {
        for len in [0, 1, 100, 5000, size + 700] {
            for version in [Version::V8B, Version::V9, Version::V11] {
                for variant in [PakVariant::Standard, PakVariant::MarvelRivals] {
                    let data = sample(len);
                    let key = Key::Some([3; 32]);
                    let ctx = context(&key, variant);
                    let p = build(allowed, &key, variant, version, &data);
                    let mut slots = vec![];
                    let mut file = vec![0xcc; 9];
                    let e = p.build_entry(version, &mut slots, 9).unwrap();
                    e.write(&mut file, version, EntryLocation::Data).unwrap();
                    p.write_data(&mut file).unwrap();
                    file.extend_from_slice(&[0xdd; 15]);
                    let read = read_in(&e, &file, version, &slots, ctx).unwrap().unwrap();
                    assert_eq!(read[..len], data[..]);
                    // only what is not compressed may come back with the zeros it grew by
                    let grown = if allowed.is_empty() { p.compressed_size as usize } else { len };
                    assert_eq!(read.len(), grown);
                    assert!(read[len..].iter().all(|b| *b == 0));
                    if version >= Version::V10 {
                        assert_eq!(read.len(), len);
                    }
                    let without = context(&Key::None, variant);
                    let r = read_in(&e, &file, version, &slots, without).unwrap();
                    assert_eq!(matches!(r, Err(Error::Encrypted)), p.encrypted);
                }
            }
        }
    }
}

#[test]
fn reading_in_a_context_that_cannot_be_tried() {
    let key = Key::Some([3; 32]);
    let ctx = context(&key, PakVariant::MarvelRivals);
    let data = sample(100);
    let p = build(&[Compression::Zlib], &key, PakVariant::MarvelRivals, Version::V9, &data);
    let mut slots = vec![];
    let mut e = p.build_entry(Version::V9, &mut slots, 0).unwrap();
    let mut file = vec![];
    e.write(&mut file, Version::V9, EntryLocation::Data).unwrap();
    p.write_data(&mut file).unwrap();
    file.extend_from_slice(&[0; 15]);
    let r = read_in(&e, &file, Version::V9, &[], ctx).unwrap();
    assert!(matches!(r, Err(Error::UnknownCompressionSlot(0, 0))));
    let r = read_in(&e, &file[..60], Version::V9, &slots, ctx).unwrap();
    assert!(matches!(r, Err(Error::Io(IoError::UnexpectedEof))));
    e.blocks.as_mut().unwrap()[0].start = 0;
    assert!(read_in(&e, &file, Version::V9, &slots, ctx).is_none());
    e.compressed = u64::MAX;
    assert!(read_in(&e, &file, Version::V9, &slots, ctx).is_none());
}
