use repak::{
    Block, Compression, Entry, EntryLocation, Error, IoError, Key, PakVariant, Reader, Version,
};
use repak::blocks::{assemble, is_in_place, try_decode, Span};
use repak::cipher::encrypt;
use repak::codec::{encode, is_countable};

type OodleFn = fn(&[u8], Vec<u8>) -> (usize, Vec<u8>);

fn no_raw(_: &[u8], _: Vec<u8>) -> Option<Vec<u8>> {
    None
}

fn read(
    entry: &Entry,
    file: &[u8],
    version: Version,
    slots: &[Option<Compression>],
    key: &Key,
) -> Result<Vec<u8>, Error> {
    let mut out = vec![];
    let mut reader = Reader::new(file);
    entry
        .try_read_file(&mut reader, version, slots, key, None::<&OodleFn>, &no_raw, &mut out)
        .expect("the entry should be readable")?;
    Ok(out)
}

fn laid_out_well(
    entry: &Entry,
    file: &[u8],
    version: Version,
    slots: &[Option<Compression>],
) -> bool {
    entry.is_laid_out_well(&Reader::new(file), version, slots, &Key::None, true)
}

fn sample(len: usize) -> Vec<u8> {
    (0..len).map(|i| (i / 5 % 256) as u8).collect()
}

fn entry(
    compressed: u64,
    uncompressed: u64,
    slot: Option<u32>,
    blocks: Option<Vec<Block>>,
) -> Entry {
    Entry {
        offset: 0,
        compressed,
        uncompressed,
        compression_slot: slot,
        timestamp: None,
        hash: Some([0; 20]),
        blocks,
        flags: 0,
        compression_block_size: 0,
    }
}

/// A header and the payload behind it. The payload is split into blocks of these lengths.
fn place(
    version: Version,
    slot: u32,
    uncompressed: u64,
    block_size: u32,
    payload: &[u8],
    lengths: &[usize],
) -> (Entry, Vec<u8>) {
    let mut at = Entry::get_serialized_size(version, Some(slot), lengths.len() as u32);
    let mut blocks = vec![];
    for len in lengths {
        blocks.push(Block { start: at, end: at + *len as u64 });
        at += *len as u64;
    }
    let mut e = entry(payload.len() as u64, uncompressed, Some(slot), Some(blocks));
    e.compression_block_size = block_size;
    let mut file = vec![];
    e.write(&mut file, version, EntryLocation::Data).unwrap();
    file.extend_from_slice(payload);
    (e, file)
}

/// A compression slot beyond the archive's list must come back as an error.
#[test]
fn read_file_errors_instead_of_panicking_on_out_of_range_compression_slot() {
    let entry = Entry {
        offset: 0,
        compressed: 4,
        uncompressed: 4,
        compression_slot: Some(3),
        timestamp: None,
        hash: Some([0; 20]),
        blocks: Some(vec![]),
        flags: 0,
        compression_block_size: 0,
    };

    let mut header = vec![];
    entry.write(&mut header, Version::V3, EntryLocation::Data).unwrap();
    header.extend_from_slice(&[0u8; 4]); // the entry's own (irrelevant-to-this-test) payload bytes

    let compression = [Some(Compression::Zlib), Some(Compression::Gzip), Some(Compression::Oodle)];
    let mut out = vec![];

    let result = entry.read_file(
        &mut Reader::new(&header),
        Version::V3,
        &compression,
        &Key::None,
        None::<&OodleFn>,
        &no_raw,
        &mut out,
    );

    assert!(matches!(result, Err(Error::UnknownCompressionSlot(3, 3))));
}

/// The content of the only block of a frame, without the frame around it.
fn without_frame(frame: &[u8]) -> Vec<u8> {
    assert_eq!(&frame[..4], &[0x28, 0xb5, 0x2f, 0xfd]);
    let descriptor = frame[4];
    let single_segment = descriptor & 0x20 != 0;
    let size_field = match descriptor >> 6 {
        0 => single_segment as usize,
        1 => 2,
        2 => 4,
        _ => 8,
    };
    let at = 5 + !single_segment as usize + size_field;
    let header = frame[at] as u32 | (frame[at + 1] as u32) << 8 | (frame[at + 2] as u32) << 16;
    assert_eq!(header & 7, 5, "the last block, and compressed");
    frame[at + 3..at + 3 + (header >> 3) as usize].to_vec()
}

/// Decompresses a block without a frame, by putting one around it.
fn raw_block(src: &[u8], dst: Vec<u8>) -> Option<Vec<u8>> {
    let mut frame = vec![0x28, 0xb5, 0x2f, 0xfd, 0x20, dst.len() as u8];
    let header = 5 | (src.len() as u32) << 3;
    frame.extend_from_slice(&header.to_le_bytes()[..3]);
    frame.extend_from_slice(src);
    zstd::stream::decode_all(&frame[..]).ok()
}

/// Some archives store raw, headerless Zstd blocks, which the frame decoder rejects.
#[test]
fn read_file_falls_back_to_raw_zstd_block_when_frame_decode_fails() {
    let original =
        b"the quick brown fox jumps over the lazy dog, again and again and again".to_vec();

    let compressed = without_frame(&zstd::stream::encode_all(&original[..], 0).unwrap());

    let make_entry = |block: Option<Block>| Entry {
        offset: 0,
        compressed: compressed.len() as u64,
        uncompressed: original.len() as u64,
        compression_slot: Some(0),
        timestamp: None,
        hash: Some([0; 20]),
        blocks: Some(block.into_iter().collect()),
        flags: 0,
        compression_block_size: 0,
    };

    let mut placeholder_header = vec![];
    make_entry(Some(Block { start: 0, end: 0 }))
        .write(&mut placeholder_header, Version::V3, EntryLocation::Data)
        .unwrap();
    let header_len = placeholder_header.len() as u64;

    let entry = make_entry(Some(Block {
        start: header_len,
        end: header_len + compressed.len() as u64,
    }));

    let mut header = vec![];
    entry.write(&mut header, Version::V3, EntryLocation::Data).unwrap();
    assert_eq!(header.len() as u64, header_len);
    header.extend_from_slice(&compressed);

    let compression = [Some(Compression::Zstd)];
    let mut out = vec![];

    entry
        .read_file(
            &mut Reader::new(&header),
            Version::V3,
            &compression,
            &Key::None,
            None::<&OodleFn>,
            &raw_block,
            &mut out,
        )
        .unwrap();

    assert_eq!(out, original);

    // without the fallback it is an error
    let r = read(&entry, &header, Version::V3, &compression, &Key::None);
    assert!(matches!(r, Err(Error::DecompressionFailed(Compression::Zstd))));
}

#[test]
fn a_file_that_was_written_is_read_back() {
    for version in [Version::V3, Version::V4, Version::V5, Version::V8A, Version::V11] {
        let methods = [Compression::Zlib, Compression::Gzip, Compression::Zstd].map(Some);
        for allowed in methods.into_iter().chain([None]) {
            for len in [0usize, 1, 70_000, 300_000] {
                if len == 0 && allowed == Some(Compression::Zstd) {
                    continue;
                }
                let data = sample(len);
                let allowed: Vec<Compression> = allowed.into_iter().collect();
                let mut file = vec![0xee; 123];
                let mut slots = vec![
                    Some(Compression::Gzip),
                    Some(Compression::Zlib),
                    Some(Compression::Zstd),
                ];
                let e = Entry::write_file(&mut file, version, &mut slots, &allowed, &data).unwrap();
                assert_eq!(e.offset, 123);
                assert_eq!(e.uncompressed, len as u64);
                assert_eq!(e.blocks.is_some(), !allowed.is_empty());
                file.extend_from_slice(&[1; 50]);
                assert_eq!(read(&e, &file, version, &slots, &Key::None).unwrap(), data);
                assert_eq!(read(&e, &file, version, &slots, &Key::Some([1; 32])).unwrap(), data);
                if len == 300_000 && !allowed.is_empty() {
                    assert!(e.compressed < 100_000);
                }
            }
        }
    }
    // in the oldest versions only without compression
    let mut file = vec![];
    let e = Entry::write_file(&mut file, Version::V1, &mut vec![], &[], b"abc").unwrap();
    assert_eq!(read(&e, &file, Version::V1, &[], &Key::None).unwrap(), b"abc");
    assert_eq!(file.len(), 59);
}

#[test]
fn a_written_file_has_the_hash_of_its_data() {
    let mut file = vec![];
    let mut slots = vec![];
    let e = Entry::write_file(&mut file, Version::V11, &mut slots, &[Compression::Zlib], b"abc")
        .unwrap();
    assert_eq!(slots, [Some(Compression::Zlib)]);
    assert_eq!(e.compression_slot, Some(0));
    assert_eq!(e.compression_block_size, 3);
    // SHA-1 of "abc"
    assert_eq!(
        e.hash.unwrap(),
        [
            0xa9, 0x99, 0x3e, 0x36, 0x47, 0x06, 0x81, 0x6a, 0xba, 0x3e, 0x25, 0x71, 0x78, 0x50,
            0xc2, 0x6c, 0x9c, 0xd0, 0xd8, 0x9d
        ]
    );
    let header = Entry::get_serialized_size(Version::V11, Some(0), 1);
    assert_eq!(e.blocks, Some(vec![Block { start: header, end: header + e.compressed }]));
    assert_eq!(file.len() as u64, header + e.compressed);
}

#[test]
fn methods_that_cannot_be_written() {
    let write = |version, method| {
        let mut file = vec![5];
        let mut slots = vec![None];
        let r = Entry::write_file(&mut file, version, &mut slots, &[method], b"abc");
        assert_eq!(file, [5]);
        match r {
            Err(Error::Other(text)) => (text, slots),
            _ => panic!("it should be refused"),
        }
    };
    let (text, slots) = write(Version::V11, Compression::Oodle);
    assert_eq!(text, "writing Oodle compression unsupported");
    assert_eq!(slots, [Some(Compression::Oodle)]);
    let (text, slots) = write(Version::V11, Compression::LZ4);
    assert_eq!(text, "writing LZ4 compression unsupported");
    assert_eq!(slots, [Some(Compression::LZ4)]);
    let (text, slots) = write(Version::V5, Compression::Gzip);
    assert_eq!(text, "cannot use Gzip prior to FNameBasedCompression (pak version 8)");
    assert_eq!(slots, [None]);
}

#[test]
fn an_encrypted_file_needs_the_key() {
    let key = [7u8; 32];
    let mut e = entry(20, 20, None, None);
    e.flags = 1;
    let mut file = vec![];
    e.write(&mut file, Version::V8B, EntryLocation::Data).unwrap();
    let mut payload = sample(32);
    encrypt(PakVariant::Standard, &key, &mut payload);
    file.extend_from_slice(&payload);
    let r = read(&e, &file, Version::V8B, &[], &Key::Some(key));
    assert_eq!(r.unwrap(), &sample(32)[..20]);
    let r = read(&e, &file, Version::V8B, &[], &Key::None);
    assert!(matches!(r, Err(Error::Encrypted)));
    // all of the last cipher block has to be there
    file.pop();
    let r = read(&e, &file, Version::V8B, &[], &Key::Some(key));
    assert!(matches!(r, Err(Error::Io(IoError::UnexpectedEof))));
}

#[test]
fn an_archive_that_ends_early() {
    let mut file = vec![];
    let e = Entry::write_file(&mut file, Version::V11, &mut vec![], &[], b"abcdef").unwrap();
    for len in [0, 10, file.len() - 1] {
        let r = read(&e, &file[..len], Version::V11, &[], &Key::None);
        assert!(matches!(r, Err(Error::Io(IoError::UnexpectedEof))));
    }
    let beyond = Entry { offset: u64::MAX, ..e };
    let r = read(&beyond, &file, Version::V11, &[], &Key::None);
    assert!(matches!(r, Err(Error::Io(IoError::UnexpectedEof))));
}

#[test]
fn data_that_is_not_sound() {
    let slots = [
        Some(Compression::Zlib),
        Some(Compression::Gzip),
        Some(Compression::Zstd),
        Some(Compression::LZ4),
        None,
    ];
    let junk = [0xf1u8; 40];
    for slot in 0..5 {
        let (e, file) = place(Version::V11, slot, 100, 0, &junk, &[40]);
        let r = read(&e, &file, Version::V11, &slots, &Key::None);
        match slot {
            0 | 1 => assert!(matches!(r, Err(Error::Io(IoError::Codec(_))))),
            2 => assert!(matches!(r, Err(Error::DecompressionFailed(Compression::Zstd)))),
            3 => assert!(matches!(r, Err(Error::DecompressionFailed(Compression::LZ4)))),
            _ => assert_eq!(r.unwrap(), junk),
        }
    }
}

#[test]
fn what_a_method_holds_may_be_shorter_than_the_file_says() {
    // frames and blocks that hold less leave zeros behind
    let frame = zstd::stream::encode_all(&b"abc"[..], 0).unwrap();
    let (e, file) = place(Version::V11, 0, 5, 0, &frame, &[frame.len()]);
    let r = read(&e, &file, Version::V11, &[Some(Compression::Zstd)], &Key::None);
    assert_eq!(r.unwrap(), b"abc\0\0");
    let (e, file) = place(Version::V11, 0, 5, 0, &[0x30, b'a', b'b', b'c'], &[4]);
    let r = read(&e, &file, Version::V11, &[Some(Compression::LZ4)], &Key::None);
    assert_eq!(r.unwrap(), b"abc\0\0");
    // frames that hold more do not fit
    let (e, file) = place(Version::V11, 0, 2, 0, &frame, &[frame.len()]);
    let r = read(&e, &file, Version::V11, &[Some(Compression::Zstd)], &Key::None);
    assert!(matches!(r, Err(Error::DecompressionFailed(Compression::Zstd))));
}

#[test]
fn blocks_that_are_not_needed_are_not_looked_at() {
    let frame = zstd::stream::encode_all(&b"abcd"[..], 0).unwrap();
    let n = frame.len();
    let payload = [&frame[..], &[9; 8]].concat();
    let (e, file) = place(Version::V11, 0, 4, 4, &payload, &[n, 8]);
    let r = read(&e, &file, Version::V11, &[Some(Compression::Zstd)], &Key::None);
    assert_eq!(r.unwrap(), b"abcd");
    // and too few blocks leave zeros
    let payload = [&frame[..], &frame[..]].concat();
    let (e, file) = place(Version::V11, 0, 11, 4, &payload, &[n, n]);
    let r = read(&e, &file, Version::V11, &[Some(Compression::Zstd)], &Key::None);
    assert_eq!(r.unwrap(), b"abcdabcd\0\0\0");
}

#[test]
fn oodle_blocks_go_one_behind_the_other() {
    // each byte of the block says what to fill with, and the first how much
    let fill = |src: &[u8], room: Vec<u8>| -> (usize, Vec<u8>) {
        let mut room = room;
        let n = src[0] as usize;
        for slot in room.iter_mut().take(n) {
            *slot = src[1];
        }
        (n, room)
    };
    let slots = [Some(Compression::Oodle)];
    let run = |uncompressed, payload: &[u8], lengths: &[usize]| {
        let (e, file) = place(Version::V11, 0, uncompressed, 4, payload, lengths);
        let mut out = vec![8];
        let mut reader = Reader::new(&file);
        let r = e.read_file(
            &mut reader,
            Version::V11,
            &slots,
            &Key::None,
            Some(&fill),
            &no_raw,
            &mut out,
        );
        (r, out)
    };
    let (r, out) = run(6, &[4, 1, 2, 5], &[2, 2]);
    assert!(r.is_ok());
    assert_eq!(out, [8, 1, 1, 1, 1, 5, 5]);
    // a single block is given all the room
    let (r, out) = run(6, &[6, 3], &[2]);
    assert!(r.is_ok());
    assert_eq!(out, [8, 3, 3, 3, 3, 3, 3]);
    // a block that fills less moves the next one forward
    let (r, out) = run(6, &[3, 1, 2, 5], &[2, 2]);
    assert!(r.is_ok());
    assert_eq!(out, [8, 1, 1, 1, 5, 5, 0]);
    let (r, out) = run(6, &[4, 1, 0, 5], &[2, 2]);
    assert!(matches!(r, Err(Error::DecompressionFailed(Compression::Oodle))));
    assert_eq!(out, [8]);
}

#[test]
fn without_an_oodle_decompressor() {
    let (e, file) = place(Version::V11, 0, 6, 4, &[1, 2], &[2]);
    let r = read(&e, &file, Version::V11, &[Some(Compression::Oodle)], &Key::None);
    assert!(matches!(r, Err(Error::OodleFailed)));
}

#[test]
fn entries_that_cannot_be_tried() {
    let zlib = [Some(Compression::Zlib)];
    let zstd = [Some(Compression::Zstd)];
    let lz4 = [Some(Compression::LZ4)];
    let oodle = [Some(Compression::Oodle)];
    let (mut e, file) = place(Version::V11, 0, 6, 4, &[1, 2, 3, 4], &[4]);
    for slots in [zlib, zstd, lz4, oodle] {
        assert!(laid_out_well(&e, &file, Version::V11, &slots));
    }
    let start = e.blocks.as_ref().unwrap()[0].start;
    let set = |e: &mut Entry, start, end| e.blocks = Some(vec![Block { start, end }]);
    // a block that starts in front of the data, one that ends behind it, one that ends early
    set(&mut e, start - 1, start + 4);
    assert!(!laid_out_well(&e, &file, Version::V11, &[None]));
    set(&mut e, start, start + 5);
    assert!(laid_out_well(&e, &file, Version::V11, &[None]));
    assert!(!laid_out_well(&e, &file, Version::V11, &zlib));
    set(&mut e, start + 3, start + 2);
    assert!(!laid_out_well(&e, &file, Version::V11, &zstd));
    // no room to decompress into
    set(&mut e, start, start + 4);
    e.uncompressed = 0;
    assert!(!laid_out_well(&e, &file, Version::V11, &zstd));
    assert!(laid_out_well(&e, &file, Version::V11, &zlib));
    e.uncompressed = u64::MAX;
    assert!(!laid_out_well(&e, &file, Version::V11, &lz4));
    // more Oodle blocks than there is to fill
    let (e, file) = place(Version::V11, 0, 6, 4, &[1, 2, 3], &[1, 1, 1]);
    assert!(!laid_out_well(&e, &file, Version::V11, &oodle));
    // an entry that is too long to be aligned
    let mut e = entry(u64::MAX, 0, None, None);
    e.flags = 1;
    assert!(!laid_out_well(&e, &file, Version::V11, &[]));
    let mut reader = Reader::new(&file);
    let mut out = vec![];
    let r = e.try_read_file(
        &mut reader,
        Version::V11,
        &[],
        &Key::None,
        None::<&OodleFn>,
        &no_raw,
        &mut out,
    );
    assert!(r.is_none());
}

#[test]
fn lengths_in_an_lz4_block_that_cannot_be_added_up_are_found() {
    // fifteen literals and more, as the bytes that follow say: too many to count in 32 bits
    let mut data = vec![0xff; 0x101_0101 + 2];
    data[0] = 0xf0;
    let lz4 = Some(Compression::LZ4);
    let spans = vec![Span { start: 0, end: data.len() }];
    assert!(!is_countable(&data, 10));
    assert!(!is_in_place(lz4, &data, &spans, 10, 0, false));
    assert!(is_in_place(Some(Compression::Zstd), &data, &spans, 10, 0, false));
    let mut out = vec![];
    let r = try_decode(lz4, &data, &spans, 10, 0, None::<&OodleFn>, &no_raw, &mut out);
    assert!(r.is_none());
    // one that ends in time is counted, and then found to be too long for the block
    data[1000] = 0;
    assert!(is_countable(&data, 10));
    let r = try_decode(lz4, &data, &spans, 10, 0, None::<&OodleFn>, &no_raw, &mut out);
    assert!(matches!(r, Some(Err(Error::DecompressionFailed(Compression::LZ4)))));
}

#[test]
fn a_run_among_the_literals_of_an_lz4_block_is_no_length() {
    let n = 0x101_0101;
    let mut data = vec![0xf0];
    data.resize(1 + (n - 15) / 255, 0xff);
    data.push(((n - 15) % 255) as u8);
    data.resize(data.len() + n, 0xff);
    assert!(is_countable(&data, n));
    let spans = vec![Span { start: 0, end: data.len() }];
    let lz4 = Some(Compression::LZ4);
    let mut out = vec![];
    let r = try_decode(lz4, &data, &spans, n as u64, 0, None::<&OodleFn>, &no_raw, &mut out);
    assert!(matches!(r, Some(Ok(()))));
    assert_eq!(out.len(), n);
    assert!(out.iter().all(|b| *b == 0xff));
}

#[test]
fn lengths_are_looked_at_as_far_as_the_block_is_sound() {
    let long = |start: &[u8]| {
        let mut s = start.to_vec();
        s.resize(start.len() + 0x101_0102, 0xff);
        s
    };
    // one literal and a match of nineteen bytes and more, one byte back
    assert!(!is_countable(&long(&[0x1f, 7, 1, 0]), 1 << 20));
    // no match lies no byte back
    assert!(is_countable(&long(&[0x1f, 7, 0, 0]), 1 << 20));
    // a match of five bytes, then one that is too long
    assert!(!is_countable(&long(&[0x11, 7, 1, 0, 0x0f, 1, 0]), 1 << 20));
    // the first match lies too far back, or has no room
    assert!(is_countable(&long(&[0x11, 7, 2, 0, 0x0f, 1, 0]), 1 << 20));
    assert!(is_countable(&long(&[0x11, 7, 1, 0, 0x0f, 1, 0]), 5));
    assert!(is_countable(&[], 0));
    assert!(is_countable(&[0xf0, 0xff], 0));
}

#[test]
fn blocks_behind_one_that_is_not_sound_are_not_looked_at() {
    for method in [Compression::Zlib, Compression::Gzip, Compression::Zstd, Compression::LZ4] {
        let (mut e, file) = place(Version::V11, 0, 8, 4, &[0xf1; 8], &[4, 4]);
        e.blocks.as_mut().unwrap()[1].end += 1000;
        let mut out = vec![];
        let r = e.read_file(
            &mut Reader::new(&file),
            Version::V11,
            &[Some(method)],
            &Key::None,
            None::<&OodleFn>,
            &no_raw,
            &mut out,
        );
        assert!(r.is_err());
        assert!(out.is_empty());
        assert!(!laid_out_well(&e, &file, Version::V11, &[Some(method)]));
        assert!(read(&e, &file, Version::V11, &[Some(method)], &Key::None).is_err());
    }
}

#[test]
fn chunks_are_put_together() {
    assert_eq!(assemble(&vec![vec![1, 2], vec![], vec![3]], 5), [1, 2, 3, 0, 0]);
    assert_eq!(assemble(&vec![], 0), [0u8; 0]);
}

#[test]
fn what_is_stored_is_placed_behind_its_header() {
    let mut file = vec![1, 2, 3];
    let e = Entry::place_file(&mut file, Version::V4, Some(1), &[0; 9], b"xyz", [4; 20]);
    let header = Entry::get_serialized_size(Version::V4, Some(1), 1);
    assert_eq!((e.offset, e.compressed, e.uncompressed), (3, 3, 9));
    assert_eq!(e.blocks, Some(vec![Block { start: 3 + header, end: 6 + header }]));
    assert_eq!(e.compression_block_size, 9);
    assert_eq!(e.hash, Some([4; 20]));
    assert_eq!(file.len() as u64, 6 + header);
    assert_eq!(&file[file.len() - 3..], b"xyz");
    let read = Entry::read(&mut Reader::new(&file[3..]), Version::V4).unwrap();
    assert_eq!(read.blocks, e.blocks);
    let e = Entry::place_file(&mut file, Version::V4, None, b"xyz", b"xyz", [4; 20]);
    assert_eq!(e.blocks, None);
    assert_eq!(e.compression_block_size, 0);
}

#[test]
fn a_block_out_of_place_is_not_tried_once_it_is_reached() {
    for method in [Compression::Zlib, Compression::Gzip, Compression::Zstd, Compression::LZ4] {
        let packed = encode(method, b"abcd").unwrap();
        let n = packed.len();
        let payload = [&packed[..], &packed[..]].concat();
        let (mut e, file) = place(Version::V11, 0, 8, 4, &payload, &[n, n]);
        let slots = [Some(method)];
        assert_eq!(read(&e, &file, Version::V11, &slots, &Key::None).unwrap(), b"abcdabcd");
        e.blocks.as_mut().unwrap()[1].end += 1000;
        let mut out = vec![7];
        let mut reader = Reader::new(&file);
        let r = e.try_read_file(
            &mut reader,
            Version::V11,
            &slots,
            &Key::None,
            None::<&OodleFn>,
            &no_raw,
            &mut out,
        );
        assert!(r.is_none());
        assert_eq!(out, [7]);
        assert_eq!(reader.pos, 0);
    }
}

#[test]
fn what_the_blocks_before_an_unsound_one_hold_is_appended() {
    for method in [Compression::Zlib, Compression::Gzip] {
        let packed = encode(method, b"abcd").unwrap();
        let n = packed.len();
        let payload = [&packed[..], &[0xf1; 9]].concat();
        let (e, file) = place(Version::V11, 0, 8, 4, &payload, &[n, 9]);
        let mut out = vec![7];
        let r = e.read_file(
            &mut Reader::new(&file),
            Version::V11,
            &[Some(method)],
            &Key::None,
            None::<&OodleFn>,
            &no_raw,
            &mut out,
        );
        assert!(matches!(r, Err(Error::Io(IoError::Codec(_)))));
        assert_eq!(&out[..5], b"\x07abcd");
    }
}
