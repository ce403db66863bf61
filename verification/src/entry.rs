//! The header of a file in an archive, as it stands in front of the file's data and, in archives
//! without path hashes, in the index.

use crate::bytes::{
    le_at, le_bytes, le_limit, lemma_append_both, lemma_found, lemma_le_bytes_len,
    lemma_le_bytes_of_value, lemma_le_limits, lemma_next_field, lemma_one_byte, put_slice, put_u32,
    put_u64, Reader,
};
use crate::error::{Error, IoError};
use crate::version::{Version, VersionMajor};
use vstd::prelude::*;

verus! {

/// Where a header stands. In front of the data it says nothing of its own position.
#[derive(Debug, Clone, Copy, PartialEq, Eq, Structural)]
pub enum EntryLocation {
    Data,
    Index,
}

/// Where a compressed block begins and ends: counted from the start of the entry's header since
/// version 5, and from the start of the archive before.
#[derive(Debug, Clone, Copy, PartialEq, Eq, Structural)]
pub struct Block {
    pub start: u64,
    pub end: u64,
}

/// The sixteen bytes of a block.
pub open spec fn block_bytes(b: Block) -> Seq<u8> {
    le_bytes(b.start as nat, 8) + le_bytes(b.end as nat, 8)
}

/// The block stored at `at`.
pub open spec fn block_at(s: Seq<u8>, at: int) -> Block {
    Block { start: le_at(s, at, 8) as u64, end: le_at(s, at + 8, 8) as u64 }
}

/// The bytes of all blocks, one after the other.
pub open spec fn blocks_bytes(blocks: Seq<Block>) -> Seq<u8>
    decreases blocks.len(),
{
    if blocks.len() == 0 {
        Seq::empty()
    } else {
        blocks_bytes(blocks.drop_last()) + block_bytes(blocks.last())
    }
}

impl Block {
    pub fn read(reader: &mut Reader<'_>) -> (r: Result<Block, Error>)
        ensures
            final(reader).data == old(reader).data,
            match r {
                Ok(b) => {
                    &&& b == block_at(old(reader).rest(), 0)
                    &&& final(reader).advanced(old(reader), 16)
                },
                Err(e) => e == Error::Io(IoError::UnexpectedEof) && old(reader).rest().len() < 16,
            },
    {
        let ghost s = reader.rest();
        let start: u64 = reader.read_u64()?;
        let end: u64 = reader.read_u64()?;
        proof {
            lemma_next_field(s, 8, 8);
        }
        Ok(Block { start, end })
    }

    pub fn write(&self, writer: &mut Vec<u8>) -> (r: Result<(), Error>)
        ensures
            r is Ok,
            final(writer)@ == old(writer)@ + block_bytes(*self),
    {
        let ghost before = writer@;
        put_u64(writer, self.start);
        put_u64(writer, self.end);
        assert(writer@ =~= before + block_bytes(*self));
        Ok(())
    }
}

/// How a compression slot is stored.
#[derive(Debug, Clone, Copy, PartialEq, Eq, Structural)]
pub enum CompressionIndexSize {
    U8,
    U32,
}

pub open spec fn spec_compression_index_size(version: Version) -> CompressionIndexSize {
    match version {
        Version::V8A => CompressionIndexSize::U8,
        _ => CompressionIndexSize::U32,
    }
}

#[verifier::when_used_as_spec(spec_compression_index_size)]
pub fn compression_index_size(version: Version) -> (r: CompressionIndexSize)
    ensures
        r == spec_compression_index_size(version),
{
    match version {
        Version::V8A => CompressionIndexSize::U8,
        _ => CompressionIndexSize::U32,
    }
}

/// `offset`, moved up to the next multiple of sixteen, the size of a cipher block.
pub open spec fn aligned(offset: int) -> int {
    (offset + 15) / 16 * 16
}

pub fn align(offset: u64) -> (r: u64)
    requires
        offset + 15 <= u64::MAX,
    ensures
        r == aligned(offset as int),
        r % 16 == 0,
        offset <= r < offset + 16,
{
    let up: u64 = offset + 15;
    assert(up & !15 == up / 16 * 16) by (bit_vector);
    up & !15
}

/// The header of a file. A slot is a position in the archive's list of compression methods.
#[derive(Debug)]
pub struct Entry {
    pub offset: u64,
    pub compressed: u64,
    pub uncompressed: u64,
    pub compression_slot: Option<u32>,
    pub timestamp: Option<u64>,
    pub hash: Option<[u8; 20]>,
    pub blocks: Option<Vec<Block>>,
    pub flags: u8,
    pub compression_block_size: u32,
}

/// What a header says.
#[verifier::ext_equal]
pub struct EntryView {
    pub offset: u64,
    pub compressed: u64,
    pub uncompressed: u64,
    pub compression_slot: Option<u32>,
    pub timestamp: Option<u64>,
    pub hash: Option<Seq<u8>>,
    pub blocks: Option<Seq<Block>>,
    pub flags: u8,
    pub compression_block_size: u32,
}

impl View for Entry {
    type V = EntryView;

    open spec fn view(&self) -> EntryView {
        EntryView {
            offset: self.offset,
            compressed: self.compressed,
            uncompressed: self.uncompressed,
            compression_slot: self.compression_slot,
            timestamp: self.timestamp,
            hash: match self.hash {
                Some(h) => Some(h@),
                None => None,
            },
            blocks: match self.blocks {
                Some(b) => Some(b@),
                None => None,
            },
            flags: self.flags,
            compression_block_size: self.compression_block_size,
        }
    }
}

impl EntryView {
    /// The first flag bit says that the data is encrypted.
    pub open spec fn is_encrypted(self) -> bool {
        self.flags & 1 != 0
    }

    /// The second flag bit says that the entry stands for a deleted file.
    pub open spec fn is_deleted(self) -> bool {
        (self.flags >> 1) & 1 != 0
    }
}

/// Whether headers of this version hold blocks, flags and a block size.
pub open spec fn stores_flags(version: Version) -> bool {
    version.version_major().at_least(VersionMajor::CompressionEncryption)
}

/// How many bytes the slot takes.
pub open spec fn slot_width(version: Version) -> int {
    match compression_index_size(version) {
        CompressionIndexSize::U8 => 1,
        CompressionIndexSize::U32 => 4,
    }
}

/// A slot is stored one higher, which leaves zero for an entry that is not compressed.
pub open spec fn slot_code(slot: Option<u32>) -> nat {
    match slot {
        Some(n) => (n + 1) as nat,
        None => 0,
    }
}

pub open spec fn slot_of_code(code: nat) -> Option<u32> {
    if code == 0 {
        None
    } else {
        Some((code - 1) as u32)
    }
}

/// Only the first version stores the time of the last change.
pub open spec fn timestamp_width(version: Version) -> int {
    if version.version_major() == VersionMajor::Initial {
        8
    } else {
        0
    }
}

/// Where the hash stands.
pub open spec fn hash_at(version: Version) -> int {
    24 + slot_width(version) + timestamp_width(version)
}

/// Where the part that not every header has begins.
pub open spec fn optional_at(version: Version) -> int {
    hash_at(version) + 20
}

/// The slot that the header at the start of `s` names.
pub open spec fn header_slot(s: Seq<u8>, version: Version) -> Option<u32> {
    slot_of_code(le_at(s, 24, slot_width(version)))
}

/// Whether the header at the start of `s` has a list of blocks.
pub open spec fn header_has_blocks(s: Seq<u8>, version: Version) -> bool {
    stores_flags(version) && header_slot(s, version) is Some
}

pub open spec fn header_block_count(s: Seq<u8>, version: Version) -> nat {
    le_at(s, optional_at(version), 4)
}

/// Where the flags of the header at the start of `s` stand, if it has any.
pub open spec fn header_flags_at(s: Seq<u8>, version: Version) -> int {
    optional_at(version) + if header_has_blocks(s, version) {
        4 + 16 * header_block_count(s, version)
    } else {
        0
    }
}

/// How long the header at the start of `s` is.
pub open spec fn header_len(s: Seq<u8>, version: Version) -> int {
    header_flags_at(s, version) + if stores_flags(version) {
        5int
    } else {
        0
    }
}

/// Whether `s` holds the whole of the header at its start.
pub open spec fn header_fits(s: Seq<u8>, version: Version) -> bool {
    &&& optional_at(version) <= s.len()
    &&& header_has_blocks(s, version) ==> optional_at(version) + 4 <= s.len()
    &&& header_len(s, version) <= s.len()
}

/// The list of blocks stored at `at`, which begins with their number.
pub open spec fn stored_blocks(s: Seq<u8>, at: int) -> Seq<Block> {
    Seq::new(le_at(s, at, 4), |i: int| block_at(s, at + 4 + 16 * i))
}

/// What the header at the start of `s` says.
pub open spec fn header_entry(s: Seq<u8>, version: Version) -> EntryView {
    let flags_at = header_flags_at(s, version);
    EntryView {
        offset: le_at(s, 0, 8) as u64,
        compressed: le_at(s, 8, 8) as u64,
        uncompressed: le_at(s, 16, 8) as u64,
        compression_slot: header_slot(s, version),
        timestamp: if version.version_major() == VersionMajor::Initial {
            Some(le_at(s, 24 + slot_width(version), 8) as u64)
        } else {
            None
        },
        hash: Some(s.subrange(hash_at(version), hash_at(version) + 20)),
        blocks: if header_has_blocks(s, version) {
            Some(stored_blocks(s, optional_at(version)))
        } else {
            None
        },
        flags: if stores_flags(version) {
            s[flags_at]
        } else {
            0
        },
        compression_block_size: if stores_flags(version) {
            le_at(s, flags_at + 1, 4) as u32
        } else {
            0
        },
    }
}

/// Whether the slot has room in the field that this version gives it.
pub open spec fn slot_storable(slot: Option<u32>, version: Version) -> bool {
    match slot {
        Some(n) => match compression_index_size(version) {
            CompressionIndexSize::U8 => n < 0xff,
            CompressionIndexSize::U32 => n < u32::MAX,
        },
        None => true,
    }
}

/// The bytes in front of the hash.
pub open spec fn leading_bytes(e: EntryView, version: Version, location: EntryLocation) -> Seq<u8> {
    let offset = match location {
        EntryLocation::Data => 0,
        EntryLocation::Index => e.offset,
    };
    let sizes = le_bytes(offset as nat, 8) + le_bytes(e.compressed as nat, 8) + le_bytes(
        e.uncompressed as nat,
        8,
    ) + le_bytes(slot_code(e.compression_slot), slot_width(version) as nat);
    if version.version_major() == VersionMajor::Initial {
        sizes + le_bytes(
            match e.timestamp {
                Some(t) => t as nat,
                None => 0,
            },
            8,
        )
    } else {
        sizes
    }
}

/// The bytes behind the hash.
pub open spec fn trailing_bytes(e: EntryView, version: Version) -> Seq<u8> {
    if stores_flags(version) {
        let blocks = match e.blocks {
            Some(b) => le_bytes((b.len() as u32) as nat, 4) + blocks_bytes(b),
            None => Seq::empty(),
        };
        blocks.push(e.flags) + le_bytes(e.compression_block_size as nat, 4)
    } else {
        Seq::empty()
    }
}

/// The bytes of a header.
pub open spec fn entry_bytes(e: EntryView, version: Version, location: EntryLocation) -> Seq<u8> {
    leading_bytes(e, version, location) + e.hash->0 + trailing_bytes(e, version)
}

proof fn lemma_block_at_skip(s: Seq<u8>, k: int, at: int)
    requires
        0 <= k,
        0 <= at,
        k + at + 16 <= s.len(),
    ensures
        block_at(s.skip(k), at) == block_at(s, k + at),
{
    assert(s.skip(k).subrange(at, at + 8) =~= s.subrange(k + at, k + at + 8));
    assert(s.skip(k).subrange(at + 8, at + 16) =~= s.subrange(k + at + 8, k + at + 16));
}

proof fn lemma_stored_blocks_skip(s: Seq<u8>, k: int)
    requires
        0 <= k,
        k + 4 <= s.len(),
        k + 4 + 16 * le_at(s, k, 4) <= s.len(),
    ensures
        stored_blocks(s.skip(k), 0) == stored_blocks(s, k),
{
    lemma_next_field(s, k, 4);
    assert forall|i: int| 0 <= i < le_at(s, k, 4) implies stored_blocks(s.skip(k), 0)[i]
        == stored_blocks(s, k)[i] by {
        lemma_block_at_skip(s, k, 4 + 16 * i);
    }
    assert(stored_blocks(s.skip(k), 0) =~= stored_blocks(s, k));
}

impl Entry {
    pub fn is_encrypted(&self) -> (r: bool)
        ensures
            r == self@.is_encrypted(),
    {
        0 != (self.flags & 1)
    }

    pub fn is_deleted(&self) -> (r: bool)
        ensures
            r == self@.is_deleted(),
    {
        0 != (self.flags >> 1) & 1
    }

    /// How long a header with a hash is. For versions below 3 this counts one byte, and blocks,
    /// that their headers do not hold.
    pub open spec fn serialized_size(
        version: Version,
        compression: Option<u32>,
        block_count: u32,
    ) -> int {
        24 + slot_width(version) + timestamp_width(version) + 20 + (match compression {
            Some(_) => 4 + 16 * block_count as int,
            None => 0,
        }) + 1 + (if stores_flags(version) {
            4int
        } else {
            0
        })
    }

    pub fn get_serialized_size(
        version: Version,
        compression: Option<u32>,
        block_count: u32,
    ) -> (r: u64)
        ensures
            r == Entry::serialized_size(version, compression, block_count),
    {
        let mut size: u64 = 0;
        size += 8;  // offset
        size += 8;  // compressed
        size += 8;  // uncompressed
        size += match compression_index_size(version) {
            CompressionIndexSize::U8 => 1,
            CompressionIndexSize::U32 => 4,
        };
        size += if version.version_major() == VersionMajor::Initial {
            8  // timestamp
        } else {
            0
        };
        size += 20;  // hash
        size += match compression {
            Some(_) => 4 + (8 + 8) * block_count as u64,  // blocks
            None => 0,
        };
        size += 1;  // encrypted
        size += if version.version_major().at_least(VersionMajor::CompressionEncryption) {
            4  // block size
        } else {
            0
        };
        size
    }

    pub fn read(reader: &mut Reader<'_>, version: Version) -> (r: Result<Entry, Error>)
        ensures
            final(reader).data == old(reader).data,
            match r {
                Ok(e) => {
                    &&& header_fits(old(reader).rest(), version)
                    &&& e@ == header_entry(old(reader).rest(), version)
                    &&& final(reader).advanced(
                        old(reader),
                        header_len(old(reader).rest(), version) as nat,
                    )
                },
                Err(e) => {
                    &&& e == Error::Io(IoError::UnexpectedEof)
                    &&& !header_fits(old(reader).rest(), version)
                },
            },
    {
        let ghost s = reader.rest();
        let ver = version.version_major();
        let offset: u64 = reader.read_u64()?;
        let compressed: u64 = reader.read_u64()?;
        proof {
            lemma_next_field(s, 8, 8);
        }
        let uncompressed: u64 = reader.read_u64()?;
        proof {
            lemma_next_field(s, 16, 8);
        }
        let compression_slot: Option<u32> = Entry::read_slot(reader, version)?;
        proof {
            lemma_next_field(s, 24, slot_width(version));
        }
        let timestamp: Option<u64> = if ver == VersionMajor::Initial {
            let stamp: u64 = reader.read_u64()?;
            proof {
                lemma_next_field(s, 24 + slot_width(version), 8);
            }
            Some(stamp)
        } else {
            None
        };
        assert(reader.rest() == s.skip(hash_at(version)));
        let hash: [u8; 20] = reader.read_guid()?;
        proof {
            lemma_next_field(s, hash_at(version), 20);
            assert(hash@ =~= s.subrange(hash_at(version), hash_at(version) + 20));
        }
        let blocks = if ver.at_least(VersionMajor::CompressionEncryption)
            && compression_slot.is_some() {
            proof {
                if optional_at(version) + 4 <= s.len() {
                    lemma_next_field(s, optional_at(version), 4);
                }
            }
            let blocks = Entry::read_blocks(reader)?;
            proof {
                lemma_stored_blocks_skip(s, optional_at(version));
                lemma_next_field(
                    s,
                    optional_at(version),
                    4 + 16 * header_block_count(s, version) as int,
                );
            }
            Some(blocks)
        } else {
            None
        };
        assert(reader.rest() == s.skip(header_flags_at(s, version)));
        let (flags, compression_block_size): (u8, u32) = if ver.at_least(
            VersionMajor::CompressionEncryption,
        ) {
            let flags: u8 = reader.read_u8()?;
            proof {
                lemma_next_field(s, header_flags_at(s, version), 1);
            }
            let size: u32 = reader.read_u32()?;
            proof {
                lemma_next_field(s, header_flags_at(s, version) + 1, 4);
            }
            (flags, size)
        } else {
            (0, 0)
        };
        Ok(
            Entry {
                offset,
                compressed,
                uncompressed,
                compression_slot,
                timestamp,
                hash: Some(hash),
                blocks,
                flags,
                compression_block_size,
            },
        )
    }

    fn read_slot(reader: &mut Reader<'_>, version: Version) -> (r: Result<Option<u32>, Error>)
        ensures
            final(reader).data == old(reader).data,
            match r {
                Ok(slot) => {
                    &&& slot == slot_of_code(le_at(old(reader).rest(), 0, slot_width(version)))
                    &&& final(reader).advanced(old(reader), slot_width(version) as nat)
                },
                Err(e) => {
                    &&& e == Error::Io(IoError::UnexpectedEof)
                    &&& old(reader).rest().len() < slot_width(version)
                },
            },
    {
        let ghost s = reader.rest();
        let code: u32 = match compression_index_size(version) {
            CompressionIndexSize::U8 => {
                let b: u8 = reader.read_u8()?;
                proof {
                    lemma_one_byte(b);
                    assert(s.subrange(0, 1) =~= seq![b]);
                }
                b as u32
            },
            CompressionIndexSize::U32 => reader.read_u32()?,
        };
        Ok(
            match code {
                0 => None,
                n => Some(n - 1),
            },
        )
    }

    fn read_blocks(reader: &mut Reader<'_>) -> (r: Result<Vec<Block>, Error>)
        ensures
            final(reader).data == old(reader).data,
            match r {
                Ok(blocks) => {
                    &&& blocks@ == stored_blocks(old(reader).rest(), 0)
                    &&& final(reader).advanced(
                        old(reader),
                        (4 + 16 * le_at(old(reader).rest(), 0, 4)) as nat,
                    )
                },
                Err(e) => {
                    &&& e == Error::Io(IoError::UnexpectedEof)
                    &&& old(reader).rest().len() < 4 || old(reader).rest().len() < 4 + 16 * le_at(
                        old(reader).rest(),
                        0,
                        4,
                    )
                },
            },
    {
        let ghost s = reader.rest();
        let ghost found = stored_blocks(s, 0);
        let count: u32 = reader.read_u32()?;
        let mut blocks: Vec<Block> = Vec::new();
        let mut i: u32 = 0;
        while i < count
            invariant
                i <= count,
                count == le_at(s, 0, 4),
                found == stored_blocks(s, 0),
                s == old(reader).rest(),
                4 + 16 * i <= s.len(),
                reader.data == old(reader).data,
                reader.rest() == s.skip(4 + 16 * i),
                reader.pos == old(reader).pos + 4 + 16 * i,
                blocks@ == found.take(i as int),
            decreases count - i,
        {
            let block = Block::read(reader)?;
            proof {
                let at = 4 + 16 * i;
                lemma_next_field(s, at, 16);
                lemma_block_at_skip(s, at, 0);
                assert(found.take(i + 1) =~= found.take(i as int).push(block));
            }
            blocks.push(block);
            i += 1;
        }
        assert(blocks@ =~= found);
        Ok(blocks)
    }

    /// Appends the header. One without a hash, or with a slot that has no room in its field,
    /// cannot be written.
    pub fn write(&self, writer: &mut Vec<u8>, version: Version, location: EntryLocation) -> (r:
        Result<(), Error>)
        requires
            self.hash is Some,
            slot_storable(self.compression_slot, version),
        ensures
            r is Ok,
            final(writer)@ == old(writer)@ + entry_bytes(self@, version, location),
    {
        broadcast use lemma_append_both;

        self.write_leading(writer, version, location);
        if let Some(hash) = &self.hash {
            put_slice(writer, hash.as_slice());
        }
        self.write_trailing(writer, version);
        Ok(())
    }

    fn write_leading(&self, writer: &mut Vec<u8>, version: Version, location: EntryLocation)
        requires
            slot_storable(self.compression_slot, version),
        ensures
            final(writer)@ == old(writer)@ + leading_bytes(self@, version, location),
    {
        broadcast use lemma_append_both;

        put_u64(
            writer,
            match location {
                EntryLocation::Data => 0,
                EntryLocation::Index => self.offset,
            },
        );
        put_u64(writer, self.compressed);
        put_u64(writer, self.uncompressed);
        let compression: u32 = match self.compression_slot {
            Some(n) => n + 1,
            None => 0,
        };
        match compression_index_size(version) {
            CompressionIndexSize::U8 => {
                let code: u8 = compression as u8;
                proof {
                    lemma_one_byte(code);
                    assert(writer@.push(code) =~= writer@ + seq![code]);
                }
                writer.push(code);
            },
            CompressionIndexSize::U32 => put_u32(writer, compression),
        }
        if version.version_major() == VersionMajor::Initial {
            put_u64(
                writer,
                match self.timestamp {
                    Some(t) => t,
                    None => 0,
                },
            );
        }
    }

    fn write_trailing(&self, writer: &mut Vec<u8>, version: Version)
        ensures
            final(writer)@ == old(writer)@ + trailing_bytes(self@, version),
    {
        broadcast use lemma_append_both;

        let ghost before = writer@;
        if version.version_major().at_least(VersionMajor::CompressionEncryption) {
            let ghost mut listed = Seq::<u8>::empty();
            if let Some(blocks) = &self.blocks {
                put_u32(writer, blocks.len() as u32);
                Entry::write_blocks(blocks, writer);
                proof {
                    listed = le_bytes((blocks@.len() as u32) as nat, 4) + blocks_bytes(blocks@);
                }
            }
            assert(writer@ =~= before + listed);
            writer.push(self.flags);
            assert(writer@ =~= before + listed.push(self.flags));
            put_u32(writer, self.compression_block_size);
        } else {
            assert(before =~= before + trailing_bytes(self@, version));
        }
    }

    fn write_blocks(blocks: &Vec<Block>, writer: &mut Vec<u8>)
        ensures
            final(writer)@ == old(writer)@ + blocks_bytes(blocks@),
    {
        let ghost before = writer@;
        let mut i: usize = 0;
        assert(before =~= before + blocks_bytes(blocks@.take(0)));
        while i < blocks.len()
            invariant
                i <= blocks@.len(),
                writer@ == before + blocks_bytes(blocks@.take(i as int)),
            decreases blocks@.len() - i,
        {
            broadcast use lemma_append_both;

            let _ = blocks[i].write(writer);
            proof {
                let more = blocks@.take(i + 1);
                assert(more.drop_last() =~= blocks@.take(i as int));
                assert(more.last() == blocks@[i as int]);
            }
            i += 1;
        }
        assert(blocks@.take(blocks@.len() as int) =~= blocks@);
    }
}

pub(crate) proof fn lemma_blocks_bytes_len(blocks: Seq<Block>)
    ensures
        blocks_bytes(blocks).len() == 16 * blocks.len(),
    decreases blocks.len(),
{
    if blocks.len() > 0 {
        lemma_blocks_bytes_len(blocks.drop_last());
        lemma_le_bytes_len(blocks.last().start as nat, 8);
        lemma_le_bytes_len(blocks.last().end as nat, 8);
    }
}

/// The bytes of one block stand at their place among those of all.
proof fn lemma_blocks_bytes_index(blocks: Seq<Block>, i: int)
    requires
        0 <= i < blocks.len(),
    ensures
        blocks_bytes(blocks).len() == 16 * blocks.len(),
        blocks_bytes(blocks).subrange(16 * i, 16 * i + 16) == block_bytes(blocks[i]),
    decreases blocks.len(),
{
    lemma_blocks_bytes_len(blocks);
    lemma_blocks_bytes_len(blocks.drop_last());
    let all = blocks_bytes(blocks);
    let front = blocks_bytes(blocks.drop_last());
    if i == blocks.len() - 1 {
        assert(all.subrange(16 * i, 16 * i + 16) =~= block_bytes(blocks[i]));
    } else {
        lemma_blocks_bytes_index(blocks.drop_last(), i);
        assert(all.subrange(16 * i, 16 * i + 16) =~= front.subrange(16 * i, 16 * i + 16));
    }
}

/// A list of blocks that was written at `at` is found there.
pub(crate) proof fn lemma_stored_blocks_found(s: Seq<u8>, at: int, blocks: Seq<Block>)
    requires
        0 <= at,
        at + 4 + 16 * blocks.len() <= s.len(),
        blocks.len() <= u32::MAX,
        s.subrange(at, at + 4) == le_bytes(blocks.len(), 4),
        s.subrange(at + 4, at + 4 + 16 * blocks.len()) == blocks_bytes(blocks),
    ensures
        le_at(s, at, 4) == blocks.len(),
        stored_blocks(s, at) == blocks,
{
    lemma_le_limits();
    lemma_found(s, at, blocks.len(), 4);
    let all = blocks_bytes(blocks);
    assert forall|i: int| 0 <= i < blocks.len() implies stored_blocks(s, at)[i] == blocks[i] by {
        lemma_blocks_bytes_index(blocks, i);
        let b = blocks[i];
        let k = at + 4 + 16 * i;
        lemma_le_bytes_len(b.start as nat, 8);
        lemma_le_bytes_len(b.end as nat, 8);
        let own = all.subrange(16 * i, 16 * i + 16);
        assert(s.subrange(k, k + 16) =~= own);
        assert(s.subrange(k, k + 8) =~= s.subrange(k, k + 16).subrange(0, 8));
        assert(s.subrange(k + 8, k + 16) =~= s.subrange(k, k + 16).subrange(8, 16));
        assert(block_bytes(b).subrange(0, 8) =~= le_bytes(b.start as nat, 8));
        assert(block_bytes(b).subrange(8, 16) =~= le_bytes(b.end as nat, 8));
        lemma_found(s, k, b.start as nat, 8);
        lemma_found(s, k + 8, b.end as nat, 8);
    }
    assert(stored_blocks(s, at) =~= blocks);
}

impl EntryView {
    /// Whether a header of this version holds what it takes to read the entry back: a hash, room
    /// for the slot, and, from version 3 on, blocks if and only if the entry is compressed.
    pub open spec fn storable(self, version: Version) -> bool {
        &&& self.hash is Some
        &&& self.hash->0.len() == 20
        &&& slot_storable(self.compression_slot, version)
        &&& stores_flags(version) ==> (self.blocks is Some <==> self.compression_slot is Some)
        &&& stores_flags(version) && self.blocks is Some ==> self.blocks->0.len() <= u32::MAX
    }

    /// What a header of this version, at this place, keeps of an entry.
    pub open spec fn kept(self, version: Version, location: EntryLocation) -> EntryView {
        EntryView {
            offset: match location {
                EntryLocation::Data => 0,
                EntryLocation::Index => self.offset,
            },
            timestamp: if version.version_major() == VersionMajor::Initial {
                match self.timestamp {
                    Some(t) => Some(t),
                    None => Some(0),
                }
            } else {
                None
            },
            blocks: if stores_flags(version) {
                self.blocks
            } else {
                None
            },
            flags: if stores_flags(version) {
                self.flags
            } else {
                0
            },
            compression_block_size: if stores_flags(version) {
                self.compression_block_size
            } else {
                0
            },
            ..self
        }
    }
}

pub(crate) proof fn lemma_leading_found(
    e: EntryView,
    version: Version,
    location: EntryLocation,
    s: Seq<u8>,
)
    requires
        slot_storable(e.compression_slot, version),
        hash_at(version) <= s.len(),
        s.take(hash_at(version)) == leading_bytes(e, version, location),
    ensures
        le_at(s, 0, 8) == e.kept(version, location).offset,
        le_at(s, 8, 8) == e.compressed,
        le_at(s, 16, 8) == e.uncompressed,
        header_slot(s, version) == e.compression_slot,
        version.version_major() == VersionMajor::Initial ==> le_at(s, 24 + slot_width(version), 8)
            == e.kept(version, location).timestamp->0,
{
    let w = slot_width(version);
    let kept = e.kept(version, location);
    let code = slot_code(e.compression_slot);
    let head = s.take(hash_at(version));
    lemma_le_limits();
    lemma_le_bytes_len(kept.offset as nat, 8);
    lemma_le_bytes_len(e.compressed as nat, 8);
    lemma_le_bytes_len(e.uncompressed as nat, 8);
    lemma_le_bytes_len(code, w as nat);
    assert(s.subrange(0, 8) =~= head.subrange(0, 8));
    assert(s.subrange(0, 8) =~= le_bytes(kept.offset as nat, 8));
    lemma_found(s, 0, kept.offset as nat, 8);
    assert(s.subrange(8, 16) =~= head.subrange(8, 16));
    assert(s.subrange(8, 16) =~= le_bytes(e.compressed as nat, 8));
    lemma_found(s, 8, e.compressed as nat, 8);
    assert(s.subrange(16, 24) =~= head.subrange(16, 24));
    assert(s.subrange(16, 24) =~= le_bytes(e.uncompressed as nat, 8));
    lemma_found(s, 16, e.uncompressed as nat, 8);
    assert(s.subrange(24, 24 + w) =~= head.subrange(24, 24 + w));
    assert(s.subrange(24, 24 + w) =~= le_bytes(code, w as nat));
    lemma_found(s, 24, code, w as nat);
    if version.version_major() == VersionMajor::Initial {
        let t = kept.timestamp->0 as nat;
        lemma_le_bytes_len(t, 8);
        assert(s.subrange(24 + w, 32 + w) =~= head.subrange(24 + w, 32 + w));
        assert(s.subrange(24 + w, 32 + w) =~= le_bytes(t, 8));
        lemma_found(s, 24 + w, t, 8);
    }
}

pub(crate) proof fn lemma_leading_len(e: EntryView, version: Version, location: EntryLocation)
    ensures
        leading_bytes(e, version, location).len() == hash_at(version),
{
    lemma_le_bytes_len(0, 8);
    lemma_le_bytes_len(e.offset as nat, 8);
    lemma_le_bytes_len(e.compressed as nat, 8);
    lemma_le_bytes_len(e.uncompressed as nat, 8);
    lemma_le_bytes_len(slot_code(e.compression_slot), slot_width(version) as nat);
    lemma_le_bytes_len(
        match e.timestamp {
            Some(t) => t as nat,
            None => 0,
        },
        8,
    );
}

pub(crate) proof fn lemma_trailing_len(e: EntryView, version: Version)
    ensures
        trailing_bytes(e, version).len() == (if stores_flags(version) {
            5 + match e.blocks {
                Some(b) => 4 + 16 * b.len(),
                None => 0,
            }
        } else {
            0
        }),
{
    lemma_le_bytes_len(e.compression_block_size as nat, 4);
    if let Some(b) = e.blocks {
        lemma_le_bytes_len((b.len() as u32) as nat, 4);
        lemma_blocks_bytes_len(b);
    }
}

/// Reading a header gives back what was written of the entry, whatever follows the header, and
/// stops at its end.
pub proof fn law_header_read_back(
    e: EntryView,
    version: Version,
    location: EntryLocation,
    after: Seq<u8>,
)
    requires
        e.storable(version),
    ensures
        ({
            let s = entry_bytes(e, version, location) + after;
            &&& header_fits(s, version)
            &&& header_len(s, version) == entry_bytes(e, version, location).len()
            &&& header_entry(s, version) == e.kept(version, location)
        }),
{
    let lead = leading_bytes(e, version, location);
    let hash = e.hash->0;
    let trail = trailing_bytes(e, version);
    let s = entry_bytes(e, version, location) + after;
    let h = hash_at(version);
    let o = optional_at(version);
    lemma_leading_len(e, version, location);
    lemma_trailing_len(e, version);
    assert(s.take(h) =~= lead);
    lemma_leading_found(e, version, location, s);
    assert(s.subrange(h, h + 20) =~= hash);
    if stores_flags(version) {
        assert(s.subrange(o, o + trail.len()) =~= trail);
        lemma_le_limits();
        lemma_le_bytes_len(e.compression_block_size as nat, 4);
        let mut f = o;
        if let Some(b) = e.blocks {
            lemma_le_bytes_len(b.len(), 4);
            lemma_blocks_bytes_len(b);
            f = o + 4 + 16 * b.len();
            assert(s.subrange(o, o + 4) =~= trail.subrange(0, 4));
            assert(s.subrange(o, o + 4) =~= le_bytes(b.len(), 4));
            assert(s.subrange(o + 4, o + 4 + 16 * b.len()) =~= trail.subrange(
                4,
                4 + 16 * b.len() as int,
            ));
            assert(s.subrange(o + 4, o + 4 + 16 * b.len()) =~= blocks_bytes(b));
            lemma_stored_blocks_found(s, o, b);
        }
        assert(header_flags_at(s, version) == f);
        assert(s[f] == trail[f - o]);
        assert(s.subrange(f + 1, f + 5) =~= trail.subrange(f - o + 1, f - o + 5));
        assert(s.subrange(f + 1, f + 5) =~= le_bytes(e.compression_block_size as nat, 4));
        lemma_found(s, f + 1, e.compression_block_size as nat, 4);
    }
    assert(header_entry(s, version) =~= e.kept(version, location));
}

proof fn lemma_field_bytes(s: Seq<u8>, at: int, n: int)
    requires
        0 <= at,
        0 <= n,
        at + n <= s.len(),
    ensures
        le_bytes(le_at(s, at, n), n as nat) == s.subrange(at, at + n),
        le_at(s, at, n) < le_limit(n as nat),
{
    lemma_le_bytes_of_value(s.subrange(at, at + n));
}

proof fn lemma_stored_blocks_bytes(s: Seq<u8>, at: int, k: int)
    requires
        0 <= at,
        at + 4 <= s.len(),
        0 <= k <= le_at(s, at, 4),
        at + 4 + 16 * k <= s.len(),
    ensures
        blocks_bytes(stored_blocks(s, at).take(k)) == s.subrange(at + 4, at + 4 + 16 * k),
    decreases k,
{
    let some = stored_blocks(s, at).take(k);
    if k == 0 {
        assert(blocks_bytes(some) =~= s.subrange(at + 4, at + 4));
    } else {
        lemma_stored_blocks_bytes(s, at, k - 1);
        assert(some.drop_last() =~= stored_blocks(s, at).take(k - 1));
        let last = at + 4 + 16 * (k - 1);
        lemma_le_limits();
        lemma_field_bytes(s, last, 8);
        lemma_field_bytes(s, last + 8, 8);
        assert(block_bytes(some.last()) =~= s.subrange(last, last + 16));
        assert(blocks_bytes(some) =~= s.subrange(at + 4, at + 4 + 16 * k));
    }
}

/// Writing a header that was read gives the bytes that it was read from. In front of the data
/// that holds of one that says nothing of its position.
pub proof fn law_header_written_back(s: Seq<u8>, version: Version)
    requires
        header_fits(s, version),
    ensures
        header_entry(s, version).storable(version),
        entry_bytes(header_entry(s, version), version, EntryLocation::Index) == s.take(
            header_len(s, version),
        ),
        header_entry(s, version).offset == 0 ==> entry_bytes(
            header_entry(s, version),
            version,
            EntryLocation::Data,
        ) == s.take(header_len(s, version)),
{
    let e = header_entry(s, version);
    let w = slot_width(version);
    let h = hash_at(version);
    let o = optional_at(version);
    lemma_le_limits();
    lemma_field_bytes(s, 0, 8);
    lemma_field_bytes(s, 8, 8);
    lemma_field_bytes(s, 16, 8);
    lemma_field_bytes(s, 24, w);
    if version.version_major() == VersionMajor::Initial {
        lemma_field_bytes(s, 24 + w, 8);
    }
    assert(leading_bytes(e, version, EntryLocation::Index) =~= s.take(h));
    if stores_flags(version) {
        let f = header_flags_at(s, version);
        lemma_field_bytes(s, f + 1, 4);
        if header_has_blocks(s, version) {
            let n = header_block_count(s, version) as int;
            lemma_field_bytes(s, o, 4);
            lemma_stored_blocks_bytes(s, o, n);
            assert(stored_blocks(s, o).take(n) =~= stored_blocks(s, o));
        }
        assert(trailing_bytes(e, version) =~= s.subrange(o, f + 5));
    }
    assert(entry_bytes(e, version, EntryLocation::Index) =~= s.take(header_len(s, version)));
}

/// From version 3 on, a header is as long as `get_serialized_size` says.
pub proof fn law_serialized_size(e: EntryView, version: Version, location: EntryLocation)
    requires
        e.storable(version),
        stores_flags(version),
    ensures
        entry_bytes(e, version, location).len() == Entry::serialized_size(
            version,
            e.compression_slot,
            match e.blocks {
                Some(b) => b.len() as u32,
                None => 0,
            },
        ),
{
    lemma_leading_len(e, version, location);
    lemma_trailing_len(e, version);
}

} // verus!
