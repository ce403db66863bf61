//! The packed form of a header that the index of archives with path hashes uses. It leaves out
//! whatever the reader can work out, and stores numbers in four bytes where they fit.

use crate::bytes::{
    le_at, le_bytes, lemma_append_both, lemma_found, lemma_le_bytes_len, lemma_le_limits,
    lemma_next_field, put_u32, put_u64, Reader,
};
use crate::entry::{align, aligned, slot_code, slot_of_code, Block, Entry, EntryView};
use crate::error::{Error, IoError};
use crate::version::Version;
use vstd::prelude::*;

verus! {

/// The part of a packed header that tells how long the rest is. The bits of the first number
/// are, from the lowest: six for the block size, sixteen for the number of blocks, one for
/// encryption, six for the slot, and three that say which numbers take four bytes.
#[derive(Debug, Clone, Copy, PartialEq, Eq, Structural)]
pub struct EncodedFields {
    pub bits: u32,
    pub compression_block_size: u32,
    pub offset: u64,
    pub uncompressed: u64,
    pub compressed: u64,
}

pub open spec fn bits_slot(bits: u32) -> Option<u32> {
    slot_of_code(((bits >> 23) & 0x3f) as nat)
}

pub open spec fn bits_encrypted(bits: u32) -> bool {
    bits & (1u32 << 22) != 0
}

pub open spec fn bits_block_count(bits: u32) -> u32 {
    (bits >> 6) & 0xffff
}

/// A block size is stored in units of two kilobytes; this value says that it is stored apart.
pub open spec fn bits_block_size(bits: u32) -> u32 {
    bits & 0x3f
}

/// How many bytes the number takes whose width this bit tells.
pub open spec fn var_width(bits: u32, bit: u32) -> int {
    if bits & (1u32 << bit) != 0 {
        4
    } else {
        8
    }
}

/// Where the offset stands.
pub open spec fn offset_at(bits: u32) -> int {
    4 + if bits_block_size(bits) == 0x3f {
        4int
    } else {
        0
    }
}

pub open spec fn uncompressed_at(bits: u32) -> int {
    offset_at(bits) + var_width(bits, 31)
}

pub open spec fn compressed_at(bits: u32) -> int {
    uncompressed_at(bits) + var_width(bits, 30)
}

/// Where the sizes of the blocks stand. The compressed size of an entry that is not compressed
/// is not stored.
pub open spec fn block_sizes_at(bits: u32) -> int {
    compressed_at(bits) + if bits_slot(bits) is None {
        0
    } else {
        var_width(bits, 29)
    }
}

/// Whether the sizes of the blocks are stored. That of a single block that is not encrypted is
/// the compressed size.
pub open spec fn stores_block_sizes(bits: u32) -> bool {
    bits_block_count(bits) > 0 && !(bits_block_count(bits) == 1 && !bits_encrypted(bits))
}

/// The fields of the packed header at the start of `s`.
pub open spec fn encoded_fields(s: Seq<u8>) -> EncodedFields {
    let bits = le_at(s, 0, 4) as u32;
    let uncompressed = le_at(s, uncompressed_at(bits), var_width(bits, 30)) as u64;
    EncodedFields {
        bits,
        compression_block_size: if bits_block_size(bits) == 0x3f {
            le_at(s, 4, 4) as u32
        } else {
            bits_block_size(bits) << 11
        },
        offset: le_at(s, offset_at(bits), var_width(bits, 31)) as u64,
        uncompressed,
        compressed: if bits_slot(bits) is None {
            uncompressed
        } else {
            le_at(s, compressed_at(bits), var_width(bits, 29)) as u64
        },
    }
}

/// Whether `s` holds all the fields of the packed header at its start.
pub open spec fn encoded_fields_fit(s: Seq<u8>) -> bool {
    4 <= s.len() && block_sizes_at(le_at(s, 0, 4) as u32) <= s.len()
}

pub open spec fn encoded_len(s: Seq<u8>) -> int {
    let bits = le_at(s, 0, 4) as u32;
    block_sizes_at(bits) + if stores_block_sizes(bits) {
        4 * bits_block_count(bits) as int
    } else {
        0
    }
}

/// Whether `s` holds the whole of the packed header at its start.
pub open spec fn encoded_fits(s: Seq<u8>) -> bool {
    encoded_fields_fit(s) && encoded_len(s) <= s.len()
}

/// The sizes of `count` blocks stored at `at`.
pub open spec fn sizes_at(s: Seq<u8>, at: int, count: nat) -> Seq<u32> {
    Seq::new(count, |i: int| le_at(s, at + 4 * i, 4) as u32)
}

/// How far the start of a block lies behind that of the block before it, which has this size.
pub open spec fn block_step(size: u32, encrypted: bool) -> int {
    if encrypted {
        aligned(size as int)
    } else {
        size as int
    }
}

/// Where the block behind these starts, when the first of them starts at `base`.
pub open spec fn block_start(base: int, sizes: Seq<u32>, encrypted: bool) -> int
    decreases sizes.len(),
{
    if sizes.len() == 0 {
        base
    } else {
        block_start(base, sizes.drop_last(), encrypted) + block_step(sizes.last(), encrypted)
    }
}

/// Blocks of these sizes, one behind the other from `base` on.
pub open spec fn laid_out(base: int, sizes: Seq<u32>, encrypted: bool) -> Seq<Block> {
    Seq::new(
        sizes.len(),
        |i: int|
            {
                let start = block_start(base, sizes.take(i), encrypted);
                Block { start: start as u64, end: (start + sizes[i]) as u64 }
            },
    )
}

impl EncodedFields {
    /// Where the first block starts, counted from the start of the header in front of the data.
    pub open spec fn first_block(self, version: Version) -> int {
        Entry::serialized_size(version, bits_slot(self.bits), bits_block_count(self.bits))
    }

    /// Whether the end of a single block that is not encrypted can be told in 64 bits.
    pub open spec fn spec_addressable(self, version: Version) -> bool {
        bits_block_count(self.bits) == 1 && !bits_encrypted(self.bits) ==> self.first_block(version)
            + self.compressed <= u64::MAX
    }

    #[verifier::when_used_as_spec(spec_addressable)]
    pub fn addressable(self, version: Version) -> (r: bool)
        ensures
            r == self.spec_addressable(version),
    {
        if self.block_count() == 1 && !self.encrypted() {
            let base: u64 = Entry::get_serialized_size(
                version,
                self.compression_slot(),
                self.block_count(),
            );
            self.compressed <= u64::MAX - base
        } else {
            true
        }
    }

    pub fn compression_slot(self) -> (r: Option<u32>)
        ensures
            r == bits_slot(self.bits),
    {
        match (self.bits >> 23) & 0x3f {
            0 => None,
            n => Some(n - 1),
        }
    }

    pub fn encrypted(self) -> (r: bool)
        ensures
            r == bits_encrypted(self.bits),
    {
        (self.bits & (1u32 << 22)) != 0
    }

    pub fn block_count(self) -> (r: u32)
        ensures
            r == bits_block_count(self.bits),
    {
        (self.bits >> 6) & 0xffff
    }

    fn read_var(reader: &mut Reader<'_>, bits: u32, bit: u32) -> (r: Result<u64, Error>)
        requires
            bit < 32,
        ensures
            final(reader).data == old(reader).data,
            match r {
                Ok(v) => {
                    &&& v as nat == le_at(old(reader).rest(), 0, var_width(bits, bit))
                    &&& final(reader).advanced(old(reader), var_width(bits, bit) as nat)
                },
                Err(e) => {
                    &&& e == Error::Io(IoError::UnexpectedEof)
                    &&& old(reader).rest().len() < var_width(bits, bit)
                },
            },
    {
        if (bits & (1u32 << bit)) != 0 {
            let v: u32 = reader.read_u32()?;
            Ok(v as u64)
        } else {
            reader.read_u64()
        }
    }

    pub fn read(reader: &mut Reader<'_>) -> (r: Result<EncodedFields, Error>)
        ensures
            final(reader).data == old(reader).data,
            match r {
                Ok(f) => {
                    &&& encoded_fields_fit(old(reader).rest())
                    &&& f == encoded_fields(old(reader).rest())
                    &&& final(reader).advanced(old(reader), block_sizes_at(f.bits) as nat)
                },
                Err(e) => {
                    &&& e == Error::Io(IoError::UnexpectedEof)
                    &&& !encoded_fields_fit(old(reader).rest())
                },
            },
    {
        let ghost s = reader.rest();
        let bits: u32 = reader.read_u32()?;
        let size: u32 = bits & 0x3f;
        let compression_block_size: u32 = if size == 0x3f {
            let size: u32 = reader.read_u32()?;
            proof {
                lemma_next_field(s, 4, 4);
            }
            size
        } else {
            size << 11
        };
        let offset: u64 = EncodedFields::read_var(reader, bits, 31)?;
        proof {
            lemma_next_field(s, offset_at(bits), var_width(bits, 31));
        }
        let uncompressed: u64 = EncodedFields::read_var(reader, bits, 30)?;
        proof {
            lemma_next_field(s, uncompressed_at(bits), var_width(bits, 30));
        }
        let compressed: u64 = if (bits >> 23) & 0x3f == 0 {
            uncompressed
        } else {
            let compressed: u64 = EncodedFields::read_var(reader, bits, 29)?;
            proof {
                lemma_next_field(s, compressed_at(bits), var_width(bits, 29));
            }
            compressed
        };
        Ok(EncodedFields { bits, compression_block_size, offset, uncompressed, compressed })
    }
}

/// What the packed header at the start of `s` says.
pub open spec fn encoded_entry(s: Seq<u8>, version: Version) -> EntryView {
    let f = encoded_fields(s);
    let count = bits_block_count(f.bits);
    let encrypted = bits_encrypted(f.bits);
    let base = f.first_block(version);
    EntryView {
        offset: f.offset,
        compressed: f.compressed,
        uncompressed: f.uncompressed,
        compression_slot: bits_slot(f.bits),
        timestamp: None,
        hash: None,
        blocks: if count == 0 {
            None
        } else if stores_block_sizes(f.bits) {
            Some(laid_out(base, sizes_at(s, block_sizes_at(f.bits), count as nat), encrypted))
        } else {
            Some(seq![Block { start: base as u64, end: (base + f.compressed) as u64 }])
        },
        flags: if encrypted {
            1
        } else {
            0
        },
        compression_block_size: f.compression_block_size,
    }
}

/// Whether no block of the packed header at the start of `s` ends beyond what 64 bits can tell.
pub open spec fn encoded_addressable(s: Seq<u8>, version: Version) -> bool {
    encoded_fields_fit(s) ==> encoded_fields(s).addressable(version)
}

pub(crate) proof fn lemma_block_start_bound(base: int, sizes: Seq<u32>, encrypted: bool)
    ensures
        base <= block_start(base, sizes, encrypted) <= base + 0x1_0000_000f * sizes.len(),
    decreases sizes.len(),
{
    if sizes.len() > 0 {
        lemma_block_start_bound(base, sizes.drop_last(), encrypted);
    }
}

impl Entry {
    /// Reads a packed header. Where the blocks lie follows from the version, which tells how long
    /// the header in front of the data is.
    pub fn read_encoded(reader: &mut Reader<'_>, version: Version) -> (r: Result<Entry, Error>)
        requires
            encoded_addressable(old(reader).rest(), version),
        ensures
            final(reader).data == old(reader).data,
            match r {
                Ok(e) => {
                    &&& encoded_fits(old(reader).rest())
                    &&& e@ == encoded_entry(old(reader).rest(), version)
                    &&& final(reader).advanced(
                        old(reader),
                        encoded_len(old(reader).rest()) as nat,
                    )
                },
                Err(e) => {
                    &&& e == Error::Io(IoError::UnexpectedEof)
                    &&& !encoded_fits(old(reader).rest())
                },
            },
    {
        let ghost s = reader.rest();
        let fields = EncodedFields::read(reader)?;
        let compression_slot: Option<u32> = fields.compression_slot();
        let count: u32 = fields.block_count();
        let encrypted: bool = fields.encrypted();
        let base: u64 = Entry::get_serialized_size(version, compression_slot, count);
        let ghost at = block_sizes_at(fields.bits);
        assert(count <= 0xffff) by {
            let bits = fields.bits;
            assert((bits >> 6) & 0xffff <= 0xffff) by (bit_vector);
        }
        let blocks = if count == 1 && !encrypted {
            let mut blocks: Vec<Block> = Vec::new();
            blocks.push(Block { start: base, end: base + fields.compressed });
            Some(blocks)
        } else if count > 0 {
            Some(Entry::read_block_sizes(reader, count, base, encrypted, Ghost(s), Ghost(at))?)
        } else {
            None
        };
        let r = Entry {
            offset: fields.offset,
            compressed: fields.compressed,
            uncompressed: fields.uncompressed,
            compression_slot,
            timestamp: None,
            hash: None,
            blocks,
            flags: if encrypted {
                1
            } else {
                0
            },
            compression_block_size: fields.compression_block_size,
        };
        assert(r@ =~= encoded_entry(s, version));
        Ok(r)
    }

    /// The blocks whose sizes stand at `at` in `s`, where the reader is.
    fn read_block_sizes(
        reader: &mut Reader<'_>,
        count: u32,
        base: u64,
        encrypted: bool,
        Ghost(s): Ghost<Seq<u8>>,
        Ghost(at): Ghost<int>,
    ) -> (r: Result<Vec<Block>, Error>)
        requires
            count <= 0xffff,
            base <= 0x1_0000_0000_0000,
            0 <= at <= s.len(),
            old(reader).rest() == s.skip(at),
        ensures
            final(reader).data == old(reader).data,
            match r {
                Ok(blocks) => {
                    &&& blocks@ == laid_out(
                        base as int,
                        sizes_at(s, at, count as nat),
                        encrypted,
                    )
                    &&& final(reader).pos == old(reader).pos + 4 * count
                    &&& at + 4 * count <= s.len()
                    &&& final(reader).rest() == s.skip(at + 4 * count)
                },
                Err(e) => {
                    &&& e == Error::Io(IoError::UnexpectedEof)
                    &&& s.len() < at + 4 * count
                },
            },
    {
        let ghost sizes = sizes_at(s, at, count as nat);
        let ghost all = laid_out(base as int, sizes, encrypted);
        let mut blocks: Vec<Block> = Vec::new();
        let mut index: u64 = base;
        let mut i: u32 = 0;
        while i < count
            invariant
                i <= count <= 0xffff,
                base <= 0x1_0000_0000_0000,
                0 <= at,
                at + 4 * i <= s.len(),
                sizes == sizes_at(s, at, count as nat),
                all == laid_out(base as int, sizes, encrypted),
                reader.data == old(reader).data,
                reader.pos == old(reader).pos + 4 * i,
                reader.rest() == s.skip(at + 4 * i),
                index == block_start(base as int, sizes.take(i as int), encrypted),
                blocks@ == all.take(i as int),
            decreases count - i,
        {
            let size: u32 = reader.read_u32()?;
            let mut block_size: u64 = size as u64;
            proof {
                lemma_next_field(s, at + 4 * i, 4);
                lemma_block_start_bound(base as int, sizes.take(i as int), encrypted);
                assert(sizes.take(i + 1).drop_last() =~= sizes.take(i as int));
                assert(sizes.take(i + 1).last() == size);
            }
            let block = Block { start: index, end: index + block_size };
            if encrypted {
                block_size = align(block_size);
            }
            index += block_size;
            blocks.push(block);
            assert(all.take(i + 1) =~= all.take(i as int).push(block));
            i += 1;
        }
        assert(blocks@ =~= all);
        Ok(blocks)
    }
}

/// How the block size is packed.
pub open spec fn packed_block_size(size: u32) -> u32 {
    let units = (size >> 11) & 0x3f;
    if units << 11 == size {
        units
    } else {
        0x3f
    }
}

pub open spec fn fits_u32(v: u64) -> bool {
    v <= u32::MAX
}

pub open spec fn bit(b: bool) -> u32 {
    if b {
        1
    } else {
        0
    }
}

/// The number of blocks that is packed.
pub open spec fn packed_block_count(e: EntryView) -> u32 {
    if e.compression_slot is Some {
        e.blocks->0.len() as u32
    } else {
        0
    }
}

/// The first number of a packed header.
pub open spec fn packed_bits(e: EntryView) -> u32 {
    packed_block_size(e.compression_block_size) | (packed_block_count(e) << 6) | (bit(
        e.is_encrypted(),
    ) << 22) | ((slot_code(e.compression_slot) as u32) << 23) | (bit(fits_u32(e.compressed)) << 29)
        | (bit(fits_u32(e.uncompressed)) << 30) | (bit(fits_u32(e.offset)) << 31)
}

/// A number in four bytes if it fits, else in eight.
pub open spec fn var_bytes(v: u64) -> Seq<u8> {
    if fits_u32(v) {
        le_bytes(v as nat, 4)
    } else {
        le_bytes(v as nat, 8)
    }
}

/// The sizes of the blocks, four bytes each.
pub open spec fn block_sizes_bytes(blocks: Seq<Block>) -> Seq<u8>
    decreases blocks.len(),
{
    if blocks.len() == 0 {
        Seq::empty()
    } else {
        block_sizes_bytes(blocks.drop_last()) + le_bytes(
            (blocks.last().end - blocks.last().start) as nat,
            4,
        )
    }
}

/// Whether the sizes of the blocks are packed.
pub open spec fn packs_block_sizes(e: EntryView) -> bool {
    e.compression_slot is Some && (e.blocks->0.len() > 1 || e.is_encrypted())
}

/// The bytes of a packed header.
pub open spec fn encoded_bytes(e: EntryView) -> Seq<u8> {
    let size = if packed_block_size(e.compression_block_size) == 0x3f {
        le_bytes(e.compression_block_size as nat, 4)
    } else {
        Seq::empty()
    };
    let compressed = if e.compression_slot is Some {
        var_bytes(e.compressed)
    } else {
        Seq::empty()
    };
    let sizes = if packs_block_sizes(e) {
        block_sizes_bytes(e.blocks->0)
    } else {
        Seq::empty()
    };
    le_bytes(packed_bits(e) as nat, 4) + size + var_bytes(e.offset) + var_bytes(e.uncompressed)
        + compressed + sizes
}

/// Whether the size of a block has room in four bytes.
pub open spec fn block_size_fits(b: Block) -> bool {
    b.start <= b.end && b.end - b.start <= u32::MAX
}

impl Entry {
    fn write_var(writer: &mut Vec<u8>, v: u64)
        ensures
            final(writer)@ == old(writer)@ + var_bytes(v),
    {
        if v <= u32::MAX as u64 {
            put_u32(writer, v as u32);
        } else {
            put_u64(writer, v);
        }
    }

    /// Appends the packed header. A compressed entry needs its blocks, and where their sizes are
    /// stored, each has to fit.
    pub fn write_encoded(&self, writer: &mut Vec<u8>) -> (r: Result<(), Error>)
        requires
            self.compression_slot matches Some(n) ==> n < u32::MAX && self.blocks is Some,
            packs_block_sizes(self@) ==> forall|i: int|
                0 <= i < self@.blocks->0.len() ==> block_size_fits(#[trigger] self@.blocks->0[i]),
        ensures
            r is Ok,
            final(writer)@ == old(writer)@ + encoded_bytes(self@),
    {
        broadcast use lemma_append_both;

        let ghost before = writer@;
        let mut block_size: u32 = (self.compression_block_size >> 11) & 0x3f;
        if (block_size << 11) != self.compression_block_size {
            block_size = 0x3f;
        }
        let count: u32 = match (&self.compression_slot, &self.blocks) {
            (Some(_), Some(blocks)) => blocks.len() as u32,
            _ => 0,
        };
        let slot: u32 = match self.compression_slot {
            Some(n) => n + 1,
            None => 0,
        };
        let encrypted: u32 = if self.is_encrypted() {
            1
        } else {
            0
        };
        let compressed_short: u32 = if self.compressed <= u32::MAX as u64 {
            1
        } else {
            0
        };
        let uncompressed_short: u32 = if self.uncompressed <= u32::MAX as u64 {
            1
        } else {
            0
        };
        let offset_short: u32 = if self.offset <= u32::MAX as u64 {
            1
        } else {
            0
        };
        let flags: u32 = block_size | (count << 6) | (encrypted << 22) | (slot << 23) | (
        compressed_short << 29) | (uncompressed_short << 30) | (offset_short << 31);
        assert(flags == packed_bits(self@));
        put_u32(writer, flags);
        if block_size == 0x3f {
            put_u32(writer, self.compression_block_size);
        } else {
            assert(writer@ =~= writer@ + Seq::<u8>::empty());
        }
        Entry::write_var(writer, self.offset);
        Entry::write_var(writer, self.uncompressed);
        match (&self.compression_slot, &self.blocks) {
            (Some(_), Some(blocks)) => {
                Entry::write_var(writer, self.compressed);
                if blocks.len() > 1 || self.is_encrypted() {
                    Entry::write_block_sizes(blocks, writer);
                } else {
                    assert(writer@ =~= writer@ + Seq::<u8>::empty());
                }
            },
            _ => {
                assert(writer@ =~= writer@ + Seq::<u8>::empty());
            },
        }
        assert(writer@ == before + encoded_bytes(self@));
        Ok(())
    }

    fn write_block_sizes(blocks: &Vec<Block>, writer: &mut Vec<u8>)
        requires
            forall|i: int| 0 <= i < blocks@.len() ==> block_size_fits(#[trigger] blocks@[i]),
        ensures
            final(writer)@ == old(writer)@ + block_sizes_bytes(blocks@),
    {
        let ghost before = writer@;
        let mut i: usize = 0;
        assert(before =~= before + block_sizes_bytes(blocks@.take(0)));
        while i < blocks.len()
            invariant
                i <= blocks@.len(),
                forall|i: int| 0 <= i < blocks@.len() ==> block_size_fits(#[trigger] blocks@[i]),
                writer@ == before + block_sizes_bytes(blocks@.take(i as int)),
            decreases blocks@.len() - i,
        {
            broadcast use lemma_append_both;

            assert(block_size_fits(blocks@[i as int]));
            let size: u64 = blocks[i].end - blocks[i].start;
            put_u32(writer, size as u32);
            proof {
                let more = blocks@.take(i + 1);
                assert(more.drop_last() =~= blocks@.take(i as int));
                assert(more.last() == blocks@[i as int]);
            }
            i += 1;
        }
        assert(blocks@.take(blocks@.len() as int) =~= blocks@);
    }
}

/// The sizes of these blocks.
pub open spec fn block_sizes(blocks: Seq<Block>) -> Seq<u32> {
    Seq::new(blocks.len(), |i: int| (blocks[i].end - blocks[i].start) as u32)
}

impl EntryView {
    /// Whether a packed header has room for the slot and the number of blocks of the entry, and
    /// the blocks lie where the reader expects them: one behind the other from the end of the
    /// header in front of the data on, each starting at a cipher block if they are encrypted.
    pub open spec fn encodable(self, version: Version) -> bool {
        self.compression_slot matches Some(n) ==> {
            let blocks = self.blocks->0;
            let base = Entry::serialized_size(version, self.compression_slot, blocks.len() as u32);
            &&& n < 0x3f
            &&& self.blocks is Some
            &&& blocks.len() <= 0xffff
            &&& if packs_block_sizes(self) {
                &&& forall|i: int| 0 <= i < blocks.len() ==> block_size_fits(#[trigger] blocks[i])
                &&& blocks == laid_out(base, block_sizes(blocks), self.is_encrypted())
            } else {
                blocks.len() == 1 ==> {
                    &&& blocks[0].start == base
                    &&& blocks[0].end == base + self.compressed
                }
            }
        }
    }

    /// What a packed header keeps of an entry.
    pub open spec fn encoded_kept(self) -> EntryView {
        EntryView {
            compressed: if self.compression_slot is Some {
                self.compressed
            } else {
                self.uncompressed
            },
            timestamp: None,
            hash: None,
            blocks: if self.compression_slot is Some && self.blocks->0.len() > 0 {
                self.blocks
            } else {
                None
            },
            flags: if self.is_encrypted() {
                1
            } else {
                0
            },
            ..self
        }
    }
}

/// The parts of the first number do not touch each other.
pub(crate) proof fn lemma_bits_apart(
    size: u32,
    count: u32,
    enc: u32,
    slot: u32,
    c: u32,
    u: u32,
    o: u32,
)
    requires
        size <= 0x3f,
        count <= 0xffff,
        enc <= 1,
        slot <= 0x3f,
        c <= 1,
        u <= 1,
        o <= 1,
    ensures
        ({
            let bits = size | (count << 6) | (enc << 22) | (slot << 23) | (c << 29) | (u << 30) | (o
                << 31);
            &&& bits & 0x3f == size
            &&& (bits >> 6) & 0xffff == count
            &&& (bits & (1u32 << 22) != 0) == (enc == 1)
            &&& (bits >> 23) & 0x3f == slot
            &&& (bits & (1u32 << 29) != 0) == (c == 1)
            &&& (bits & (1u32 << 30) != 0) == (u == 1)
            &&& (bits & (1u32 << 31) != 0) == (o == 1)
        }),
{
    let bits = size | (count << 6) | (enc << 22) | (slot << 23) | (c << 29) | (u << 30) | (o << 31);
    assert(bits & 0x3f == size && (bits >> 6) & 0xffff == count && (bits & (1u32 << 22) != 0) == (
    enc == 1) && (bits >> 23) & 0x3f == slot && (bits & (1u32 << 29) != 0) == (c == 1) && (bits & (
    1u32 << 30) != 0) == (u == 1) && (bits & (1u32 << 31) != 0) == (o == 1)) by (bit_vector)
        requires
            bits == size | (count << 6) | (enc << 22) | (slot << 23) | (c << 29) | (u << 30) | (o
                << 31),
            size <= 0x3f,
            count <= 0xffff,
            enc <= 1,
            slot <= 0x3f,
            c <= 1,
            u <= 1,
            o <= 1,
    ;
}

pub(crate) proof fn lemma_packed_bits(e: EntryView, version: Version)
    requires
        e.encodable(version),
    ensures
        ({
            let bits = packed_bits(e);
            &&& bits_block_size(bits) == packed_block_size(e.compression_block_size)
            &&& bits_block_count(bits) == packed_block_count(e)
            &&& bits_encrypted(bits) == e.is_encrypted()
            &&& bits_slot(bits) == e.compression_slot
            &&& var_width(bits, 29) == var_bytes(e.compressed).len()
            &&& var_width(bits, 30) == var_bytes(e.uncompressed).len()
            &&& var_width(bits, 31) == var_bytes(e.offset).len()
        }),
{
    let size = e.compression_block_size;
    assert((size >> 11) & 0x3f <= 0x3f) by (bit_vector);
    lemma_bits_apart(
        packed_block_size(size),
        packed_block_count(e),
        bit(e.is_encrypted()),
        slot_code(e.compression_slot) as u32,
        bit(fits_u32(e.compressed)),
        bit(fits_u32(e.uncompressed)),
        bit(fits_u32(e.offset)),
    );
    lemma_var_len(e.compressed);
    lemma_var_len(e.uncompressed);
    lemma_var_len(e.offset);
}

pub(crate) proof fn lemma_var_len(v: u64)
    ensures
        var_bytes(v).len() == (if fits_u32(v) {
            4nat
        } else {
            8
        }),
{
    lemma_le_bytes_len(v as nat, 4);
    lemma_le_bytes_len(v as nat, 8);
}

pub(crate) proof fn lemma_var_found(s: Seq<u8>, at: int, v: u64)
    requires
        0 <= at,
        at + var_bytes(v).len() <= s.len(),
        s.subrange(at, at + var_bytes(v).len()) == var_bytes(v),
    ensures
        le_at(s, at, var_bytes(v).len() as int) == v,
{
    lemma_var_len(v);
    lemma_le_limits();
    lemma_found(s, at, v as nat, var_bytes(v).len());
}

pub(crate) proof fn lemma_sizes_found(s: Seq<u8>, at: int, blocks: Seq<Block>)
    requires
        0 <= at,
        at + block_sizes_bytes(blocks).len() <= s.len(),
        s.subrange(at, at + block_sizes_bytes(blocks).len()) == block_sizes_bytes(blocks),
        forall|i: int| 0 <= i < blocks.len() ==> block_size_fits(#[trigger] blocks[i]),
    ensures
        block_sizes_bytes(blocks).len() == 4 * blocks.len(),
        sizes_at(s, at, blocks.len()) == block_sizes(blocks),
    decreases blocks.len(),
{
    if blocks.len() > 0 {
        let front = blocks.drop_last();
        let fb = block_sizes_bytes(front);
        let all = block_sizes_bytes(blocks);
        let size = (blocks.last().end - blocks.last().start) as nat;
        assert(block_size_fits(blocks[blocks.len() - 1]));
        lemma_le_bytes_len(size, 4);
        lemma_le_limits();
        assert(s.subrange(at, at + fb.len()) =~= all.subrange(0, fb.len() as int));
        assert(all.subrange(0, fb.len() as int) =~= fb);
        lemma_sizes_found(s, at, front);
        let last = at + fb.len();
        assert(s.subrange(last, last + 4) =~= all.subrange(fb.len() as int, fb.len() + 4int));
        assert(s.subrange(last, last + 4) =~= le_bytes(size, 4));
        lemma_found(s, last, size, 4);
        assert forall|i: int| 0 <= i < blocks.len() implies sizes_at(s, at, blocks.len())[i]
            == block_sizes(blocks)[i] by {
            if i < blocks.len() - 1 {
                assert(sizes_at(s, at, front.len())[i] == block_sizes(front)[i]);
            }
        }
        assert(sizes_at(s, at, blocks.len()) =~= block_sizes(blocks));
    } else {
        assert(sizes_at(s, at, blocks.len()) =~= block_sizes(blocks));
    }
}

/// Reading a packed header gives back what was written of the entry, whatever follows the
/// header, and stops at its end.
pub proof fn law_encoded_read_back(e: EntryView, version: Version, after: Seq<u8>)
    requires
        e.encodable(version),
    ensures
        ({
            let s = encoded_bytes(e) + after;
            &&& encoded_addressable(s, version)
            &&& encoded_fits(s)
            &&& encoded_len(s) == encoded_bytes(e).len()
            &&& encoded_entry(s, version) == e.encoded_kept()
        }),
{
    let s = encoded_bytes(e) + after;
    let bits = packed_bits(e);
    let size = e.compression_block_size;
    lemma_packed_bits(e, version);
    lemma_le_limits();
    lemma_le_bytes_len(bits as nat, 4);
    lemma_le_bytes_len(size as nat, 4);
    lemma_var_len(e.compressed);
    assert(s.subrange(0, 4) =~= le_bytes(bits as nat, 4));
    lemma_found(s, 0, bits as nat, 4);
    if packed_block_size(size) == 0x3f {
        assert(s.subrange(4, 8) =~= le_bytes(size as nat, 4));
        lemma_found(s, 4, size as nat, 4);
    }
    let o = offset_at(bits);
    let u = uncompressed_at(bits);
    let c = compressed_at(bits);
    let b = block_sizes_at(bits);
    assert(s.subrange(o, u) =~= var_bytes(e.offset));
    lemma_var_found(s, o, e.offset);
    assert(s.subrange(u, c) =~= var_bytes(e.uncompressed));
    lemma_var_found(s, u, e.uncompressed);
    if e.compression_slot is Some {
        let blocks = e.blocks->0;
        assert(s.subrange(c, b) =~= var_bytes(e.compressed));
        lemma_var_found(s, c, e.compressed);
        if packs_block_sizes(e) {
            let sizes = block_sizes_bytes(blocks);
            assert(s.subrange(b, b + sizes.len()) =~= sizes);
            lemma_sizes_found(s, b, blocks);
        } else if blocks.len() == 1 {
            assert(encoded_entry(s, version).blocks->0 =~= blocks);
        }
    }
    assert(encoded_entry(s, version) =~= e.encoded_kept());
}

/// The size of a block fits if it is not negative and four bytes can tell it.
pub proof fn law_block_size_fits(b: Block)
    ensures
        block_size_fits(b) <==> 0 <= b.end - b.start < 0x1_0000_0000,
{
}

} // verus!
