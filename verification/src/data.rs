//! The data of a file on its way into an archive.

use crate::blocks::{chunk_len, chunk_views, joined, lemma_joined_push, lemma_used, zeros};
use crate::bytes::put_slice;
use crate::cipher::{decrypted, encrypt, encrypted};
use crate::codec::{compress, compressed_as};
use crate::entry::{Block, Entry, EntryView};
use crate::error::Error;
use crate::variant::{EncryptionContext, EncryptionPlan, PakVariant};
use crate::version::{Compression, Version, VersionMajor};
use sha1::{Digest, Sha1};
use vstd::prelude::*;
use vstd::string::StringExecFns;

verus! {

/// `length`, moved up to the next multiple of `alignment`.
pub open spec fn padded(length: int, alignment: int) -> int {
    (length + alignment - 1) / alignment * alignment
}

proof fn lemma_padded(length: int, alignment: int)
    requires
        0 <= length,
        0 < alignment,
    ensures
        padded(length, alignment) == length + (alignment - length % alignment) % alignment,
        padded(length, alignment) % alignment == 0,
        length <= padded(length, alignment) < length + alignment,
{
    let q = length / alignment;
    let r = length % alignment;
    assert(length == q * alignment + r && 0 <= r < alignment) by (nonlinear_arith)
        requires
            q == length / alignment,
            r == length % alignment,
            0 < alignment,
    ;
    if r == 0 {
        assert((length + alignment - 1) / alignment == q) by (nonlinear_arith)
            requires
                length == q * alignment,
                0 < alignment,
        ;
        assert((alignment - r) % alignment == 0) by (nonlinear_arith)
            requires
                r == 0,
                0 < alignment,
        ;
    } else {
        assert((length + alignment - 1) / alignment == q + 1) by (nonlinear_arith)
            requires
                length == q * alignment + r,
                0 < r < alignment,
        ;
        assert((alignment - r) % alignment == alignment - r) by (nonlinear_arith)
            requires
                0 < r < alignment,
        ;
        assert((q + 1) * alignment == q * alignment + alignment) by (nonlinear_arith);
    }
    let n = (length + alignment - 1) / alignment;
    assert((n * alignment) % alignment == 0) by (nonlinear_arith)
        requires
            0 < alignment,
    ;
}

pub fn pad_length(length: usize, alignment: usize) -> (r: usize)
    requires
        alignment > 0,
        padded(length as int, alignment as int) <= usize::MAX,
    ensures
        r == padded(length as int, alignment as int),
        r % alignment == 0,
        length <= r < length + alignment,
{
    proof {
        lemma_padded(length as int, alignment as int);
    }
    length + (alignment - length % alignment) % alignment
}

/// Fills up with zeros to the next multiple of `alignment`.
pub fn pad_zeros_to_alignment(v: &mut Vec<u8>, alignment: usize)
    requires
        alignment > 0,
        padded(old(v)@.len() as int, alignment as int) <= usize::MAX,
    ensures
        final(v)@ == old(v)@ + zeros(
            padded(old(v)@.len() as int, alignment as int) - old(v)@.len(),
        ),
{
    let ghost before = v@;
    proof {
        lemma_padded(v@.len() as int, alignment as int);
    }
    let n: usize = pad_length(v.len(), alignment);
    v.resize(n, 0);
    assert(v@ =~= before + zeros(n - before.len()));
}

/// The SHA-1 hash of these bytes.
pub uninterp spec fn sha1_digest(data: Seq<u8>) -> Seq<u8>;

/// `sha1::Sha1` (`new`, `update` and `finalize` of `sha1::Digest`): the hash, 20 bytes, of
/// `data`. It depends on `data` alone; the algorithm is not stated.
#[verifier::external_body]
pub(crate) fn sha1_hash(data: &[u8]) -> (r: [u8; 20])
    ensures
        r@ == sha1_digest(data@),
{
    let mut hasher = Sha1::new();
    hasher.update(data);
    hasher.finalize().into()
}

/// The hash of a file's data.
#[derive(Debug, Clone, Copy, PartialEq, Eq)]
pub struct Hash(pub [u8; 20]);

/// The position of the first slot with this content, or the number of slots if there is none.
pub open spec fn first_index(slots: Seq<Option<Compression>>, content: Option<Compression>) -> int
    decreases slots.len(),
{
    if slots.len() == 0 || slots[0] == content {
        0
    } else {
        1 + first_index(slots.drop_first(), content)
    }
}

proof fn lemma_first_index(slots: Seq<Option<Compression>>, content: Option<Compression>)
    ensures
        0 <= first_index(slots, content) <= slots.len(),
        forall|k: int| 0 <= k < first_index(slots, content) ==> slots[k] != content,
        first_index(slots, content) < slots.len() ==> slots[first_index(slots, content)] == content,
    decreases slots.len(),
{
    if slots.len() > 0 && slots[0] != content {
        let rest = slots.drop_first();
        lemma_first_index(rest, content);
        assert forall|k: int| 0 <= k < first_index(slots, content) implies slots[k] != content by {
            if k > 0 {
                assert(slots[k] == rest[k - 1]);
            }
        }
    }
}

/// The slot that a method gets: the one it has, else the first free one, else a new one.
pub open spec fn slot_for(slots: Seq<Option<Compression>>, method: Compression) -> int {
    if slots.contains(Some(method)) {
        first_index(slots, Some(method))
    } else {
        first_index(slots, None)
    }
}

/// The slots after a method got its own.
pub open spec fn slots_with(slots: Seq<Option<Compression>>, method: Compression) -> Seq<
    Option<Compression>,
> {
    if slots.contains(Some(method)) {
        slots
    } else if slot_for(slots, method) < slots.len() {
        slots.update(slot_for(slots, method), Some(method))
    } else {
        slots.push(Some(method))
    }
}

/// Whether a method has a slot, or can be given one: older archives have fixed slots.
pub open spec fn slot_allowed(
    version: Version,
    slots: Seq<Option<Compression>>,
    method: Compression,
) -> bool {
    slots.contains(Some(method)) || version.version_major().at_least(
        VersionMajor::FNameBasedCompression,
    )
}

/// What an error says that reports a method without a slot.
pub open spec fn no_slot_message(method: Compression) -> Seq<char> {
    "cannot use "@ + method.spec_name() + " prior to FNameBasedCompression (pak version 8)"@
}

fn find_slot(slots: &Vec<Option<Compression>>, content: Option<Compression>) -> (r: usize)
    ensures
        r == first_index(slots@, content),
        r < slots@.len() <==> slots@.contains(content),
{
    proof {
        lemma_first_index(slots@, content);
    }
    let mut i: usize = 0;
    while i < slots.len() && slots[i] != content
        invariant
            i <= slots@.len(),
            forall|k: int| 0 <= k < i ==> slots@[k] != content,
        decreases slots@.len() - i,
    {
        i += 1;
    }
    i
}

/// The slot of a method, which is given one if it has none.
pub fn get_compression_slot(
    version: Version,
    compression_slots: &mut Vec<Option<Compression>>,
    compression: Compression,
) -> (r: Result<u32, Error>)
    ensures
        match r {
            Ok(slot) => {
                &&& slot_allowed(version, old(compression_slots)@, compression)
                &&& slot == slot_for(old(compression_slots)@, compression) as u32
                &&& final(compression_slots)@ == slots_with(old(compression_slots)@, compression)
            },
            Err(e) => {
                &&& !slot_allowed(version, old(compression_slots)@, compression)
                &&& e matches Error::Other(m) && m@ == no_slot_message(compression)
                &&& final(compression_slots)@ == old(compression_slots)@
            },
        },
{
    let i: usize = find_slot(compression_slots, Some(compression));
    if i < compression_slots.len() {
        return Ok(i as u32);
    }
    if !version.version_major().at_least(VersionMajor::FNameBasedCompression) {
        let mut message = String::new();
        message.append("cannot use ");
        message.append(compression.name());
        message.append(" prior to FNameBasedCompression (pak version 8)");
        assert(message@ =~= no_slot_message(compression));
        return Err(Error::Other(message));
    }
    let i: usize = find_slot(compression_slots, None);
    if i < compression_slots.len() {
        compression_slots.set(i, Some(compression));
    } else {
        compression_slots.push(Some(compression));
    }
    Ok(i as u32)
}

/// The slot that a method was given holds it.
pub proof fn law_slot_holds_method(slots: Seq<Option<Compression>>, method: Compression)
    ensures
        0 <= slot_for(slots, method) < slots_with(slots, method).len(),
        slots_with(slots, method)[slot_for(slots, method)] == Some(method),
{
    lemma_first_index(slots, Some(method));
    lemma_first_index(slots, None);
}

/// Giving a method a slot does not change the slots of others.
pub proof fn law_slots_kept(slots: Seq<Option<Compression>>, method: Compression, i: int)
    requires
        0 <= i < slots.len(),
        slots[i] is Some,
    ensures
        slots_with(slots, method)[i] == slots[i],
{
    lemma_first_index(slots, None);
}

/// A method that was given a slot keeps it.
pub proof fn law_slot_again(slots: Seq<Option<Compression>>, method: Compression)
    ensures
        slot_for(slots_with(slots, method), method) == slot_for(slots, method),
        slots_with(slots_with(slots, method), method) == slots_with(slots, method),
{
    let after = slots_with(slots, method);
    let i = slot_for(slots, method);
    law_slot_holds_method(slots, method);
    lemma_first_index(slots, Some(method));
    lemma_first_index(slots, None);
    lemma_first_index(after, Some(method));
    assert(after.contains(Some(method)));
    let k = first_index(after, Some(method));
    if !slots.contains(Some(method)) && k < i {
        assert(after[k] == slots[k]);
        assert(slots.contains(after[k]));
    }
}

/// How many bytes of a file go into each block. The packed headers can hold no larger size in
/// their own field, and some readers know no other.
pub const COMPRESSION_BLOCK_SIZE: u32 = 126976;

/// How long a block is before and after compression.
#[derive(Debug, Clone, Copy, PartialEq, Eq, Structural)]
pub struct PartialBlock {
    pub uncompressed_size: usize,
    pub compressed_size: usize,
}

/// The data of an entry as it goes into the archive.
#[derive(Debug)]
pub enum PartialEntryData<'a> {
    /// The caller's data.
    Slice(&'a [u8]),
    /// All blocks, one after the other, so that they can be encrypted in one go, and where each
    /// ends. There are none if the data is encrypted but not compressed.
    Blocks { data: Vec<u8>, blocks: Vec<PartialBlock> },
}

impl<'a> PartialEntryData<'a> {
    pub open spec fn bytes(self) -> Seq<u8> {
        match self {
            PartialEntryData::Slice(data) => data@,
            PartialEntryData::Blocks { data, .. } => data@,
        }
    }

    pub open spec fn blocks(self) -> Seq<PartialBlock> {
        match self {
            PartialEntryData::Slice(_) => Seq::empty(),
            PartialEntryData::Blocks { blocks, .. } => blocks@,
        }
    }

    pub fn as_bytes(&self) -> (r: &[u8])
        ensures
            r@ == self.bytes(),
    {
        match self {
            PartialEntryData::Slice(data) => data,
            PartialEntryData::Blocks { data, .. } => data.as_slice(),
        }
    }
}

/// An entry whose place in the archive is not known yet.
#[derive(Debug)]
pub struct PartialEntry<'a> {
    pub compression: Option<Compression>,
    pub compressed_size: u64,
    pub uncompressed_size: u64,
    pub compression_block_size: u32,
    pub data: PartialEntryData<'a>,
    pub encrypted: bool,
    pub hash: Hash,
}

/// How many bytes these blocks have after compression.
pub open spec fn total_size(blocks: Seq<PartialBlock>) -> int
    decreases blocks.len(),
{
    if blocks.len() == 0 {
        0
    } else {
        total_size(blocks.drop_last()) + blocks.last().compressed_size
    }
}

/// Where the blocks lie, one behind the other from `base` on.
pub open spec fn blocks_from(base: int, blocks: Seq<PartialBlock>) -> Seq<Block> {
    Seq::new(
        blocks.len(),
        |i: int|
            Block {
                start: (base + total_size(blocks.take(i))) as u64,
                end: (base + total_size(blocks.take(i + 1))) as u64,
            },
    )
}

pub proof fn lemma_total_size(blocks: Seq<PartialBlock>, i: int)
    requires
        0 <= i < blocks.len(),
    ensures
        total_size(blocks.take(i + 1)) == total_size(blocks.take(i)) + blocks[i].compressed_size,
        0 <= total_size(blocks.take(i)),
        total_size(blocks.take(i + 1)) <= total_size(blocks),
    decreases blocks.len(),
{
    assert(blocks.take(i + 1).drop_last() =~= blocks.take(i));
    if i > 0 {
        lemma_total_size(blocks.take(i), i - 1);
        assert(blocks.take(i).take(i) =~= blocks.take(i));
    }
    if i + 1 < blocks.len() {
        lemma_total_size(blocks.drop_last(), i);
        assert(blocks.drop_last().take(i + 1) =~= blocks.take(i + 1));
        assert(blocks.drop_last().take(i) =~= blocks.take(i));
    } else {
        assert(blocks.take(i + 1) =~= blocks);
    }
}

impl<'a> PartialEntry<'a> {
    /// The slot that the entry gets.
    pub open spec fn slot(self, slots: Seq<Option<Compression>>) -> Option<u32> {
        match self.compression {
            Some(method) => Some(slot_for(slots, method) as u32),
            None => None,
        }
    }

    /// The slots after the entry got its own.
    pub open spec fn slots_after(self, slots: Seq<Option<Compression>>) -> Seq<
        Option<Compression>,
    > {
        match self.compression {
            Some(method) => slots_with(slots, method),
            None => slots,
        }
    }

    /// Where the first block starts: behind the header, counted from the start of the header since
    /// version 5, and from the start of the archive before.
    pub open spec fn first_block(
        self,
        version: Version,
        slots: Seq<Option<Compression>>,
        file_offset: u64,
    ) -> int {
        let header = Entry::serialized_size(
            version,
            self.slot(slots),
            self.data.blocks().len() as u32,
        );
        if version.version_major().at_least(VersionMajor::RelativeChunkOffsets) {
            header
        } else {
            header + file_offset
        }
    }

    /// The header of the entry when it is placed at `file_offset`.
    pub open spec fn entry_at(
        self,
        version: Version,
        slots: Seq<Option<Compression>>,
        file_offset: u64,
    ) -> EntryView {
        EntryView {
            offset: file_offset,
            compressed: self.compressed_size,
            uncompressed: self.uncompressed_size,
            compression_slot: self.slot(slots),
            timestamp: None,
            hash: Some(self.hash.0@),
            blocks: if self.data.blocks().len() == 0 {
                None
            } else {
                Some(
                    blocks_from(self.first_block(version, slots, file_offset), self.data.blocks()),
                )
            },
            flags: if self.encrypted {
                1
            } else {
                0
            },
            compression_block_size: self.compression_block_size,
        }
    }

    /// Whether the end of the last block can be told in 64 bits.
    pub open spec fn placeable(
        self,
        version: Version,
        slots: Seq<Option<Compression>>,
        file_offset: u64,
    ) -> bool {
        self.data.blocks().len() > 0 ==> self.first_block(version, slots, file_offset)
            + total_size(self.data.blocks()) <= u64::MAX
    }

    pub fn is_placeable(
        &self,
        version: Version,
        compression_slots: &Vec<Option<Compression>>,
        file_offset: u64,
    ) -> (r: bool)
        ensures
            r == self.placeable(version, compression_slots@, file_offset),
    {
        let blocks = match &self.data {
            PartialEntryData::Slice(_) => return true,
            PartialEntryData::Blocks { blocks, .. } => blocks,
        };
        if blocks.len() == 0 {
            return true;
        }
        // how long the header is depends on whether there is a slot, not on which
        let slot: Option<u32> = match self.compression {
            Some(_) => Some(0),
            None => None,
        };
        let header: u64 = Entry::get_serialized_size(version, slot, blocks.len() as u32);
        proof {
            lemma_total_size(blocks@, 0);
        }
        let mut room: u64 = u64::MAX - header;
        if !version.version_major().at_least(VersionMajor::RelativeChunkOffsets) {
            if file_offset > room {
                return false;
            }
            room -= file_offset;
        }
        let ghost whole = room;
        assert(whole == u64::MAX - self.first_block(version, compression_slots@, file_offset));
        let mut i: usize = 0;
        while i < blocks.len()
            invariant
                i <= blocks@.len(),
                blocks@ == self.data.blocks(),
                blocks@.len() > 0,
                whole == u64::MAX - self.first_block(version, compression_slots@, file_offset),
                room == whole - total_size(blocks@.take(i as int)),
            decreases blocks@.len() - i,
        {
            proof {
                lemma_total_size(blocks@, i as int);
            }
            let size: u64 = blocks[i].compressed_size as u64;
            if size > room {
                return false;
            }
            room -= size;
            i += 1;
        }
        assert(blocks@.take(i as int) =~= blocks@);
        true
    }

    pub fn build_entry(
        &self,
        version: Version,
        compression_slots: &mut Vec<Option<Compression>>,
        file_offset: u64,
    ) -> (r: Result<Entry, Error>)
        requires
            self.placeable(version, old(compression_slots)@, file_offset),
        ensures
            match r {
                Ok(entry) => {
                    &&& self.compression matches Some(method) ==> slot_allowed(
                        version,
                        old(compression_slots)@,
                        method,
                    )
                    &&& entry@ == self.entry_at(version, old(compression_slots)@, file_offset)
                    &&& final(compression_slots)@ == self.slots_after(old(compression_slots)@)
                },
                Err(e) => {
                    &&& self.compression matches Some(method) && !slot_allowed(
                        version,
                        old(compression_slots)@,
                        method,
                    ) && (e matches Error::Other(m) && m@ == no_slot_message(method))
                    &&& final(compression_slots)@ == old(compression_slots)@
                },
            },
    {
        let ghost slots = compression_slots@;
        let compression_slot: Option<u32> = match self.compression {
            Some(method) => Some(get_compression_slot(version, compression_slots, method)?),
            None => None,
        };
        let blocks = match &self.data {
            PartialEntryData::Slice(_) => None,
            PartialEntryData::Blocks { blocks, .. } => if blocks.len() == 0 {
                None
            } else {
                let mut base: u64 = Entry::get_serialized_size(
                    version,
                    compression_slot,
                    blocks.len() as u32,
                );
                proof {
                    lemma_total_size(blocks@, 0);
                }
                if !version.version_major().at_least(VersionMajor::RelativeChunkOffsets) {
                    base += file_offset;
                }
                assert(base == self.first_block(version, slots, file_offset));
                Some(PartialEntry::place_blocks(blocks, base))
            },
        };
        let entry = Entry {
            offset: file_offset,
            compressed: self.compressed_size,
            uncompressed: self.uncompressed_size,
            compression_slot,
            timestamp: None,
            hash: Some(self.hash.0),
            blocks,
            flags: if self.encrypted {
                1
            } else {
                0
            },
            compression_block_size: self.compression_block_size,
        };
        assert(entry@ =~= self.entry_at(version, slots, file_offset));
        Ok(entry)
    }

    fn place_blocks(blocks: &Vec<PartialBlock>, base: u64) -> (r: Vec<Block>)
        requires
            base + total_size(blocks@) <= u64::MAX,
        ensures
            r@ == blocks_from(base as int, blocks@),
    {
        let ghost all = blocks_from(base as int, blocks@);
        let mut placed: Vec<Block> = Vec::new();
        let mut offset: u64 = base;
        let mut i: usize = 0;
        while i < blocks.len()
            invariant
                i <= blocks@.len(),
                base + total_size(blocks@) <= u64::MAX,
                all == blocks_from(base as int, blocks@),
                offset == base + total_size(blocks@.take(i as int)),
                placed@ == all.take(i as int),
            decreases blocks@.len() - i,
        {
            proof {
                lemma_total_size(blocks@, i as int);
            }
            let start: u64 = offset;
            offset += blocks[i].compressed_size as u64;
            let block = Block { start, end: offset };
            placed.push(block);
            assert(all.take(i + 1) =~= all.take(i as int).push(block));
            i += 1;
        }
        assert(placed@ =~= all);
        placed
    }

    /// Appends the data of the entry.
    pub fn write_data(&self, stream: &mut Vec<u8>) -> (r: Result<(), Error>)
        ensures
            r is Ok,
            final(stream)@ == old(stream)@ + self.data.bytes(),
    {
        put_slice(stream, self.data.as_bytes());
        Ok(())
    }
}

/// The data before encryption, grown as planned.
pub open spec fn grown(plan: EncryptionPlan, data: Seq<u8>) -> Seq<u8> {
    data + zeros(plan.final_len - data.len())
}

/// The data with as many leading bytes encrypted as planned.
pub open spec fn protected(
    variant: PakVariant,
    key: Seq<u8>,
    plan: EncryptionPlan,
    data: Seq<u8>,
) -> Seq<u8> {
    let s = grown(plan, data);
    let n = plan.encrypted_len as int;
    encrypted(variant, key, s.take(n)) + s.skip(n)
}

/// Data with this many leading bytes decrypted.
pub open spec fn restored(variant: PakVariant, key: Seq<u8>, n: int, data: Seq<u8>) -> Seq<u8> {
    decrypted(variant, key, data.take(n)) + data.skip(n)
}

/// Encrypts what the plan says, after growing the buffer as it says, and tells whether anything
/// was encrypted. Decrypting as many bytes gives the grown buffer back.
pub fn protect(
    variant: PakVariant,
    key: &[u8; 32],
    plan: EncryptionPlan,
    buf: &mut Vec<u8>,
) -> (r: bool)
    requires
        old(buf)@.len() <= plan.final_len,
        plan.encrypted_len <= plan.final_len,
        plan.encrypted_len % 16 == 0,
    ensures
        r == (plan.encrypted_len > 0),
        final(buf)@ == protected(variant, key@, plan, old(buf)@),
        restored(variant, key@, plan.encrypted_len as int, final(buf)@) == grown(
            plan,
            old(buf)@,
        ),
{
    let ghost s = grown(plan, buf@);
    let n: usize = plan.encrypted_len;
    if plan.final_len > buf.len() {
        buf.resize(plan.final_len, 0);
    }
    assert(buf@ =~= s);
    if n > 0 {
        let (head, _) = buf.as_mut_slice().split_at_mut(n);
        assert(head@ =~= s.take(n as int));
        encrypt(variant, key, head);
        let ghost coded = head@;
        assert(buf@ =~= coded + s.skip(n as int));
        assert(buf@.take(n as int) =~= coded);
        assert(buf@.skip(n as int) =~= s.skip(n as int));
    } else {
        assert(encrypted(variant, key@, s.take(0)) =~= Seq::<u8>::empty());
        assert(decrypted(variant, key@, s.take(0)) =~= Seq::<u8>::empty());
    }
    assert(restored(variant, key@, n as int, buf@) =~= s);
    assert(buf@ =~= protected(variant, key@, plan, old(buf)@));
    n > 0
}

/// The bytes of a file that go into the block at `i`.
pub open spec fn chunk_of(data: Seq<u8>, i: int) -> Seq<u8> {
    let size = COMPRESSION_BLOCK_SIZE as int;
    data.subrange(i * size, i * size + chunk_len(data.len() as int, size, i))
}

/// How many blocks a file is split into.
pub open spec fn chunk_count(len: nat) -> nat {
    ((len + COMPRESSION_BLOCK_SIZE - 1) / (COMPRESSION_BLOCK_SIZE as int)) as nat
}

/// These are the blocks that a file is compressed to.
pub open spec fn packed<O: Fn(&[u8]) -> Result<Vec<u8>, Error>>(
    method: Compression,
    oodle: O,
    data: Seq<u8>,
    parts: Seq<Seq<u8>>,
) -> bool {
    &&& parts.len() == chunk_count(data.len())
    &&& forall|i: int|
        0 <= i < parts.len() ==> compressed_as(
            method,
            oodle,
            chunk_of(data, i),
            #[trigger] parts[i],
        )
}

/// The Oodle compressor that was handed in fails on one of the blocks of a file.
pub open spec fn pack_failed<O: Fn(&[u8]) -> Result<Vec<u8>, Error>>(
    method: Compression,
    oodle: O,
    data: Seq<u8>,
    e: Error,
) -> bool {
    &&& method == Compression::Oodle
    &&& exists|s: &[u8], i: int|
        {
            &&& 0 <= i < chunk_count(data.len())
            &&& s@ == #[trigger] chunk_of(data, i)
            &&& #[trigger] call_ensures(oodle, (s,), Err(e))
        }
}

/// How long each block is before and after compression.
pub open spec fn part_sizes(data: Seq<u8>, parts: Seq<Seq<u8>>) -> Seq<PartialBlock> {
    Seq::new(
        parts.len(),
        |i: int|
            PartialBlock {
                uncompressed_size: chunk_of(data, i).len() as usize,
                compressed_size: parts[i].len() as usize,
            },
    )
}

/// Puts the compressed blocks of a file one after the other, and notes how long each is.
pub fn gather(parts: &Vec<Vec<u8>>, data: &[u8]) -> (r: (Vec<u8>, Vec<PartialBlock>))
    requires
        parts@.len() <= chunk_count(data@.len()),
    ensures
        r.0@ == joined(chunk_views(parts@)),
        r.1@ == part_sizes(data@, chunk_views(parts@)),
{
    let size: usize = COMPRESSION_BLOCK_SIZE as usize;
    let ghost views = chunk_views(parts@);
    let mut concatenated: Vec<u8> = Vec::new();
    let mut blocks: Vec<PartialBlock> = Vec::new();
    let mut left: usize = data.len();
    let mut i: usize = 0;
    assert(joined(views.take(0)) =~= concatenated@);
    while i < parts.len()
        invariant
            i <= parts@.len() <= chunk_count(data@.len()),
            size == COMPRESSION_BLOCK_SIZE,
            views == chunk_views(parts@),
            i < parts@.len() ==> left == data@.len() - i * size,
            concatenated@ == joined(views.take(i as int)),
            blocks@ == part_sizes(data@, views).take(i as int),
        decreases parts@.len() - i,
    {
        let len: usize = if size <= left { size } else { left };
        let block = PartialBlock { uncompressed_size: len, compressed_size: parts[i].len() };
        blocks.push(block);
        put_slice(&mut concatenated, parts[i].as_slice());
        proof {
            let sizes = part_sizes(data@, views);
            lemma_used(chunk_count(data@.len()), data@.len() as int, size as int, i as int);
            assert(sizes[i as int] == block);
            assert(sizes.take(i + 1) =~= sizes.take(i as int).push(block));
            lemma_joined_push(views.take(i as int), views[i as int]);
            assert(views.take(i + 1) =~= views.take(i as int).push(views[i as int]));
            if i + 1 < parts@.len() {
                lemma_used(chunk_count(data@.len()), data@.len() as int, size as int, i + 1);
            }
        }
        left -= len;
        i += 1;
    }
    assert(views.take(i as int) =~= views);
    assert(part_sizes(data@, views).take(i as int) =~= part_sizes(data@, views));
    (concatenated, blocks)
}

/// Compresses a file block by block.
pub fn pack_blocks<O: Fn(&[u8]) -> Result<Vec<u8>, Error>>(
    method: Compression,
    data: &[u8],
    oodle: &O,
) -> (r: Result<Vec<Vec<u8>>, Error>)
    requires
        method == Compression::Oodle ==> forall|s: &[u8]| #[trigger] call_requires(*oodle, (s,)),
    ensures
        match r {
            Ok(parts) => packed(method, *oodle, data@, chunk_views(parts@)),
            Err(e) => pack_failed(method, *oodle, data@, e),
        },
{
    let size: usize = COMPRESSION_BLOCK_SIZE as usize;
    let n: usize = data.len();
    let mut parts: Vec<Vec<u8>> = Vec::new();
    let mut at: usize = 0;
    while at < n
        invariant
            n == data@.len(),
            size == COMPRESSION_BLOCK_SIZE,
            method == Compression::Oodle ==> forall|s: &[u8]| #[trigger]
                call_requires(*oodle, (s,)),
            at <= n,
            at < n ==> at == parts@.len() * size,
            at == n ==> parts@.len() == chunk_count(n as nat),
            at < n ==> parts@.len() < chunk_count(n as nat),
            forall|i: int|
                0 <= i < parts@.len() ==> compressed_as(
                    method,
                    *oodle,
                    chunk_of(data@, i),
                    #[trigger] parts@[i]@,
                ),
        decreases n - at,
    {
        let left: usize = n - at;
        let len: usize = if size <= left { size } else { left };
        let chunk = vstd::slice::slice_subrange(data, at, at + len);
        assert(chunk@ == chunk_of(data@, parts@.len() as int));
        let part = match compress(method, chunk, oodle) {
            Ok(part) => part,
            Err(e) => {
                assert(pack_failed(method, *oodle, data@, e));
                return Err(e);
            },
        };
        parts.push(part);
        at += len;
    }
    assert forall|i: int| 0 <= i < parts@.len() implies compressed_as(
        method,
        *oodle,
        chunk_of(data@, i),
        #[trigger] chunk_views(parts@)[i],
    ) by {
        assert(chunk_views(parts@)[i] == parts@[i]@);
    }
    Ok(parts)
}

/// The method that a file gets: the first one allowed, but none for an empty file, which would
/// have no blocks.
pub open spec fn chosen_method(allowed: Seq<Compression>, data: Seq<u8>) -> Option<Compression> {
    if data.len() == 0 || allowed.len() == 0 {
        None
    } else {
        Some(allowed[0])
    }
}

/// Whether the data of an entry may be longer in the archive than before encryption. The packed
/// headers, which version 10 brought, store no compressed size for an entry that is not
/// compressed.
pub open spec fn can_grow(method: Option<Compression>, version: Version) -> bool {
    method is Some || version.rank() < Version::V10.rank()
}

/// The plan for this much data of the file that the context speaks of.
pub open spec fn context_plan(
    ctx: EncryptionContext<'_>,
    method: Option<Compression>,
    version: Version,
    len: nat,
) -> EncryptionPlan {
    ctx.variant.plan(ctx.mount_point@, ctx.path@, len as usize, can_grow(method, version))
}

/// The data of a file as it is hashed: compressed, if it is to be, but not encrypted.
pub open spec fn hashed_data(
    method: Option<Compression>,
    data: Seq<u8>,
    parts: Seq<Seq<u8>>,
) -> Seq<u8> {
    match method {
        Some(_) => joined(parts),
        None => data,
    }
}

/// `p` is the entry of a file with this data, if its blocks were compressed to `parts`.
pub open spec fn built<O: Fn(&[u8]) -> Result<Vec<u8>, Error>>(
    p: PartialEntry<'_>,
    allowed: Seq<Compression>,
    ctx: EncryptionContext<'_>,
    version: Version,
    data: Seq<u8>,
    oodle: O,
    parts: Seq<Seq<u8>>,
) -> bool {
    let method = chosen_method(allowed, data);
    let plain = hashed_data(method, data, parts);
    &&& p.compression == method
    &&& p.uncompressed_size == data.len()
    &&& p.compressed_size == p.data.bytes().len()
    &&& plain.len() <= usize::MAX
    &&& p.hash.0@ == sha1_digest(plain)
    &&& match method {
        Some(m) => {
            &&& packed(m, oodle, data, parts)
            &&& p.data.blocks() == part_sizes(data, parts)
            &&& p.compression_block_size == COMPRESSION_BLOCK_SIZE
        },
        None => {
            &&& p.data.blocks() == Seq::<PartialBlock>::empty()
            &&& p.compression_block_size == 0
        },
    }
    &&& match *ctx.key {
        Some(key) => {
            let plan = context_plan(ctx, method, version, plain.len());
            &&& p.data is Blocks
            &&& p.data.bytes() == protected(ctx.variant, key@, plan, plain)
            &&& restored(ctx.variant, key@, plan.encrypted_len as int, p.data.bytes()) == grown(
                plan,
                plain,
            )
            &&& p.encrypted == (plan.encrypted_len > 0)
        },
        None => {
            &&& p.data is Slice <==> method is None
            &&& p.data.bytes() == plain
            &&& !p.encrypted
        },
    }
}

/// Compresses and encrypts a file, as far as that is asked for.
pub fn build_partial_entry<'a, O: Fn(&[u8]) -> Result<Vec<u8>, Error>>(
    allowed_compression: &[Compression],
    ctx: EncryptionContext<'_>,
    version: Version,
    data: &'a [u8],
    oodle: &O,
) -> (r: Result<PartialEntry<'a>, Error>)
    requires
        chosen_method(allowed_compression@, data@) == Some(Compression::Oodle) ==> forall|s: &[u8]|
         #[trigger] call_requires(*oodle, (s,)),
    ensures
        r matches Ok(p) ==> p.compression == (if data@.len() > 0 && allowed_compression@.len() > 0 {
            Some(allowed_compression@[0])
        } else {
            None
        }),
        match r {
            Ok(p) => exists|parts: Seq<Seq<u8>>| #[trigger]
                built(p, allowed_compression@, ctx, version, data@, *oodle, parts),
            Err(e) => {
                &&& chosen_method(allowed_compression@, data@) matches Some(method)
                    && pack_failed(method, *oodle, data@, e)
            },
        },
{
    let compression: Option<Compression> = if data.len() == 0 || allowed_compression.len() == 0 {
        None
    } else {
        Some(allowed_compression[0])
    };
    let ghost mut parts: Seq<Seq<u8>> = Seq::empty();
    let uncompressed_size: u64 = data.len() as u64;
    let (compression_block_size, mut packed_data): (u32, PartialEntryData<'a>) = match compression {
        Some(method) => {
            let packed_parts = pack_blocks(method, data, oodle)?;
            let (concatenated, blocks) = gather(&packed_parts, data);
            proof {
                parts = chunk_views(packed_parts@);
            }
            (COMPRESSION_BLOCK_SIZE, PartialEntryData::Blocks { data: concatenated, blocks })
        },
        None => (0, PartialEntryData::Slice(data)),
    };
    let ghost plain = packed_data.bytes();
    let hash = sha1_hash(packed_data.as_bytes());
    let mut encrypted: bool = false;
    if let Some(key) = ctx.key {
        // what is encrypted has to be the entry's own
        let (mut buf, blocks) = match packed_data {
            PartialEntryData::Slice(inner) => (vstd::slice::slice_to_vec(inner), Vec::new()),
            PartialEntryData::Blocks { data, blocks } => (data, blocks),
        };
        let can_grow: bool = compression.is_some() || version.rank() < Version::V10.rank();
        let plan = ctx.variant.encryption_plan(ctx.mount_point, ctx.path, buf.len(), can_grow);
        encrypted = protect(ctx.variant, key, plan, &mut buf);
        packed_data = PartialEntryData::Blocks { data: buf, blocks };
    }
    let compressed_size: u64 = packed_data.as_bytes().len() as u64;
    let p = PartialEntry {
        compression,
        compressed_size,
        uncompressed_size,
        compression_block_size,
        data: packed_data,
        encrypted,
        hash: Hash(hash),
    };
    assert(built(p, allowed_compression@, ctx, version, data@, *oodle, parts));
    Ok(p)
}

/// A file that is not empty is compressed by the first method allowed, however many follow, and
/// not at all only if none is allowed.
pub proof fn law_first_allowed_method(allowed: Seq<Compression>, data: Seq<u8>)
    ensures
        data.len() > 0 && allowed.len() > 0 ==> chosen_method(allowed, data) == Some(allowed[0]),
        data.len() == 0 || allowed.len() == 0 ==> chosen_method(allowed, data) is None,
{
}

/// What is known of an entry that was prepared, in plain terms: the first method allowed is used
/// on a file that is not empty, in blocks of 126976 bytes and a shorter last one; what was
/// compressed, and not yet encrypted, is hashed; and the compressed size is that of all the bytes.
#[verifier::rlimit(60)]
pub proof fn law_prepared_entry<O: Fn(&[u8]) -> Result<Vec<u8>, Error>>(
    p: PartialEntry<'_>,
    allowed: Seq<Compression>,
    ctx: EncryptionContext<'_>,
    version: Version,
    data: Seq<u8>,
    oodle: O,
    parts: Seq<Seq<u8>>,
)
    requires
        built(p, allowed, ctx, version, data, oodle, parts),
    ensures
        data.len() > 0 && allowed.len() > 0 ==> p.compression == Some(allowed[0]),
        data.len() == 0 || allowed.len() == 0 ==> p.compression is None,
        p.uncompressed_size == data.len(),
        p.compressed_size == p.data.bytes().len(),
        p.compression is None ==> {
            &&& p.data.blocks().len() == 0
            &&& p.compression_block_size == 0
            &&& p.hash.0@ == sha1_digest(data)
            &&& *ctx.key is None ==> p.data.bytes() == data
        },
        p.compression matches Some(method) ==> {
            let n = p.data.blocks().len() as int;
            &&& p.compression_block_size == 126976
            &&& parts.len() == n
            &&& 126976 * (n - 1) < data.len() <= 126976 * n
            &&& forall|i: int|
                0 <= i < n - 1 ==> (#[trigger] p.data.blocks()[i]).uncompressed_size == 126976
            &&& p.data.blocks()[n - 1].uncompressed_size == data.len() - 126976 * (n - 1)
            &&& forall|i: int|
                0 <= i < n ==> (#[trigger] p.data.blocks()[i]).compressed_size == parts[i].len()
                    && compressed_as(
                    method,
                    oodle,
                    data.subrange(
                        126976 * i,
                        126976 * i + p.data.blocks()[i].uncompressed_size,
                    ),
                    parts[i],
                )
            &&& p.hash.0@ == sha1_digest(joined(parts))
            &&& *ctx.key is None ==> p.data.bytes() == joined(parts)
        },
        *ctx.key is None ==> !p.encrypted,
        *ctx.key matches Some(key) ==> {
            let plain = if p.compression is Some {
                joined(parts)
            } else {
                data
            };
            let old = version != Version::V10 && version != Version::V11;
            let plan = ctx.variant.plan(
                ctx.mount_point@,
                ctx.path@,
                plain.len() as usize,
                p.compression is Some || old,
            );
            &&& p.data.bytes() == protected(ctx.variant, key@, plan, plain)
            &&& p.encrypted <==> plan.encrypted_len > 0
        },
{
    if let Some(method) = p.compression {
        let size = COMPRESSION_BLOCK_SIZE as int;
        let total = data.len() as int;
        let n = parts.len() as int;
        lemma_used(chunk_count(data.len()), total, size, n - 1);
        lemma_used(chunk_count(data.len()) + 1, total, size, n);
        assert forall|i: int| 0 <= i < n implies (#[trigger] p.data.blocks()[i]).compressed_size
            == parts[i].len() && p.data.blocks()[i].uncompressed_size == chunk_len(total, size, i)
            && compressed_as(
            method,
            oodle,
            data.subrange(126976 * i, 126976 * i + p.data.blocks()[i].uncompressed_size),
            parts[i],
        ) by {
            lemma_used(chunk_count(data.len()), total, size, i);
            lemma_part_len(parts, i);
            assert(compressed_as(method, oodle, chunk_of(data, i), parts[i]));
        }
        assert forall|i: int| 0 <= i < n - 1 implies (
        #[trigger] p.data.blocks()[i]).uncompressed_size == 126976 by {
            assert(p.data.blocks()[i].uncompressed_size == chunk_len(total, size, i));
            lemma_used(chunk_count(data.len()), total, size, i + 1);
        }
        assert(p.data.blocks()[n - 1].uncompressed_size == chunk_len(total, size, n - 1));
    }
}

proof fn lemma_part_len(parts: Seq<Seq<u8>>, i: int)
    requires
        0 <= i < parts.len(),
    ensures
        parts[i].len() <= joined(parts).len(),
    decreases parts.len(),
{
    if i < parts.len() - 1 {
        lemma_part_len(parts.drop_last(), i);
    }
}

/// What encryption does to prepared data: zeros are appended up to the planned length, the planned
/// number of bytes is encrypted, and the rest stays as it is.
pub proof fn law_protected(
    variant: PakVariant,
    key: Seq<u8>,
    plan: EncryptionPlan,
    data: Seq<u8>,
)
    requires
        data.len() <= plan.final_len,
        plan.encrypted_len <= plan.final_len,
    ensures
        ({
            let r = protected(variant, key, plan, data);
            let n = plan.encrypted_len as int;
            let s = data + Seq::new((plan.final_len - data.len()) as nat, |i: int| 0u8);
            &&& r.len() == plan.final_len
            &&& r.take(n) == encrypted(variant, key, s.take(n))
            &&& r.skip(n) == s.skip(n)
        }),
{
    let s = data + Seq::new((plan.final_len - data.len()) as nat, |i: int| 0u8);
    let n = plan.encrypted_len as int;
    let r = protected(variant, key, plan, data);
    assert(s =~= grown(plan, data));
    assert(r.take(n) =~= encrypted(variant, key, s.take(n)));
    assert(r.skip(n) =~= s.skip(n));
}

/// Which plan applies: data may grow if it is compressed, or in versions below 10.
pub proof fn law_growth(
    ctx: EncryptionContext<'_>,
    method: Option<Compression>,
    version: Version,
    len: nat,
)
    requires
        len <= usize::MAX,
    ensures
        ({
            let old = version != Version::V10 && version != Version::V11;
            context_plan(ctx, method, version, len) == ctx.variant.plan(
                ctx.mount_point@,
                ctx.path@,
                len as usize,
                method is Some || old,
            )
        }),
{
}

/// The least multiple of the alignment that is not less.
pub proof fn law_padded(length: int, alignment: int)
    requires
        0 <= length,
        0 < alignment,
    ensures
        padded(length, alignment) % alignment == 0,
        length <= padded(length, alignment) < length + alignment,
{
    lemma_padded(length, alignment);
}

/// Which slot a method gets. One that has a slot keeps it, and nothing changes. One that has none
/// gets the first empty slot or, if there is none, a new one behind the others.
pub proof fn law_slot_given(slots: Seq<Option<Compression>>, method: Compression)
    ensures
        ({
            let k = slot_for(slots, method);
            let after = slots_with(slots, method);
            &&& 0 <= k <= slots.len()
            &&& if exists|i: int| 0 <= i < slots.len() && #[trigger] slots[i] == Some(method) {
                &&& k < slots.len()
                &&& slots[k] == Some(method)
                &&& forall|i: int| 0 <= i < k ==> #[trigger] slots[i] != Some(method)
                &&& after == slots
            } else {
                &&& forall|i: int| 0 <= i < k ==> #[trigger] slots[i] is Some
                &&& k < slots.len() ==> slots[k] is None && after == slots.update(
                    k,
                    Some(method),
                )
                &&& k == slots.len() ==> after == slots.push(Some(method))
            }
        }),
{
    lemma_first_index(slots, Some(method));
    lemma_first_index(slots, None);
    if exists|i: int| 0 <= i < slots.len() && #[trigger] slots[i] == Some(method) {
        assert(slots.contains(Some(method)));
    }
}

/// Only archives of version 8 and later give a method a slot that has none.
pub proof fn law_slot_allowed(
    version: Version,
    slots: Seq<Option<Compression>>,
    method: Compression,
)
    ensures
        slot_allowed(version, slots, method) <==> (exists|i: int|
            0 <= i < slots.len() && #[trigger] slots[i] == Some(method)) || match version {
            Version::V8A
            | Version::V8B
            | Version::V9
            | Version::V10
            | Version::V11 => true,
            _ => false,
        },
{
    if exists|i: int| 0 <= i < slots.len() && #[trigger] slots[i] == Some(method) {
        assert(slots.contains(Some(method)));
    }
}

/// The header of an entry that is placed, in plain terms. The first block starts behind the
/// header, counted from there since version 5 and from the start of the archive before, and each
/// other where the one before it ends.
#[verifier::rlimit(60)]
pub proof fn law_placed_entry(
    p: PartialEntry<'_>,
    version: Version,
    slots: Seq<Option<Compression>>,
    offset: u64,
)
    requires
        p.placeable(version, slots, offset),
        p.data.blocks().len() <= u32::MAX,
    ensures
        ({
            let e = p.entry_at(version, slots, offset);
            let n = p.data.blocks().len() as int;
            &&& e.offset == offset
            &&& e.compressed == p.compressed_size
            &&& e.uncompressed == p.uncompressed_size
            &&& e.compression_block_size == p.compression_block_size
            &&& e.hash == Some(p.hash.0@)
            &&& e.timestamp is None
            &&& e.flags == if p.encrypted {
                1int
            } else {
                0
            }
            &&& e.compression_slot == (match p.compression {
                Some(method) => Some(slot_for(slots, method) as u32),
                None => None,
            })
            &&& p.slots_after(slots) == (match p.compression {
                Some(method) => slots_with(slots, method),
                None => slots,
            })
            &&& e.blocks is None <==> n == 0
            &&& e.blocks matches Some(blocks) ==> {
                &&& blocks.len() == n
                &&& blocks[0].start == (if version == Version::V1 {
                    57int
                } else if version == Version::V0 || version == Version::V2 {
                    49
                } else if version == Version::V8A {
                    50
                } else {
                    53
                }) + (if p.compression is Some {
                    4 + 16 * n
                } else {
                    0
                }) + match version {
                    Version::V0
                    | Version::V1
                    | Version::V2
                    | Version::V3
                    | Version::V4 => offset as int,
                    _ => 0,
                }
                &&& forall|i: int|
                    0 <= i < n ==> (#[trigger] blocks[i]).end - blocks[i].start
                        == p.data.blocks()[i].compressed_size
                &&& forall|i: int|
                    0 <= i < n - 1 ==> #[trigger] blocks[i + 1].start == blocks[i].end
            }
        }),
{
    let e = p.entry_at(version, slots, offset);
    let own = p.data.blocks();
    let base = p.first_block(version, slots, offset);
    if own.len() > 0 {
        let blocks = e.blocks->0;
        let n = own.len() as int;
        lemma_total_size(own, 0);
        assert(own.take(0) =~= Seq::<PartialBlock>::empty());
        assert forall|i: int| 0 <= i < n implies (#[trigger] blocks[i]).end - blocks[i].start
            == own[i].compressed_size && blocks[i].end == base + total_size(own.take(i + 1)) by {
            lemma_total_size(own, i);
        }
        assert forall|i: int| 0 <= i < n - 1 implies #[trigger] blocks[i + 1].start
            == blocks[i].end by {
            lemma_total_size(own, i + 1);
            assert(blocks[i].end == base + total_size(own.take(i + 1)));
        }
    }
}

/// What the error says that a method without a slot gives.
pub proof fn law_no_slot_message()
    ensures
        no_slot_message(Compression::Zlib)
            == "cannot use Zlib prior to FNameBasedCompression (pak version 8)"@,
        no_slot_message(Compression::Gzip)
            == "cannot use Gzip prior to FNameBasedCompression (pak version 8)"@,
        no_slot_message(Compression::Oodle)
            == "cannot use Oodle prior to FNameBasedCompression (pak version 8)"@,
        no_slot_message(Compression::Zstd)
            == "cannot use Zstd prior to FNameBasedCompression (pak version 8)"@,
        no_slot_message(Compression::LZ4)
            == "cannot use LZ4 prior to FNameBasedCompression (pak version 8)"@,
{
    reveal_strlit("cannot use ");
    reveal_strlit(" prior to FNameBasedCompression (pak version 8)");
    reveal_strlit("Zlib");
    reveal_strlit("Gzip");
    reveal_strlit("Oodle");
    reveal_strlit("Zstd");
    reveal_strlit("LZ4");
    reveal_strlit("cannot use Zlib prior to FNameBasedCompression (pak version 8)");
    reveal_strlit("cannot use Gzip prior to FNameBasedCompression (pak version 8)");
    reveal_strlit("cannot use Oodle prior to FNameBasedCompression (pak version 8)");
    reveal_strlit("cannot use Zstd prior to FNameBasedCompression (pak version 8)");
    reveal_strlit("cannot use LZ4 prior to FNameBasedCompression (pak version 8)");
    assert(no_slot_message(Compression::Zlib)
        =~= "cannot use Zlib prior to FNameBasedCompression (pak version 8)"@);
    assert(no_slot_message(Compression::Gzip)
        =~= "cannot use Gzip prior to FNameBasedCompression (pak version 8)"@);
    assert(no_slot_message(Compression::Oodle)
        =~= "cannot use Oodle prior to FNameBasedCompression (pak version 8)"@);
    assert(no_slot_message(Compression::Zstd)
        =~= "cannot use Zstd prior to FNameBasedCompression (pak version 8)"@);
    assert(no_slot_message(Compression::LZ4)
        =~= "cannot use LZ4 prior to FNameBasedCompression (pak version 8)"@);
}

/// What decryption does: so many bytes are decrypted, and the rest stays as it is.
pub proof fn law_restored(variant: PakVariant, key: Seq<u8>, n: int, data: Seq<u8>)
    requires
        0 <= n <= data.len(),
    ensures
        restored(variant, key, n, data).len() == data.len(),
        restored(variant, key, n, data).take(n) == decrypted(variant, key, data.take(n)),
        restored(variant, key, n, data).skip(n) == data.skip(n),
{
    let r = restored(variant, key, n, data);
    assert(r.take(n) =~= decrypted(variant, key, data.take(n)));
    assert(r.skip(n) =~= data.skip(n));
}

/// Preparing a file fails only if the Oodle compressor that was handed in fails on a piece of it.
pub proof fn law_pack_failed<O: Fn(&[u8]) -> Result<Vec<u8>, Error>>(
    method: Compression,
    oodle: O,
    data: Seq<u8>,
    e: Error,
)
    requires
        pack_failed(method, oodle, data, e),
    ensures
        method == Compression::Oodle,
        exists|s: &[u8], at: int, to: int|
            {
                &&& 0 <= at < to <= data.len()
                &&& at % 126976 == 0
                &&& to == at + 126976 || (to == data.len() && to < at + 126976)
                &&& s@ == #[trigger] data.subrange(at, to)
                &&& #[trigger] call_ensures(oodle, (s,), Err(e))
            },
{
    let (s, i) = choose|s: &[u8], i: int|
        {
            &&& 0 <= i < chunk_count(data.len())
            &&& s@ == #[trigger] chunk_of(data, i)
            &&& #[trigger] call_ensures(oodle, (s,), Err(e))
        };
    let size = COMPRESSION_BLOCK_SIZE as int;
    lemma_used(chunk_count(data.len()), data.len() as int, size, i);
    let at = i * size;
    let to = at + chunk_len(data.len() as int, size, i);
    assert(at % 126976 == 0);
    assert(s@ == data.subrange(at, to));
}

/// An entry can be placed if the end of its last block can be told: always if it has none.
pub proof fn law_placeable(
    p: PartialEntry<'_>,
    version: Version,
    slots: Seq<Option<Compression>>,
    offset: u64,
)
    requires
        p.data.blocks().len() <= u32::MAX,
    ensures
        ({
            let n = p.data.blocks().len() as int;
            let header = (if version == Version::V1 {
                57int
            } else if version == Version::V0 || version == Version::V2 {
                49
            } else if version == Version::V8A {
                50
            } else {
                53
            }) + if p.compression is Some {
                4 + 16 * n
            } else {
                0
            };
            let from = match version {
                Version::V0
                | Version::V1
                | Version::V2
                | Version::V3
                | Version::V4 => offset as int,
                _ => 0,
            };
            p.placeable(version, slots, offset) <==> n == 0 || from + header + total_size(
                p.data.blocks(),
            ) <= u64::MAX
        }),
{
}

/// What blocks take together is what each takes.
pub proof fn law_total_size(a: Seq<PartialBlock>, b: PartialBlock)
    ensures
        total_size(Seq::<PartialBlock>::empty()) == 0,
        total_size(a.push(b)) == total_size(a) + b.compressed_size,
{
    assert(a.push(b).drop_last() =~= a);
}

} // verus!
