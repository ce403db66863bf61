//! What an archive gives back of the files that were put into it.

use crate::blocks::{
    chunk_len, chunk_size, decodes_to, in_place, joined, lemma_joined_push, lemma_restored,
    lemma_used, Span,
};
use crate::cipher::{decrypted, encrypted, Key};
use crate::codec::{compressed_as, countable, lemma_countable, restores};
use crate::data::{
    blocks_from, built, can_grow, chosen_method, chunk_count, chunk_of, context_plan, grown,
    hashed_data, law_slot_holds_method, lemma_total_size, packed, part_sizes, restored, slot_for,
    total_size, PartialEntry, COMPRESSION_BLOCK_SIZE,
};
use crate::encoded::{block_size_fits, block_sizes, block_start, laid_out, packed_block_size};
use crate::entry::{
    aligned, entry_bytes, law_serialized_size, slot_storable, stores_flags, Entry, EntryLocation,
    EntryView,
};
use crate::error::Error;
use crate::file::{lemma_not_encrypted, lemma_placed, lemma_stored_placed, written_entry};
use crate::variant::{law_read_matches_write, EncryptionContext, PakVariant};
use crate::version::{Compression, Version, VersionMajor};
use vstd::prelude::*;

verus! {

/// Each part stands in the whole behind the parts before it.
proof fn lemma_joined_part(parts: Seq<Seq<u8>>, i: int)
    requires
        0 <= i < parts.len(),
    ensures
        joined(parts.take(i + 1)).len() == joined(parts.take(i)).len() + parts[i].len(),
        joined(parts.take(i + 1)).len() <= joined(parts).len(),
        joined(parts).subrange(
            joined(parts.take(i)).len() as int,
            joined(parts.take(i + 1)).len() as int,
        ) == parts[i],
    decreases parts.len(),
{
    assert(parts.take(i + 1) =~= parts.take(i).push(parts[i]));
    lemma_joined_push(parts.take(i), parts[i]);
    let from = joined(parts.take(i)).len() as int;
    let to = joined(parts.take(i + 1)).len() as int;
    if i + 1 == parts.len() {
        assert(parts.take(i + 1) =~= parts);
        assert(joined(parts).subrange(from, to) =~= parts[i]);
    } else {
        let front = parts.drop_last();
        lemma_joined_part(front, i);
        assert(front.take(i) =~= parts.take(i));
        assert(front.take(i + 1) =~= parts.take(i + 1));
        assert(joined(parts).subrange(from, to) =~= joined(front).subrange(from, to));
    }
}

proof fn lemma_sizes_of_parts(data: Seq<u8>, parts: Seq<Seq<u8>>, i: int)
    requires
        0 <= i <= parts.len(),
        joined(parts).len() <= usize::MAX,
    ensures
        total_size(part_sizes(data, parts).take(i)) == joined(parts.take(i)).len(),
    decreases i,
{
    let sizes = part_sizes(data, parts);
    if i > 0 {
        lemma_sizes_of_parts(data, parts, i - 1);
        lemma_joined_part(parts, i - 1);
        lemma_total_size(sizes, i - 1);
        assert(sizes[i - 1].compressed_size == parts[i - 1].len());
    }
}

/// The pieces of a file, one for each block.
spec fn pieces(data: Seq<u8>, n: nat) -> Seq<Seq<u8>> {
    Seq::new(n, |i: int| chunk_of(data, i))
}

proof fn lemma_pieces(data: Seq<u8>, n: nat)
    requires
        n <= chunk_count(data.len()),
    ensures
        ({
            let size = COMPRESSION_BLOCK_SIZE as int;
            joined(pieces(data, n)) == data.take(
                if n * size <= data.len() {
                    n * size
                } else {
                    data.len() as int
                },
            )
        }),
    decreases n,
{
    let size = COMPRESSION_BLOCK_SIZE as int;
    if n == 0 {
        assert(joined(pieces(data, 0)) =~= data.take(0));
    } else {
        let k = (n - 1) as nat;
        lemma_pieces(data, k);
        lemma_joined_push(pieces(data, k), chunk_of(data, k as int));
        assert(pieces(data, n) =~= pieces(data, k).push(chunk_of(data, k as int)));
        lemma_used(chunk_count(data.len()), data.len() as int, size, k as int);
        assert(joined(pieces(data, n)) =~= data.take(
            if n * size <= data.len() {
                n * size
            } else {
                data.len() as int
            },
        ));
    }
}

/// Whether nothing of the file is encrypted in this context: there is no key, or the variant
/// leaves the data of files alone.
pub open spec fn left_plain(ctx: EncryptionContext<'_>) -> bool {
    *ctx.key is None || ctx.variant == PakVariant::Standard
}

/// The blocks that lie one behind the other from the end of the header on are the parts, whatever
/// stands behind them.
proof fn lemma_spans_of_parts(
    p: PartialEntry<'_>,
    version: Version,
    slots: Seq<Option<Compression>>,
    offset: u64,
    data: Seq<u8>,
    parts: Seq<Seq<u8>>,
    base: int,
    stored: Seq<u8>,
)
    requires
        parts.len() > 0,
        p.data.blocks() == part_sizes(data, parts),
        joined(parts).is_prefix_of(stored),
        joined(parts).len() <= usize::MAX,
        base == p.first_block(version, slots, offset),
        p.placeable(version, slots, offset),
    ensures
        ({
            let e = p.entry_at(version, slots, offset);
            let spans = e.spans(base, stored.len());
            &&& e.blocks_behind(base)
            &&& spans.len() == parts.len()
            &&& forall|i: int|
                0 <= i < parts.len() ==> (#[trigger] spans[i]).within(stored.len())
                    && spans[i].of(stored) == parts[i]
        }),
{
    let e = p.entry_at(version, slots, offset);
    let sizes = part_sizes(data, parts);
    let spans = e.spans(base, stored.len());
    let n = parts.len() as int;
    let all = joined(parts);
    lemma_sizes_of_parts(data, parts, n);
    assert(parts.take(n) =~= parts);
    assert(sizes.take(n) =~= sizes);
    assert forall|i: int| 0 <= i < n implies (#[trigger] spans[i]).within(stored.len())
        && spans[i].of(stored) == parts[i] && base <= e.blocks->0[i].start && base
        <= e.blocks->0[i].end by {
        lemma_sizes_of_parts(data, parts, i);
        lemma_sizes_of_parts(data, parts, i + 1);
        lemma_joined_part(parts, i);
        assert(spans[i].of(stored) =~= spans[i].of(all));
    }
    assert forall|i: int| 0 <= i < n implies base <= (#[trigger] e.blocks->0[i]).start && base
        <= e.blocks->0[i].end by {
        assert(spans[i].within(stored.len()));
    }
}

/// Without a key, or in the standard variant, nothing of a file is encrypted: what goes into the
/// archive is what was hashed.
pub proof fn law_left_plain<O: Fn(&[u8]) -> Result<Vec<u8>, Error>>(
    p: PartialEntry<'_>,
    allowed: Seq<Compression>,
    ctx: EncryptionContext<'_>,
    version: Version,
    data: Seq<u8>,
    oodle: O,
    parts: Seq<Seq<u8>>,
)
    requires
        built(p, allowed, ctx, version, data, oodle, parts),
        left_plain(ctx),
    ensures
        p.data.bytes() == hashed_data(chosen_method(allowed, data), data, parts),
        !p.encrypted,
{
    let method = chosen_method(allowed, data);
    let plain = hashed_data(method, data, parts);
    if let Some(k) = *ctx.key {
        let plan = context_plan(ctx, method, version, plain.len());
        assert(plan.encrypted_len == 0 && plan.final_len == plain.len() as usize);
        assert(encrypted(ctx.variant, k@, grown(plan, plain).take(0)) =~= Seq::<u8>::empty());
        assert(p.data.bytes() =~= grown(plan, plain));
    }
}

/// Whether the method makes the same of the same data every time and everywhere. LZ4 blocks
/// depend on the machine, and Oodle blocks come from the caller.
pub open spec fn repeats(method: Option<Compression>) -> bool {
    method != Some(Compression::LZ4) && method != Some(Compression::Oodle)
}

proof fn lemma_parts_repeat<O: Fn(&[u8]) -> Result<Vec<u8>, Error>>(
    m: Compression,
    oodle: O,
    data: Seq<u8>,
    parts: Seq<Seq<u8>>,
    again: Seq<Seq<u8>>,
)
    requires
        repeats(Some(m)),
        packed(m, oodle, data, parts),
        packed(m, oodle, data, again),
    ensures
        parts == again,
{
    assert forall|i: int| 0 <= i < parts.len() implies parts[i] == again[i] by {
        assert(compressed_as(m, oodle, chunk_of(data, i), parts[i]));
        assert(compressed_as(m, oodle, chunk_of(data, i), again[i]));
        lemma_used(
            chunk_count(data.len()),
            data.len() as int,
            COMPRESSION_BLOCK_SIZE as int,
            i,
        );
        assert(chunk_of(data, i).len() <= COMPRESSION_BLOCK_SIZE);
    }
    assert(parts =~= again);
}

/// In the standard variant a key changes nothing about a file, nor does leaving it out: neither
/// the data in the archive and its blocks, nor the hash, the sizes or the encryption flag. Where
/// the method may make something else of the same data, that holds as long as it does not.
pub proof fn law_key_changes_nothing<O: Fn(&[u8]) -> Result<Vec<u8>, Error>>(
    p: PartialEntry<'_>,
    q: PartialEntry<'_>,
    allowed: Seq<Compression>,
    p_ctx: EncryptionContext<'_>,
    q_ctx: EncryptionContext<'_>,
    version: Version,
    data: Seq<u8>,
    oodle: O,
    p_parts: Seq<Seq<u8>>,
    q_parts: Seq<Seq<u8>>,
)
    requires
        built(p, allowed, p_ctx, version, data, oodle, p_parts),
        built(q, allowed, q_ctx, version, data, oodle, q_parts),
        left_plain(p_ctx),
        left_plain(q_ctx),
        repeats(chosen_method(allowed, data)) || p_parts == q_parts,
    ensures
        !p.encrypted,
        !q.encrypted,
        p.data.bytes() == q.data.bytes(),
        p.data.blocks() == q.data.blocks(),
        p.hash.0@ == q.hash.0@,
        p.compression == q.compression,
        p.compressed_size == q.compressed_size,
        p.uncompressed_size == q.uncompressed_size,
        p.compression_block_size == q.compression_block_size,
{
    law_left_plain(p, allowed, p_ctx, version, data, oodle, p_parts);
    law_left_plain(q, allowed, q_ctx, version, data, oodle, q_parts);
    if let Some(m) = chosen_method(allowed, data) {
        if repeats(Some(m)) {
            lemma_parts_repeat(m, oodle, data, p_parts, q_parts);
        }
    }
}

/// Blocks that lie one behind the other decompress to the file.
#[verifier::rlimit(60)]
proof fn lemma_packed_decodes<O: Fn(&[u8]) -> Result<Vec<u8>, Error>>(
    m: Compression,
    oodle: O,
    data: Seq<u8>,
    parts: Seq<Seq<u8>>,
    stored: Seq<u8>,
    spans: Seq<Span>,
)
    requires
        m != Compression::Oodle,
        0 < data.len() <= u64::MAX,
        m == Compression::Zstd || m == Compression::LZ4 ==> data.len() <= isize::MAX,
        packed(m, oodle, data, parts),
        spans.len() == parts.len(),
        forall|i: int|
            0 <= i < parts.len() ==> (#[trigger] spans[i]).within(stored.len()) && spans[i].of(
                stored,
            ) == parts[i],
    ensures
        in_place(
            Some(m),
            stored,
            spans,
            data.len() as u64,
            COMPRESSION_BLOCK_SIZE,
            true,
        ),
        decodes_to(
            Some(m),
            stored,
            spans,
            data.len() as u64,
            COMPRESSION_BLOCK_SIZE,
            data,
        ),
{
    let n = parts.len();
    let total = data.len() as int;
    let size = chunk_size(n, data.len() as u64, COMPRESSION_BLOCK_SIZE);
    let ps = pieces(data, n);
    lemma_pieces(data, n);
    lemma_used(n, total, COMPRESSION_BLOCK_SIZE as int, n - 1);
    lemma_used(n + 1, total, COMPRESSION_BLOCK_SIZE as int, n as int);
    assert(joined(ps) =~= data);
    lemma_used(n, total, size, n - 1);
    assert forall|i: int| 0 <= i < n implies (#[trigger] ps[i]).len() == chunk_len(
        total,
        size,
        i,
    ) by {
        lemma_used(n, total, COMPRESSION_BLOCK_SIZE as int, i);
    }
    assert forall|i: int| 0 <= i < n implies restores(
        m,
        ps[i],
        (#[trigger] spans[i]).of(stored),
    ) by {
        assert(compressed_as(m, oodle, chunk_of(data, i), parts[i]));
    }
    if m == Compression::LZ4 {
        assert forall|i: int| 0 <= i < n implies countable(
            (#[trigger] spans[i]).of(stored),
            ps[i].len(),
        ) && ps[i].len() == chunk_len(total, size, i) by {
            assert(restores(m, ps[i], parts[i]));
            assert(ps[i].len() == chunk_len(total, size, i));
            lemma_used(n, total, COMPRESSION_BLOCK_SIZE as int, i);
            lemma_countable(parts[i], ps[i].len());
        }
    }
    lemma_restored(m, stored, spans, data.len() as u64, COMPRESSION_BLOCK_SIZE, ps, data);
}

/// A file that was compressed block by block, and not encrypted, is read back from the archive,
/// whatever stands around it.
#[verifier::rlimit(60)]
pub proof fn law_partial_entry_reads_back<O: Fn(&[u8]) -> Result<Vec<u8>, Error>>(
    p: PartialEntry<'_>,
    allowed: Seq<Compression>,
    ctx: EncryptionContext<'_>,
    version: Version,
    slots: Seq<Option<Compression>>,
    key: Key,
    data: Seq<u8>,
    oodle: O,
    parts: Seq<Seq<u8>>,
    before: Seq<u8>,
    after: Seq<u8>,
)
    requires
        built(p, allowed, ctx, version, data, oodle, parts),
        left_plain(ctx),
        chosen_method(allowed, data) != Some(Compression::Oodle),
        chosen_method(allowed, data) is Some ==> stores_flags(version),
        p.compression == Some(Compression::Zstd) || p.compression == Some(Compression::LZ4)
            ==> data.len() <= isize::MAX,
        p.compression matches Some(m) ==> slot_for(slots, m) <= u32::MAX,
        p.data.blocks().len() <= u32::MAX,
        slot_storable(p.slot(slots), version),
        before.len() <= u64::MAX,
        p.placeable(version, slots, before.len() as u64),
    ensures
        ({
            let e = p.entry_at(version, slots, before.len() as u64);
            let file = before + entry_bytes(e, version, EntryLocation::Data) + p.data.bytes()
                + after;
            e.reads_as(file, version, p.slots_after(slots), key, data)
        }),
{
    let e = p.entry_at(version, slots, before.len() as u64);
    let stored = p.data.bytes();
    let header = entry_bytes(e, version, EntryLocation::Data);
    let file = before + header + stored + after;
    law_left_plain(p, allowed, ctx, version, data, oodle, parts);
    lemma_not_encrypted(e);
    lemma_placed(e, version, key, before, stored, after);
    if let Some(m) = chosen_method(allowed, data) {
        let base = e.blocks_base(file, version);
        law_slot_holds_method(slots, m);
        law_serialized_size(e, version, EntryLocation::Data);
        lemma_spans_of_parts(p, version, slots, before.len() as u64, data, parts, base, stored);
        lemma_packed_decodes(m, oodle, data, parts, stored, e.spans(base, stored.len()));
    }
}

/// A file is read the same from the header in the index as from the entry that was written there.
pub proof fn law_indexed_entry_reads_the_same(
    e: EntryView,
    file: Seq<u8>,
    version: Version,
    slots: Seq<Option<Compression>>,
    key: Key,
    data: Seq<u8>,
)
    requires
        e.reads_as(file, version, slots, key, data),
        stores_flags(version) || (e.compression_slot is None && e.blocks is None && e.flags == 0),
    ensures
        e.kept(version, EntryLocation::Index).reads_as(file, version, slots, key, data),
{
    let kept = e.kept(version, EntryLocation::Index);
    assert(kept.data_in(file, version, key) == e.data_in(file, version, key));
    let base = e.blocks_base(file, version);
    let len = e.data_in(file, version, key).len();
    assert(kept.spans(base, len) =~= e.spans(base, len));
}

/// The same of a file that is read in a context.
pub proof fn law_indexed_entry_reads_the_same_in(
    e: EntryView,
    file: Seq<u8>,
    version: Version,
    slots: Seq<Option<Compression>>,
    ctx: EncryptionContext<'_>,
    data: Seq<u8>,
)
    requires
        e.reads_in(file, version, slots, ctx, data),
        stores_flags(version) || (e.compression_slot is None && e.blocks is None && e.flags == 0),
    ensures
        e.kept(version, EntryLocation::Index).reads_in(file, version, slots, ctx, data),
{
    let kept = e.kept(version, EntryLocation::Index);
    assert(kept.data_in_context(file, version, ctx) == e.data_in_context(file, version, ctx));
    let base = e.blocks_base(file, version);
    let len = e.data_in_context(file, version, ctx).len();
    assert(kept.spans(base, len) =~= e.spans(base, len));
}

/// A file is read the same from the packed header in the index as from the entry that was
/// written there. An entry that is not compressed must be as long as its data, since its packed
/// header says so, and a compressed one must have a block.
pub proof fn law_encoded_entry_reads_the_same(
    e: EntryView,
    file: Seq<u8>,
    version: Version,
    slots: Seq<Option<Compression>>,
    key: Key,
    data: Seq<u8>,
)
    requires
        e.reads_as(file, version, slots, key, data),
        match e.compression_slot {
            Some(_) => e.blocks is Some && e.blocks->0.len() > 0,
            None => e.blocks is None && e.compressed == e.uncompressed,
        },
    ensures
        e.encoded_kept().reads_as(file, version, slots, key, data),
{
    let kept = e.encoded_kept();
    assert(1u8 & 1 != 0 && 0u8 & 1 == 0) by (bit_vector);
    assert(kept.is_encrypted() == e.is_encrypted());
    assert(kept.data_in(file, version, key) == e.data_in(file, version, key));
    let base = e.blocks_base(file, version);
    let len = e.data_in(file, version, key).len();
    assert(kept.spans(base, len) =~= e.spans(base, len));
}

proof fn lemma_blocks_laid_out(p: PartialEntry<'_>, base: int, i: int)
    requires
        0 <= i <= p.data.blocks().len(),
        0 <= base,
        base + total_size(p.data.blocks()) <= u64::MAX,
        forall|k: int|
            0 <= k < p.data.blocks().len() ==> (#[trigger] p.data.blocks()[k]).compressed_size
                <= u32::MAX,
    ensures
        block_start(
            base,
            block_sizes(blocks_from(base, p.data.blocks())).take(i),
            false,
        ) == base + total_size(p.data.blocks().take(i)),
    decreases i,
{
    let blocks = p.data.blocks();
    let placed = blocks_from(base, blocks);
    let sizes = block_sizes(placed);
    if i > 0 {
        lemma_blocks_laid_out(p, base, i - 1);
        lemma_total_size(blocks, i - 1);
        assert(sizes.take(i).drop_last() =~= sizes.take(i - 1));
        assert(blocks[i - 1].compressed_size <= u32::MAX);
        assert(sizes.take(i).last() == blocks[i - 1].compressed_size);
    }
}

/// The packed header of a file that was compressed block by block, and not encrypted, tells where
/// the blocks lie, since version 5, as long as its fields have room for the slot, the number of
/// blocks and their sizes. The size of the blocks has room in its own field.
pub proof fn law_partial_entry_encodable(
    p: PartialEntry<'_>,
    version: Version,
    slots: Seq<Option<Compression>>,
    offset: u64,
)
    requires
        version.version_major().at_least(VersionMajor::RelativeChunkOffsets),
        !p.encrypted,
        p.compression is Some ==> {
            &&& p.data.blocks().len() > 0
            &&& p.compressed_size == total_size(p.data.blocks())
            &&& p.compression_block_size == COMPRESSION_BLOCK_SIZE
        },
        p.placeable(version, slots, offset),
        p.slot(slots) matches Some(n) ==> n < 0x3f,
        p.data.blocks().len() <= 0xffff,
        forall|k: int|
            0 <= k < p.data.blocks().len() ==> (#[trigger] p.data.blocks()[k]).compressed_size
                <= u32::MAX,
    ensures
        p.entry_at(version, slots, offset).encodable(version),
        p.compression is Some ==> packed_block_size(p.compression_block_size) == 0x3e,
{
    let e = p.entry_at(version, slots, offset);
    let base = p.first_block(version, slots, offset);
    let blocks = p.data.blocks();
    assert((126976u32 >> 11) & 0x3f == 0x3e && 0x3eu32 << 11 == 126976u32) by (bit_vector);
    lemma_not_encrypted(e);
    if p.compression is Some {
        let placed = e.blocks->0;
        let sizes = block_sizes(placed);
        assert forall|i: int| 0 <= i < placed.len() implies block_size_fits(
            #[trigger] placed[i],
        ) && placed[i] == laid_out(base, sizes, false)[i] by {
            lemma_blocks_laid_out(p, base, i);
            lemma_total_size(blocks, i);
            assert(blocks[i].compressed_size <= u32::MAX);
            assert(sizes[i] == blocks[i].compressed_size);
        }
        assert(placed =~= laid_out(base, sizes, false));
        if blocks.len() == 1 {
            lemma_total_size(blocks, 0);
            assert(blocks.take(1) =~= blocks);
            assert(total_size(blocks.take(0)) == 0);
        }
    }
}

/// The packed header of a file that was written as a single block, or not compressed, tells
/// where it lies, since version 5, as long as it has room for the slot.
pub proof fn law_written_entry_encodable(
    version: Version,
    slot: Option<u32>,
    offset: u64,
    data: Seq<u8>,
    stored: Seq<u8>,
    hash: Seq<u8>,
)
    requires
        version.version_major().at_least(VersionMajor::RelativeChunkOffsets),
        slot matches Some(n) ==> n < 0x3f,
        Entry::serialized_size(version, slot, 1) + stored.len() <= u64::MAX,
    ensures
        written_entry(version, slot, offset, data, stored, hash).encodable(version),
{
    lemma_not_encrypted(written_entry(version, slot, offset, data, stored, hash));
}

/// Of a file of which a prefix was encrypted, the reader finds out how long that is, and gets the
/// compressed data back by decrypting it, with zeros behind if it had to grow.
pub proof fn law_protected_entry_restored<O: Fn(&[u8]) -> Result<Vec<u8>, Error>>(
    p: PartialEntry<'_>,
    allowed: Seq<Compression>,
    ctx: EncryptionContext<'_>,
    version: Version,
    data: Seq<u8>,
    oodle: O,
    parts: Seq<Seq<u8>>,
    aligned_len: usize,
)
    requires
        built(p, allowed, ctx, version, data, oodle, parts),
        ctx.variant == PakVariant::MarvelRivals,
        *ctx.key is Some,
        p.compressed_size <= aligned_len,
    ensures
        ({
            let method = chosen_method(allowed, data);
            let plain = hashed_data(method, data, parts);
            let n = ctx.variant.encrypted_len_read(
                ctx.mount_point@,
                ctx.path@,
                p.compressed_size as usize,
                can_grow(method, version),
                aligned_len,
            );
            restored(ctx.variant, (*ctx.key)->0@, n as int, p.data.bytes()).take(plain.len() as int)
                == plain
        }),
{
    let method = chosen_method(allowed, data);
    let plain = hashed_data(method, data, parts);
    let plan = context_plan(ctx, method, version, plain.len());
    let all = grown(plan, plain);
    assert(all.take(plain.len() as int) =~= plain);
    law_read_matches_write(
        ctx.mount_point@,
        ctx.path@,
        plain.len() as usize,
        can_grow(method, version),
        aligned_len,
    );
}

/// What reading gives back of a file that was put into the archive in this context: the file,
/// followed, if it was not compressed, by the zeros by which it had to grow.
pub open spec fn given_back(
    ctx: EncryptionContext<'_>,
    method: Option<Compression>,
    version: Version,
    data: Seq<u8>,
) -> Seq<u8> {
    if method is None && *ctx.key is Some {
        grown(context_plan(ctx, method, version, data.len()), data)
    } else {
        data
    }
}

/// The data of a file that was put into the archive in a context is found there in the same
/// context, decrypted as it was encrypted: what was hashed, followed by the zeros by which it had
/// to grow.
#[verifier::rlimit(60)]
proof fn lemma_data_in_context<O: Fn(&[u8]) -> Result<Vec<u8>, Error>>(
    p: PartialEntry<'_>,
    allowed: Seq<Compression>,
    ctx: EncryptionContext<'_>,
    version: Version,
    slots: Seq<Option<Compression>>,
    data: Seq<u8>,
    oodle: O,
    parts: Seq<Seq<u8>>,
    before: Seq<u8>,
    after: Seq<u8>,
)
    requires
        built(p, allowed, ctx, version, data, oodle, parts),
        p.entry_at(version, slots, before.len() as u64).storable(version),
        before.len() <= u64::MAX,
        p.compressed_size + 15 <= usize::MAX,
        aligned(p.compressed_size as int) <= p.compressed_size + after.len(),
    ensures
        ({
            let e = p.entry_at(version, slots, before.len() as u64);
            let header = entry_bytes(e, version, EntryLocation::Data);
            let file = before + header + p.data.bytes() + after;
            let method = chosen_method(allowed, data);
            let plain = hashed_data(method, data, parts);
            &&& e.stored_len_fits()
            &&& e.data_error(file, version, *ctx.key) is None
            &&& e.data_header_len(file, version) == header.len()
            &&& e.data_in_context(file, version, ctx) == (if *ctx.key is Some {
                grown(context_plan(ctx, method, version, plain.len()), plain)
            } else {
                plain
            })
        }),
{
    let e = p.entry_at(version, slots, before.len() as u64);
    let bytes = p.data.bytes();
    let header = entry_bytes(e, version, EntryLocation::Data);
    let file = before + header + bytes + after;
    let method = chosen_method(allowed, data);
    let plain = hashed_data(method, data, parts);
    assert(1u8 & 1 != 0 && 0u8 & 1 == 0) by (bit_vector);
    assert(e.is_encrypted() == p.encrypted);
    lemma_stored_placed(e, version, before, bytes, after);
    let stored = (bytes + after).take(e.stored_len());
    if let Some(k) = *ctx.key {
        let plan = context_plan(ctx, method, version, plain.len());
        let n = plan.encrypted_len as int;
        if p.encrypted {
            law_read_matches_write(
                ctx.mount_point@,
                ctx.path@,
                plain.len() as usize,
                can_grow(method, version),
                e.stored_len() as usize,
            );
            assert(e.encrypted_len_in(version, ctx) == n);
            assert(stored.take(n) =~= bytes.take(n));
            assert(restored(ctx.variant, k@, n, stored).take(bytes.len() as int) =~= restored(
                ctx.variant,
                k@,
                n,
                bytes,
            ));
        } else {
            assert(encrypted(ctx.variant, k@, grown(plan, plain).take(0)) =~= Seq::<u8>::empty());
            assert(bytes =~= grown(plan, plain));
            assert(stored =~= bytes);
        }
    } else {
        assert(stored =~= bytes);
    }
}

/// A file that was put into the archive in a context, compressed or not and encrypted or not, is
/// read back in the same context, as long as enough stands behind it to fill the last cipher
/// block: the footer always does.
#[verifier::rlimit(60)]
pub proof fn law_entry_reads_back_in_context<O: Fn(&[u8]) -> Result<Vec<u8>, Error>>(
    p: PartialEntry<'_>,
    allowed: Seq<Compression>,
    ctx: EncryptionContext<'_>,
    version: Version,
    slots: Seq<Option<Compression>>,
    data: Seq<u8>,
    oodle: O,
    parts: Seq<Seq<u8>>,
    before: Seq<u8>,
    after: Seq<u8>,
)
    requires
        built(p, allowed, ctx, version, data, oodle, parts),
        chosen_method(allowed, data) != Some(Compression::Oodle),
        chosen_method(allowed, data) is Some ==> stores_flags(version),
        p.compression == Some(Compression::Zstd) || p.compression == Some(Compression::LZ4)
            ==> data.len() <= isize::MAX,
        p.compression matches Some(m) ==> slot_for(slots, m) <= u32::MAX,
        p.data.blocks().len() <= u32::MAX,
        slot_storable(p.slot(slots), version),
        before.len() <= u64::MAX,
        p.placeable(version, slots, before.len() as u64),
        p.compressed_size + 15 <= usize::MAX,
        aligned(p.compressed_size as int) <= p.compressed_size + after.len(),
    ensures
        ({
            let e = p.entry_at(version, slots, before.len() as u64);
            let file = before + entry_bytes(e, version, EntryLocation::Data) + p.data.bytes()
                + after;
            e.reads_in(
                file,
                version,
                p.slots_after(slots),
                ctx,
                given_back(ctx, chosen_method(allowed, data), version, data),
            )
        }),
{
    let e = p.entry_at(version, slots, before.len() as u64);
    let header = entry_bytes(e, version, EntryLocation::Data);
    let file = before + header + p.data.bytes() + after;
    let method = chosen_method(allowed, data);
    let plain = hashed_data(method, data, parts);
    lemma_data_in_context(p, allowed, ctx, version, slots, data, oodle, parts, before, after);
    let found = e.data_in_context(file, version, ctx);
    if let Some(m) = method {
        let base = e.blocks_base(file, version);
        assert(plain =~= found.subrange(0, plain.len() as int));
        law_slot_holds_method(slots, m);
        law_serialized_size(e, version, EntryLocation::Data);
        lemma_spans_of_parts(p, version, slots, before.len() as u64, data, parts, base, found);
        lemma_packed_decodes(m, oodle, data, parts, found, e.spans(base, found.len()));
    }
}

/// In the standard variant a context makes no difference but for its key.
pub proof fn law_standard_context(
    e: EntryView,
    file: Seq<u8>,
    version: Version,
    slots: Seq<Option<Compression>>,
    ctx: EncryptionContext<'_>,
    data: Seq<u8>,
)
    requires
        ctx.variant == PakVariant::Standard,
    ensures
        e.reads_in(file, version, slots, ctx, data) == e.reads_as(
            file,
            version,
            slots,
            *ctx.key,
            data,
        ),
{
    if e.stored_len_fits() && e.data_error(file, version, *ctx.key) is None && e.is_encrypted() {
        let stored = e.stored_in(file, version);
        let n = e.encrypted_len_in(version, ctx) as int;
        let key = (*ctx.key)->0@;
        assert(n == stored.len());
        assert(stored.take(n) =~= stored);
        assert(restored(ctx.variant, key, n, stored) =~= decrypted(ctx.variant, key, stored));
    }
}

/// What comes back of a file is the file itself if it was compressed, if there was no key, if the
/// variant is the standard one, or from version 10 on; otherwise at most fifteen zeros follow.
pub proof fn law_given_back(
    ctx: EncryptionContext<'_>,
    method: Option<Compression>,
    version: Version,
    data: Seq<u8>,
)
    requires
        data.len() <= usize::MAX,
    ensures
        ({
            let r = given_back(ctx, method, version, data);
            &&& method is Some || *ctx.key is None || ctx.variant == PakVariant::Standard || version
                == Version::V10 || version == Version::V11 ==> r == data
            &&& data.len() <= r.len() < data.len() + 16
            &&& r.take(data.len() as int) == data
            &&& forall|i: int| data.len() <= i < r.len() ==> #[trigger] r[i] == 0
        }),
{
    let r = given_back(ctx, method, version, data);
    assert(r.take(data.len() as int) =~= data);
    if r.len() == data.len() {
        assert(r =~= data);
    }
}

} // verus!
