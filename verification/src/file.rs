//! The data of a file in an archive, behind its header.

use crate::blocks::{
    asks_caller, chunk_len, decodable, decode, decode_result, decodes_to, in_place, is_in_place,
    joined, law_decode_sound, lemma_in_place, lemma_joined_push, lemma_restored, oodle_sound,
    raw_sound, try_decode, Span,
};
use crate::bytes::{lemma_append_both, put_slice, Reader};
use crate::cipher::{decrypt, decrypted, Key};
use crate::codec::{encode, encoded_as, gzip_inflated, zlib_inflated, zstd_frames};
use crate::data::{
    get_compression_slot, law_slot_holds_method, no_slot_message, restored, sha1_digest, sha1_hash,
    slot_allowed, slot_for, slots_with,
};
use crate::entry::{
    align, aligned, entry_bytes, header_fits, header_len, law_header_read_back, law_serialized_size,
    slot_storable, stores_flags, Block, Entry, EntryLocation, EntryView,
};
use crate::error::{Error, IoError};
use crate::layout::law_flags;
use crate::variant::{EncryptionContext, PakVariant};
use crate::version::{Compression, Version, VersionMajor};
use vstd::prelude::*;
use vstd::string::StringExecFns;

verus! {

/// The archive from `offset` on.
pub open spec fn from_offset(file: Seq<u8>, offset: u64) -> Seq<u8> {
    if offset <= file.len() {
        file.skip(offset as int)
    } else {
        Seq::empty()
    }
}

/// The method in a slot; without a slot there is none.
pub open spec fn resolved(slot: Option<u32>, slots: Seq<Option<Compression>>) -> Option<
    Compression,
> {
    match slot {
        Some(n) => slots[n as int],
        None => None,
    }
}

impl EntryView {
    /// How many bytes the data takes in the archive. Encrypted data is filled up to whole cipher
    /// blocks.
    pub open spec fn stored_len(self) -> int {
        if self.is_encrypted() {
            aligned(self.compressed as int)
        } else {
            self.compressed as int
        }
    }

    /// How long the header in front of the data is.
    pub open spec fn data_header_len(self, file: Seq<u8>, version: Version) -> int {
        header_len(from_offset(file, self.offset), version)
    }

    /// Whether the archive holds the header and all of the data.
    pub open spec fn present(self, file: Seq<u8>, version: Version) -> bool {
        let s = from_offset(file, self.offset);
        header_fits(s, version) && header_len(s, version) + self.stored_len() <= s.len()
    }

    /// Why the data cannot be got, if it cannot.
    pub open spec fn data_error(self, file: Seq<u8>, version: Version, key: Key) -> Option<Error> {
        if !self.present(file, version) {
            Some(Error::Io(IoError::UnexpectedEof))
        } else if self.is_encrypted() && key is None {
            Some(Error::Encrypted)
        } else {
            None
        }
    }

    /// What the archive holds behind the header.
    pub open spec fn stored_in(self, file: Seq<u8>, version: Version) -> Seq<u8> {
        let s = from_offset(file, self.offset);
        let h = header_len(s, version);
        s.subrange(h, h + self.stored_len())
    }

    /// The data, decrypted but still compressed.
    pub open spec fn data_in(self, file: Seq<u8>, version: Version, key: Key) -> Seq<u8> {
        let stored = self.stored_in(file, version);
        if self.is_encrypted() {
            decrypted(PakVariant::Standard, key->0@, stored).take(self.compressed as int)
        } else {
            stored
        }
    }

    /// Whether the data may be longer in the archive than it was before encryption.
    pub open spec fn may_have_grown(self, version: Version) -> bool {
        self.compression_slot is Some || version.rank() < Version::V10.rank()
    }

    /// How many of the stored bytes of an encrypted entry are encrypted in this context.
    pub open spec fn encrypted_len_in(self, version: Version, ctx: EncryptionContext<'_>) -> usize {
        ctx.variant.encrypted_len_read(
            ctx.mount_point@,
            ctx.path@,
            self.compressed as usize,
            self.may_have_grown(version),
            self.stored_len() as usize,
        )
    }

    /// The data, decrypted as the variant encrypts it but still compressed.
    pub open spec fn data_in_context(
        self,
        file: Seq<u8>,
        version: Version,
        ctx: EncryptionContext<'_>,
    ) -> Seq<u8> {
        let stored = self.stored_in(file, version);
        if self.is_encrypted() {
            restored(
                ctx.variant,
                (*ctx.key)->0@,
                self.encrypted_len_in(version, ctx) as int,
                stored,
            ).take(self.compressed as int)
        } else {
            stored
        }
    }

    /// From where the blocks are counted to the start of the data.
    pub open spec fn blocks_base(self, file: Seq<u8>, version: Version) -> int {
        let h = self.data_header_len(file, version);
        if version.version_major().at_least(VersionMajor::RelativeChunkOffsets) {
            h
        } else {
            self.offset + h
        }
    }

    /// Where the blocks lie in the data. Without a list of blocks all of it is one.
    pub open spec fn spans(self, base: int, len: nat) -> Seq<Span> {
        match self.blocks {
            Some(blocks) => Seq::new(
                blocks.len(),
                |i: int|
                    Span {
                        start: (blocks[i].start - base) as usize,
                        end: (blocks[i].end - base) as usize,
                    },
            ),
            None => seq![Span { start: 0, end: len as usize }],
        }
    }

    /// Whether no block starts or ends in front of the data.
    pub open spec fn blocks_behind(self, base: int) -> bool {
        self.blocks matches Some(blocks) ==> forall|i: int|
            0 <= i < blocks.len() ==> base <= (#[trigger] blocks[i]).start && base <= blocks[i].end
    }

    /// Why the file cannot be decompressed, if it does not come to that.
    pub open spec fn fetch_error(
        self,
        file: Seq<u8>,
        version: Version,
        slots: Seq<Option<Compression>>,
        key: Key,
    ) -> Option<Error> {
        if self.data_error(file, version, key) is Some {
            self.data_error(file, version, key)
        } else {
            self.slot_error(slots)
        }
    }

    pub open spec fn slot_error(self, slots: Seq<Option<Compression>>) -> Option<Error> {
        match self.compression_slot {
            Some(n) => if n < slots.len() {
                None
            } else {
                Some(Error::UnknownCompressionSlot(n, slots.len() as usize))
            },
            None => None,
        }
    }

    /// Whether the sizes are such that memory can hold the stored data.
    pub open spec fn stored_len_fits(self) -> bool {
        &&& self.is_encrypted() ==> self.compressed + 15 <= u64::MAX
        &&& self.stored_len() <= usize::MAX
    }

    /// Whether it can be tried to decompress the data: each block that is looked at lies within it.
    pub open spec fn decodable_from<
        R: Fn(&[u8], Vec<u8>) -> Option<Vec<u8>>,
        F: Fn(&[u8], Vec<u8>) -> (usize, Vec<u8>),
    >(
        self,
        base: int,
        slots: Seq<Option<Compression>>,
        data: Seq<u8>,
        oodle: Option<&F>,
        raw_zstd: R,
    ) -> bool {
        &&& self.blocks_behind(base)
        &&& self.slot_error(slots) is None ==> decodable(
            resolved(self.compression_slot, slots),
            data,
            self.spans(base, data.len()),
            self.uncompressed,
            self.compression_block_size,
            oodle,
            raw_zstd,
        )
    }

    /// What decompressing the data appends, or why it fails.
    pub open spec fn decoded_from<
        R: Fn(&[u8], Vec<u8>) -> Option<Vec<u8>>,
        F: Fn(&[u8], Vec<u8>) -> (usize, Vec<u8>),
    >(
        self,
        base: int,
        slots: Seq<Option<Compression>>,
        data: Seq<u8>,
        oodle: Option<&F>,
        raw_zstd: R,
        r: Result<(), Error>,
        before: Seq<u8>,
        after: Seq<u8>,
    ) -> bool {
        match self.slot_error(slots) {
            Some(e) => r == Err::<(), Error>(e) && after == before,
            None => decode_result(
                resolved(self.compression_slot, slots),
                data,
                self.spans(base, data.len()),
                self.uncompressed,
                self.compression_block_size,
                oodle,
                raw_zstd,
                r,
                before,
                after,
            ),
        }
    }

    /// Whether the data is sound and decompresses to `d`, whatever decompressors are handed in.
    pub open spec fn decodes_from(
        self,
        base: int,
        slots: Seq<Option<Compression>>,
        data: Seq<u8>,
        d: Seq<u8>,
    ) -> bool {
        let method = resolved(self.compression_slot, slots);
        let spans = self.spans(base, data.len());
        &&& self.blocks_behind(base)
        &&& self.slot_error(slots) is None
        &&& in_place(
            method,
            data,
            spans,
            self.uncompressed,
            self.compression_block_size,
            true,
        )
        &&& decodes_to(
            method,
            data,
            spans,
            self.uncompressed,
            self.compression_block_size,
            d,
        )
    }

    /// Whether it can be tried to read the file: its data fits into memory and, if it can be got,
    /// each block that is looked at lies within it.
    pub open spec fn readable<
        R: Fn(&[u8], Vec<u8>) -> Option<Vec<u8>>,
        F: Fn(&[u8], Vec<u8>) -> (usize, Vec<u8>),
    >(
        self,
        file: Seq<u8>,
        version: Version,
        slots: Seq<Option<Compression>>,
        key: Key,
        oodle: Option<&F>,
        raw_zstd: R,
    ) -> bool {
        &&& self.stored_len_fits()
        &&& self.data_error(file, version, key) is None ==> self.decodable_from(
            self.blocks_base(file, version),
            slots,
            self.data_in(file, version, key),
            oodle,
            raw_zstd,
        )
    }

    /// Whether it can be tried to read the file in this context.
    pub open spec fn readable_in<
        R: Fn(&[u8], Vec<u8>) -> Option<Vec<u8>>,
        F: Fn(&[u8], Vec<u8>) -> (usize, Vec<u8>),
    >(
        self,
        file: Seq<u8>,
        version: Version,
        slots: Seq<Option<Compression>>,
        ctx: EncryptionContext<'_>,
        oodle: Option<&F>,
        raw_zstd: R,
    ) -> bool {
        &&& self.stored_len_fits()
        &&& self.data_error(file, version, *ctx.key) is None ==> self.decodable_from(
            self.blocks_base(file, version),
            slots,
            self.data_in_context(file, version, ctx),
            oodle,
            raw_zstd,
        )
    }

    /// Whether reading the file in this context gives `d`, whatever decompressors are handed in.
    pub open spec fn reads_in(
        self,
        file: Seq<u8>,
        version: Version,
        slots: Seq<Option<Compression>>,
        ctx: EncryptionContext<'_>,
        d: Seq<u8>,
    ) -> bool {
        &&& self.stored_len_fits()
        &&& self.data_error(file, version, *ctx.key) is None
        &&& self.decodes_from(
            self.blocks_base(file, version),
            slots,
            self.data_in_context(file, version, ctx),
            d,
        )
    }

    /// Whether the data of the file fits into memory and, if it can be got, each block that may be
    /// needed lies within it.
    pub open spec fn laid_out_well(
        self,
        file: Seq<u8>,
        version: Version,
        slots: Seq<Option<Compression>>,
        key: Key,
        has_oodle: bool,
    ) -> bool {
        &&& self.stored_len_fits()
        &&& self.data_error(file, version, key) is None ==> {
            let base = self.blocks_base(file, version);
            let data = self.data_in(file, version, key);
            &&& self.blocks_behind(base)
            &&& self.slot_error(slots) is None ==> in_place(
                resolved(self.compression_slot, slots),
                data,
                self.spans(base, data.len()),
                self.uncompressed,
                self.compression_block_size,
                has_oodle,
            )
        }
    }

    /// Whether reading the file gives `d`, whatever decompressors are handed in.
    pub open spec fn reads_as(
        self,
        file: Seq<u8>,
        version: Version,
        slots: Seq<Option<Compression>>,
        key: Key,
        d: Seq<u8>,
    ) -> bool {
        &&& self.stored_len_fits()
        &&& self.data_error(file, version, key) is None
        &&& self.decodes_from(
            self.blocks_base(file, version),
            slots,
            self.data_in(file, version, key),
            d,
        )
    }
}

impl Entry {
    /// Reads the data of the file, and tells where it starts.
    pub fn read_data(&self, reader: &mut Reader<'_>, version: Version, key: &Key) -> (r: Result<
        (Vec<u8>, u64),
        Error,
    >)
        requires
            self@.stored_len_fits(),
        ensures
            final(reader).data == old(reader).data,
            ({
                let file = old(reader).data@;
                match r {
                    Ok((data, data_offset)) => {
                        &&& self@.data_error(file, version, *key) is None
                        &&& data@ == self@.data_in(file, version, *key)
                        &&& data_offset == self.offset + self@.data_header_len(file, version)
                        &&& final(reader).pos == data_offset + self@.stored_len()
                    },
                    Err(e) => self@.data_error(file, version, *key) == Some(e),
                }
            }),
    {
        let ghost file = reader.data@;
        let (mut data, data_offset): (Vec<u8>, u64) = self.read_stored(reader, version)?;
        if self.is_encrypted() {
            decrypt(PakVariant::Standard, key, data.as_mut_slice())?;
            data.truncate(self.compressed as usize);
            assert(data@ =~= self@.data_in(file, version, *key));
        }
        Ok((data, data_offset))
    }

    /// Reads what the archive holds behind the header, and tells where that starts.
    fn read_stored(&self, reader: &mut Reader<'_>, version: Version) -> (r: Result<
        (Vec<u8>, u64),
        Error,
    >)
        requires
            self@.stored_len_fits(),
        ensures
            final(reader).data == old(reader).data,
            ({
                let file = old(reader).data@;
                match r {
                    Ok((stored, data_offset)) => {
                        &&& self@.present(file, version)
                        &&& stored@ == self@.stored_in(file, version)
                        &&& stored@.len() == self@.stored_len()
                        &&& data_offset == self.offset + self@.data_header_len(file, version)
                        &&& final(reader).pos == data_offset + self@.stored_len()
                    },
                    Err(e) => {
                        &&& e == Error::Io(IoError::UnexpectedEof)
                        &&& !self@.present(file, version)
                    },
                }
            }),
    {
        let ghost file = reader.data@;
        reader.seek(self.offset);
        let ghost s = reader.rest();
        assert(s == from_offset(file, self.offset));
        Entry::read(reader, version)?;
        let data_offset: u64 = reader.pos;
        let len: u64 = if self.is_encrypted() {
            align(self.compressed)
        } else {
            self.compressed
        };
        let stored = reader.read_len(len as usize)?;
        let ghost h = header_len(s, version);
        assert(stored@ =~= s.subrange(h, h + len));
        Ok((vstd::slice::slice_to_vec(stored), data_offset))
    }

    /// Whether no block starts or ends in front of the data.
    fn has_blocks_behind(&self, base: u64) -> (r: bool)
        ensures
            r == self@.blocks_behind(base as int),
    {
        if let Some(blocks) = &self.blocks {
            let mut i: usize = 0;
            while i < blocks.len()
                invariant
                    i <= blocks@.len(),
                    self.blocks == Some(*blocks),
                    forall|k: int|
                        0 <= k < i ==> base <= (#[trigger] blocks@[k]).start && base
                            <= blocks@[k].end,
                decreases blocks@.len() - i,
            {
                if blocks[i].start < base || blocks[i].end < base {
                    assert(!(base <= self@.blocks->0[i as int].start && base
                        <= self@.blocks->0[i as int].end));
                    return false;
                }
                i += 1;
            }
        }
        true
    }

    fn data_spans(&self, base: u64, len: usize) -> (r: Vec<Span>)
        requires
            self@.blocks_behind(base as int),
        ensures
            r@ == self@.spans(base as int, len as nat),
    {
        let ghost all = self@.spans(base as int, len as nat);
        let mut spans: Vec<Span> = Vec::new();
        match &self.blocks {
            Some(blocks) => {
                let mut i: usize = 0;
                while i < blocks.len()
                    invariant
                        i <= blocks@.len(),
                        self.blocks == Some(*blocks),
                        self@.blocks_behind(base as int),
                        all == self@.spans(base as int, len as nat),
                        spans@ == all.take(i as int),
                    decreases blocks@.len() - i,
                {
                    assert(base <= self@.blocks->0[i as int].start);
                    let span = Span {
                        start: (blocks[i].start - base) as usize,
                        end: (blocks[i].end - base) as usize,
                    };
                    spans.push(span);
                    assert(all.take(i + 1) =~= all.take(i as int).push(span));
                    i += 1;
                }
            },
            None => {
                spans.push(Span { start: 0, end: len });
            },
        }
        assert(spans@ =~= all);
        spans
    }

    fn resolve(&self, compression: &[Option<Compression>]) -> (r: Result<
        Option<Compression>,
        Error,
    >)
        ensures
            match r {
                Ok(method) => {
                    &&& self@.slot_error(compression@) is None
                    &&& method == resolved(self.compression_slot, compression@)
                },
                Err(e) => self@.slot_error(compression@) == Some(e),
            },
    {
        match self.compression_slot {
            None => Ok(None),
            Some(c) => if (c as usize) < compression.len() {
                Ok(compression[c as usize])
            } else {
                Err(Error::UnknownCompressionSlot(c, compression.len()))
            },
        }
    }

    fn base_of(&self, data_offset: u64, version: Version, Ghost(file): Ghost<Seq<u8>>) -> (r: u64)
        requires
            data_offset == self.offset + self@.data_header_len(file, version),
            self@.data_header_len(file, version) >= 0,
        ensures
            r == self@.blocks_base(file, version),
    {
        if version.version_major().at_least(VersionMajor::RelativeChunkOffsets) {
            data_offset - self.offset
        } else {
            data_offset
        }
    }

    /// Appends the file to `buf`. `compression` holds the methods in the archive's slots. A raw
    /// Zstandard decompressor, for blocks without a frame, and an Oodle decompressor, if there is
    /// one, are handed in.
    pub fn read_file<
        R: Fn(&[u8], Vec<u8>) -> Option<Vec<u8>>,
        F: Fn(&[u8], Vec<u8>) -> (usize, Vec<u8>),
    >(
        &self,
        reader: &mut Reader<'_>,
        version: Version,
        compression: &[Option<Compression>],
        key: &Key,
        oodle: Option<&F>,
        raw_zstd: &R,
        buf: &mut Vec<u8>,
    ) -> (r: Result<(), Error>)
        requires
            self@.readable(old(reader).data@, version, compression@, *key, oodle, *raw_zstd),
            raw_sound(*raw_zstd),
            oodle matches Some(f) ==> oodle_sound(*f),
        ensures
            final(reader).data == old(reader).data,
            ({
                let file = old(reader).data@;
                let data = self@.data_in(file, version, *key);
                match self@.fetch_error(file, version, compression@, *key) {
                    Some(e) => r == Err::<(), Error>(e) && final(buf)@ == old(buf)@,
                    None => {
                        &&& decode_result(
                            resolved(self.compression_slot, compression@),
                            data,
                            self@.spans(self@.blocks_base(file, version), data.len()),
                            self.uncompressed,
                            self.compression_block_size,
                            oodle,
                            *raw_zstd,
                            r,
                            old(buf)@,
                            final(buf)@,
                        )
                        &&& final(reader).pos == self.offset + self@.data_header_len(file, version)
                            + self@.stored_len()
                    },
                }
            }),
            forall|d: Seq<u8>| #[trigger]
                self@.reads_as(old(reader).data@, version, compression@, *key, d) ==> r is Ok
                    && final(buf)@ == old(buf)@ + d,
    {
        let ghost file = reader.data@;
        let (data, data_offset): (Vec<u8>, u64) = self.read_data(reader, version, key)?;
        let base: u64 = self.base_of(data_offset, version, Ghost(file));
        let spans = self.data_spans(base, data.len());
        let method = self.resolve(compression)?;
        let r = decode(
            method,
            data.as_slice(),
            &spans,
            self.uncompressed,
            self.compression_block_size,
            oodle,
            raw_zstd,
            buf,
        );
        proof {
            assert forall|d: Seq<u8>| #[trigger]
                self@.reads_as(file, version, compression@, *key, d) implies r is Ok && buf@
                == old(buf)@ + d by {
                law_decode_sound(
                    method,
                    data@,
                    spans@,
                    self.uncompressed,
                    self.compression_block_size,
                    oodle,
                    *raw_zstd,
                    r,
                    old(buf)@,
                    buf@,
                    d,
                );
            }
        }
        r
    }
}

/// A file that is laid out well can be read, whatever its blocks turn out to hold.
pub proof fn lemma_laid_out_well<
    R: Fn(&[u8], Vec<u8>) -> Option<Vec<u8>>,
    F: Fn(&[u8], Vec<u8>) -> (usize, Vec<u8>),
>(
    e: EntryView,
    file: Seq<u8>,
    version: Version,
    slots: Seq<Option<Compression>>,
    key: Key,
    oodle: Option<&F>,
    raw_zstd: R,
)
    requires
        e.laid_out_well(file, version, slots, key, oodle is Some),
    ensures
        e.readable(file, version, slots, key, oodle, raw_zstd),
{
    if e.fetch_error(file, version, slots, key) is None {
        let data = e.data_in(file, version, key);
        lemma_in_place(
            resolved(e.compression_slot, slots),
            data,
            e.spans(e.blocks_base(file, version), data.len()),
            e.uncompressed,
            e.compression_block_size,
            oodle,
            raw_zstd,
        );
    }
}

/// Data that is sound can be decompressed, and to nothing else.
proof fn lemma_decodes_from<
    R: Fn(&[u8], Vec<u8>) -> Option<Vec<u8>>,
    F: Fn(&[u8], Vec<u8>) -> (usize, Vec<u8>),
>(
    e: EntryView,
    base: int,
    slots: Seq<Option<Compression>>,
    data: Seq<u8>,
    oodle: Option<&F>,
    raw_zstd: R,
    r: Option<Result<(), Error>>,
    before: Seq<u8>,
    after: Seq<u8>,
    d: Seq<u8>,
)
    requires
        e.decodes_from(base, slots, data, d),
        e.decodable_from(base, slots, data, oodle, raw_zstd) ==> r is Some,
        r matches Some(done) ==> e.decoded_from(
            base,
            slots,
            data,
            oodle,
            raw_zstd,
            done,
            before,
            after,
        ),
    ensures
        r matches Some(Ok(_)),
        after == before + d,
{
    let method = resolved(e.compression_slot, slots);
    let spans = e.spans(base, data.len());
    lemma_in_place(
        method,
        data,
        spans,
        e.uncompressed,
        e.compression_block_size,
        oodle,
        raw_zstd,
    );
    law_decode_sound(
        method,
        data,
        spans,
        e.uncompressed,
        e.compression_block_size,
        oodle,
        raw_zstd,
        r->0,
        before,
        after,
        d,
    );
}

impl Entry {
    /// Reads the data of the file in this context, and tells where it starts.
    pub fn read_data_in(
        &self,
        reader: &mut Reader<'_>,
        version: Version,
        ctx: EncryptionContext<'_>,
    ) -> (r: Result<(Vec<u8>, u64), Error>)
        requires
            self@.stored_len_fits(),
        ensures
            final(reader).data == old(reader).data,
            ({
                let file = old(reader).data@;
                match r {
                    Ok((data, data_offset)) => {
                        &&& self@.data_error(file, version, *ctx.key) is None
                        &&& data@ == self@.data_in_context(file, version, ctx)
                        &&& data_offset == self.offset + self@.data_header_len(file, version)
                        &&& final(reader).pos == data_offset + self@.stored_len()
                    },
                    Err(e) => self@.data_error(file, version, *ctx.key) == Some(e),
                }
            }),
    {
        let ghost file = reader.data@;
        let (mut data, data_offset): (Vec<u8>, u64) = self.read_stored(reader, version)?;
        if self.is_encrypted() {
            let ghost stored = data@;
            let can_grow: bool = self.compression_slot.is_some() || version.rank()
                < Version::V10.rank();
            let n: usize = ctx.variant.read_encrypted_len(
                ctx.mount_point,
                ctx.path,
                self.compressed as usize,
                can_grow,
                data.len(),
            );
            let (head, _) = data.as_mut_slice().split_at_mut(n);
            assert(head@ =~= stored.take(n as int));
            decrypt(ctx.variant, ctx.key, head)?;
            let ghost plain = head@;
            assert(data@ =~= plain + stored.skip(n as int));
            data.truncate(self.compressed as usize);
            assert(data@ =~= self@.data_in_context(file, version, ctx));
        }
        Ok((data, data_offset))
    }

    /// Appends what the data of the file decompresses to, if it can be tried.
    fn decode_data<
        R: Fn(&[u8], Vec<u8>) -> Option<Vec<u8>>,
        F: Fn(&[u8], Vec<u8>) -> (usize, Vec<u8>),
    >(
        &self,
        data: &Vec<u8>,
        base: u64,
        compression: &[Option<Compression>],
        oodle: Option<&F>,
        raw_zstd: &R,
        buf: &mut Vec<u8>,
    ) -> (r: Option<Result<(), Error>>)
        requires
            raw_sound(*raw_zstd),
            oodle matches Some(f) ==> oodle_sound(*f),
        ensures
            self@.decodable_from(base as int, compression@, data@, oodle, *raw_zstd) ==> r is Some,
            r is Some && !asks_caller(resolved(self.compression_slot, compression@))
                ==> self@.decodable_from(base as int, compression@, data@, oodle, *raw_zstd),
            match r {
                Some(done) => self@.decoded_from(
                    base as int,
                    compression@,
                    data@,
                    oodle,
                    *raw_zstd,
                    done,
                    old(buf)@,
                    final(buf)@,
                ),
                None => final(buf)@ == old(buf)@,
            },
    {
        if !self.has_blocks_behind(base) {
            return None;
        }
        let spans = self.data_spans(base, data.len());
        let method = match self.resolve(compression) {
            Ok(method) => method,
            Err(e) => return Some(Err(e)),
        };
        try_decode(
            method,
            data.as_slice(),
            &spans,
            self.uncompressed,
            self.compression_block_size,
            oodle,
            raw_zstd,
            buf,
        )
    }

    /// Appends the file to `buf`, decrypted as the variant of this context encrypts it, if it can
    /// be tried to read it. `None` says that it cannot, and that nothing was done. How far the
    /// blocks are looked at may depend on the decompressors that were handed in.
    pub fn read_file_in<
        R: Fn(&[u8], Vec<u8>) -> Option<Vec<u8>>,
        F: Fn(&[u8], Vec<u8>) -> (usize, Vec<u8>),
    >(
        &self,
        reader: &mut Reader<'_>,
        version: Version,
        compression: &[Option<Compression>],
        ctx: EncryptionContext<'_>,
        oodle: Option<&F>,
        raw_zstd: &R,
        buf: &mut Vec<u8>,
    ) -> (r: Option<Result<(), Error>>)
        requires
            raw_sound(*raw_zstd),
            oodle matches Some(f) ==> oodle_sound(*f),
        ensures
            final(reader).data == old(reader).data,
            self@.readable_in(old(reader).data@, version, compression@, ctx, oodle, *raw_zstd)
                ==> r is Some,
            r is Some && !asks_caller(resolved(self.compression_slot, compression@))
                ==> self@.readable_in(
                old(reader).data@,
                version,
                compression@,
                ctx,
                oodle,
                *raw_zstd,
            ),
            ({
                let file = old(reader).data@;
                match r {
                    None => *final(reader) == *old(reader) && final(buf)@ == old(buf)@,
                    Some(done) => match self@.data_error(file, version, *ctx.key) {
                        Some(e) => done == Err::<(), Error>(e) && final(buf)@ == old(buf)@,
                        None => {
                            &&& self@.decoded_from(
                                self@.blocks_base(file, version),
                                compression@,
                                self@.data_in_context(file, version, ctx),
                                oodle,
                                *raw_zstd,
                                done,
                                old(buf)@,
                                final(buf)@,
                            )
                            &&& final(reader).pos == self.offset + self@.data_header_len(
                                file,
                                version,
                            ) + self@.stored_len()
                        },
                    },
                }
            }),
            forall|d: Seq<u8>| #[trigger]
                self@.reads_in(old(reader).data@, version, compression@, ctx, d) ==> {
                    &&& r matches Some(Ok(_))
                    &&& final(buf)@ == old(buf)@ + d
                },
    {
        let ghost file = reader.data@;
        if !self.has_stored_len_that_fits() {
            return None;
        }
        let mut ahead = Reader::new(reader.data);
        let (data, data_offset): (Vec<u8>, u64) = match self.read_data_in(
            &mut ahead,
            version,
            ctx,
        ) {
            Ok(found) => found,
            Err(e) => return Some(Err(e)),
        };
        let base: u64 = self.base_of(data_offset, version, Ghost(file));
        let done = self.decode_data(&data, base, compression, oodle, raw_zstd, buf);
        if done.is_some() {
            reader.seek(ahead.pos);
        }
        proof {
            assert forall|d: Seq<u8>| #[trigger]
                self@.reads_in(file, version, compression@, ctx, d) implies (done matches Some(
                Ok(_),
            )) && buf@ == old(buf)@ + d by {
                lemma_decodes_from(
                    self@,
                    base as int,
                    compression@,
                    data@,
                    oodle,
                    *raw_zstd,
                    done,
                    old(buf)@,
                    buf@,
                    d,
                );
            }
        }
        done
    }

    fn has_stored_len_that_fits(&self) -> (r: bool)
        ensures
            r == self@.stored_len_fits(),
    {
        if self.is_encrypted() {
            self.compressed <= u64::MAX - 15 && align(self.compressed) <= usize::MAX as u64
        } else {
            self.compressed <= usize::MAX as u64
        }
    }

    pub fn is_laid_out_well(
        &self,
        reader: &Reader<'_>,
        version: Version,
        compression: &[Option<Compression>],
        key: &Key,
        has_oodle: bool,
    ) -> (r: bool)
        ensures
            r == self@.laid_out_well(reader.data@, version, compression@, *key, has_oodle),
    {
        let ghost file = reader.data@;
        if !self.has_stored_len_that_fits() {
            return false;
        }
        let mut ahead = Reader::new(reader.data);
        let (data, data_offset): (Vec<u8>, u64) = match self.read_data(&mut ahead, version, key) {
            Ok(found) => found,
            Err(_) => return true,
        };
        let base: u64 = self.base_of(data_offset, version, Ghost(file));
        if !self.has_blocks_behind(base) {
            return false;
        }
        let spans = self.data_spans(base, data.len());
        match self.resolve(compression) {
            Ok(method) => is_in_place(
                method,
                data.as_slice(),
                &spans,
                self.uncompressed,
                self.compression_block_size,
                has_oodle,
            ),
            Err(_) => true,
        }
    }

    /// Appends the file to `buf`, if it can be tried to read it. `None` says that it cannot, and
    /// that nothing was done. How far the blocks are looked at may depend on the decompressors that
    /// were handed in.
    pub fn try_read_file<
        R: Fn(&[u8], Vec<u8>) -> Option<Vec<u8>>,
        F: Fn(&[u8], Vec<u8>) -> (usize, Vec<u8>),
    >(
        &self,
        reader: &mut Reader<'_>,
        version: Version,
        compression: &[Option<Compression>],
        key: &Key,
        oodle: Option<&F>,
        raw_zstd: &R,
        buf: &mut Vec<u8>,
    ) -> (r: Option<Result<(), Error>>)
        requires
            raw_sound(*raw_zstd),
            oodle matches Some(f) ==> oodle_sound(*f),
        ensures
            final(reader).data == old(reader).data,
            self@.readable(old(reader).data@, version, compression@, *key, oodle, *raw_zstd)
                ==> r is Some,
            r is Some && !asks_caller(resolved(self.compression_slot, compression@))
                ==> self@.readable(
                old(reader).data@,
                version,
                compression@,
                *key,
                oodle,
                *raw_zstd,
            ),
            ({
                let file = old(reader).data@;
                let data = self@.data_in(file, version, *key);
                match r {
                    None => *final(reader) == *old(reader) && final(buf)@ == old(buf)@,
                    Some(done) => match self@.fetch_error(file, version, compression@, *key) {
                        Some(e) => done == Err::<(), Error>(e) && final(buf)@ == old(buf)@,
                        None => decode_result(
                            resolved(self.compression_slot, compression@),
                            data,
                            self@.spans(self@.blocks_base(file, version), data.len()),
                            self.uncompressed,
                            self.compression_block_size,
                            oodle,
                            *raw_zstd,
                            done,
                            old(buf)@,
                            final(buf)@,
                        ),
                    },
                }
            }),
            forall|d: Seq<u8>| #[trigger]
                self@.reads_as(old(reader).data@, version, compression@, *key, d) ==> {
                    &&& r matches Some(Ok(_))
                    &&& final(buf)@ == old(buf)@ + d
                },
    {
        let ghost file = reader.data@;
        if self.is_laid_out_well(reader, version, compression, key, oodle.is_some()) {
            proof {
                lemma_laid_out_well(self@, file, version, compression@, *key, oodle, *raw_zstd);
            }
            return Some(self.read_file(reader, version, compression, key, oodle, raw_zstd, buf));
        }
        if !self.has_stored_len_that_fits() {
            return None;
        }
        let mut ahead = Reader::new(reader.data);
        let (data, data_offset): (Vec<u8>, u64) = match self.read_data(&mut ahead, version, key) {
            Ok(found) => found,
            Err(e) => return Some(Err(e)),
        };
        let base: u64 = self.base_of(data_offset, version, Ghost(file));
        let done = self.decode_data(&data, base, compression, oodle, raw_zstd, buf);
        if done.is_some() {
            reader.seek(ahead.pos);
        }
        done
    }
}

proof fn lemma_behind(front: Seq<u8>, back: Seq<u8>, n: int)
    requires
        0 <= n <= back.len(),
    ensures
        (front + back).skip(front.len() as int) == back,
        (front + back).subrange(front.len() as int, front.len() + n) == back.take(n),
{
    assert((front + back).skip(front.len() as int) =~= back);
    assert((front + back).subrange(front.len() as int, front.len() + n) =~= back.take(n));
}

/// An entry that was written at the end of an archive, header and data, is found there, as far as
/// what was written behind it fills the last cipher block.
#[verifier::rlimit(60)]
pub proof fn lemma_stored_placed(
    e: EntryView,
    version: Version,
    before: Seq<u8>,
    stored: Seq<u8>,
    after: Seq<u8>,
)
    requires
        e.storable(version),
        e.offset == before.len(),
        e.compressed == stored.len(),
        e.stored_len() <= stored.len() + after.len(),
    ensures
        ({
            let header = entry_bytes(e, version, EntryLocation::Data);
            let file = before + header + stored + after;
            &&& e.present(file, version)
            &&& e.stored_in(file, version) == (stored + after).take(e.stored_len())
            &&& e.data_header_len(file, version) == header.len()
        }),
{
    let header = entry_bytes(e, version, EntryLocation::Data);
    let file = before + header + stored + after;
    let rest = stored + after;
    law_header_read_back(e, version, EntryLocation::Data, rest);
    assert(file =~= before + (header + rest));
    lemma_behind(before, header + rest, 0);
    lemma_behind(header, rest, e.stored_len());
    assert(from_offset(file, e.offset) == header + rest);
}

/// An entry that was written at the end of an archive, header and data, is found there, whatever
/// was written behind it.
#[verifier::rlimit(60)]
pub proof fn lemma_placed(
    e: EntryView,
    version: Version,
    key: Key,
    before: Seq<u8>,
    stored: Seq<u8>,
    after: Seq<u8>,
)
    requires
        e.storable(version),
        !e.is_encrypted(),
        e.offset == before.len(),
        e.compressed == stored.len(),
        stored.len() <= usize::MAX,
    ensures
        ({
            let header = entry_bytes(e, version, EntryLocation::Data);
            let file = before + header + stored + after;
            &&& e.stored_len_fits()
            &&& e.data_error(file, version, key) is None
            &&& e.data_in(file, version, key) == stored
            &&& e.data_header_len(file, version) == header.len()
        }),
{
    lemma_stored_placed(e, version, before, stored, after);
    assert((stored + after).take(stored.len() as int) =~= stored);
}

/// The header of a file that is written at `offset`, as a single block if it is compressed.
pub open spec fn written_entry(
    version: Version,
    slot: Option<u32>,
    offset: u64,
    data: Seq<u8>,
    stored: Seq<u8>,
    hash: Seq<u8>,
) -> EntryView {
    let header = Entry::serialized_size(version, slot, 1);
    let base = if version.version_major().at_least(VersionMajor::RelativeChunkOffsets) {
        header
    } else {
        offset + header
    };
    EntryView {
        offset,
        compressed: stored.len() as u64,
        uncompressed: data.len() as u64,
        compression_slot: slot,
        timestamp: None,
        hash: Some(hash),
        blocks: match slot {
            Some(_) => Some(
                seq![Block { start: base as u64, end: (base + stored.len()) as u64 }],
            ),
            None => None,
        },
        flags: 0,
        compression_block_size: match slot {
            Some(_) => data.len() as u32,
            None => 0,
        },
    }
}

/// The method for a file that is written: the first one allowed.
pub open spec fn first_method(allowed: Seq<Compression>) -> Option<Compression> {
    if allowed.len() == 0 {
        None
    } else {
        Some(allowed[0])
    }
}

/// The slot that the method gets.
pub open spec fn method_slot(
    method: Option<Compression>,
    slots: Seq<Option<Compression>>,
) -> Option<u32> {
    match method {
        Some(m) => Some(slot_for(slots, m) as u32),
        None => None,
    }
}

/// The slots after the method got its own.
pub open spec fn method_slots(
    method: Option<Compression>,
    slots: Seq<Option<Compression>>,
) -> Seq<Option<Compression>> {
    match method {
        Some(m) => slots_with(slots, m),
        None => slots,
    }
}

/// What is stored of a file: its data or, if there is a method, what that makes of it. Files are
/// not written as a single LZ4 or Oodle block.
pub open spec fn stored_as(method: Option<Compression>, data: Seq<u8>, stored: Seq<u8>) -> bool {
    match method {
        Some(m) => m != Compression::LZ4 && m != Compression::Oodle && encoded_as(m, data, stored),
        None => stored == data,
    }
}

/// Why a file cannot be written with this method, if it cannot.
pub open spec fn write_error(
    version: Version,
    slots: Seq<Option<Compression>>,
    method: Option<Compression>,
    e: Error,
) -> bool {
    match method {
        Some(m) => if !slot_allowed(version, slots, m) {
            e matches Error::Other(text) && text@ == no_slot_message(m)
        } else {
            match m {
                Compression::Oodle => e matches Error::Other(text) && text@
                    == "writing Oodle compression unsupported"@,
                Compression::LZ4 => e matches Error::Other(text) && text@
                    == "writing LZ4 compression unsupported"@,
                _ => false,
            }
        },
        None => false,
    }
}

/// Whether a file can be read back that was written like this. Versions below 3 store no blocks,
/// and their headers are shorter than the place of the block assumes. A Zstandard block of an
/// empty file has no room to be decompressed into, and one of more than a vector can hold finds
/// none. The number of the slot has to fit into its type.
pub open spec fn reads_back(
    version: Version,
    slots: Seq<Option<Compression>>,
    method: Option<Compression>,
    data: Seq<u8>,
) -> bool {
    &&& method is Some ==> stores_flags(version)
    &&& method == Some(Compression::Zstd) ==> 0 < data.len() <= isize::MAX
    &&& method matches Some(m) ==> slot_for(slots, m) <= u32::MAX
}

pub proof fn lemma_not_encrypted(e: EntryView)
    requires
        e.flags == 0,
    ensures
        !e.is_encrypted(),
{
    assert(0u8 & 1 == 0) by (bit_vector);
}

/// Reading a file that was written gives its data, whatever was written behind it.
#[verifier::rlimit(60)]
pub proof fn law_written_file_reads_back(
    version: Version,
    slots: Seq<Option<Compression>>,
    method: Option<Compression>,
    key: Key,
    before: Seq<u8>,
    data: Seq<u8>,
    stored: Seq<u8>,
    hash: Seq<u8>,
    after: Seq<u8>,
)
    requires
        reads_back(version, slots, method, data),
        stored_as(method, data, stored),
        before.len() <= u64::MAX,
        method is Some ==> before.len() + HEADER_ROOM + stored.len() <= u64::MAX,
        stored.len() <= usize::MAX,
        data.len() <= u64::MAX,
        hash.len() == 20,
        slot_storable(method_slot(method, slots), version),
    ensures
        ({
            let e = written_entry(
                version,
                method_slot(method, slots),
                before.len() as u64,
                data,
                stored,
                hash,
            );
            let file = before + entry_bytes(e, version, EntryLocation::Data) + stored + after;
            e.reads_as(file, version, method_slots(method, slots), key, data)
        }),
{
    let slot = method_slot(method, slots);
    let all = method_slots(method, slots);
    let e = written_entry(version, slot, before.len() as u64, data, stored, hash);
    let header = entry_bytes(e, version, EntryLocation::Data);
    let file = before + header + stored + after;
    lemma_not_encrypted(e);
    lemma_placed(e, version, key, before, stored, after);
    let base = e.blocks_base(file, version);
    let spans = e.spans(base, stored.len());
    match method {
        None => {},
        Some(m) => {
            law_slot_holds_method(slots, m);
            law_serialized_size(e, version, EntryLocation::Data);
            assert(header.len() == Entry::serialized_size(version, slot, 1));
            assert(spans =~= seq![Span { start: 0, end: stored.len() as usize }]);
            assert(spans[0].of(stored) =~= stored);
            let pieces = seq![data];
            lemma_joined_push(Seq::empty(), data);
            assert(Seq::<Seq<u8>>::empty().push(data) =~= pieces);
            assert(joined(Seq::<Seq<u8>>::empty()) + data =~= data);
            let total = data.len() as int;
            if m == Compression::Zstd {
                assert((total + total - 1) / total >= 1) by (nonlinear_arith)
                    requires
                        total > 0,
                ;
                assert(0 * total == 0);
                assert(chunk_len(total, total, 0) == total);
            }
            lemma_restored(
                m,
                stored,
                spans,
                data.len() as u64,
                e.compression_block_size,
                pieces,
                data,
            );
        },
    }
}

/// A file was written at the end of an archive, with this entry, and `stored` behind its header.
pub open spec fn file_written(
    version: Version,
    slots: Seq<Option<Compression>>,
    method: Option<Compression>,
    before: Seq<u8>,
    data: Seq<u8>,
    stored: Seq<u8>,
    entry: EntryView,
    after: Seq<u8>,
) -> bool {
    &&& stored_as(method, data, stored)
    &&& method matches Some(m) ==> slot_allowed(version, slots, m)
    &&& entry == written_entry(
        version,
        method_slot(method, slots),
        before.len() as u64,
        data,
        stored,
        sha1_digest(data),
    )
    &&& after == before + entry_bytes(entry, version, EntryLocation::Data) + stored
}

/// A file that was written is read back by every key, whatever is written behind it.
proof fn lemma_written_reads_back(
    version: Version,
    slots: Seq<Option<Compression>>,
    method: Option<Compression>,
    before: Seq<u8>,
    data: Seq<u8>,
    stored: Seq<u8>,
    entry: EntryView,
    archive: Seq<u8>,
)
    requires
        file_written(version, slots, method, before, data, stored, entry, archive),
        reads_back(version, slots, method, data),
        before.len() <= u64::MAX,
        method is Some ==> before.len() + HEADER_ROOM + stored.len() <= u64::MAX,
        stored.len() <= usize::MAX,
        data.len() <= u64::MAX,
        sha1_digest(data).len() == 20,
        slot_storable(method_slot(method, slots), version),
    ensures
        forall|key: Key, after: Seq<u8>| #[trigger]
            entry.reads_as(archive + after, version, method_slots(method, slots), key, data),
{
    assert forall|key: Key, after: Seq<u8>| #[trigger]
        entry.reads_as(archive + after, version, method_slots(method, slots), key, data) by {
        law_written_file_reads_back(
            version,
            slots,
            method,
            key,
            before,
            data,
            stored,
            sha1_digest(data),
            after,
        );
    }
}

/// A vector holds at most `isize::MAX` bytes; one that is this much shorter has room for a header.
pub const HEADER_ROOM: usize = 256;

impl Entry {
    /// Appends a file, header and data, of which `stored` is what the archive holds: a single
    /// block if there is a slot.
    pub fn place_file(
        writer: &mut Vec<u8>,
        version: Version,
        slot: Option<u32>,
        data: &[u8],
        stored: &[u8],
        hash: [u8; 20],
    ) -> (entry: Entry)
        requires
            old(writer)@.len() + HEADER_ROOM <= isize::MAX,
            slot is Some ==> stored@.len() <= isize::MAX,
            slot_storable(slot, version),
        ensures
            entry@ == written_entry(
                version,
                slot,
                old(writer)@.len() as u64,
                data@,
                stored@,
                hash@,
            ),
            entry.compressed == stored@.len() <= usize::MAX,
            entry.uncompressed == data@.len(),
            final(writer)@ == old(writer)@ + entry_bytes(entry@, version, EntryLocation::Data)
                + stored@,
    {
        let offset: u64 = writer.len() as u64;
        let blocks = match slot {
            Some(_) => {
                let header: u64 = Entry::get_serialized_size(version, slot, 1);
                let base: u64 = if version.version_major().at_least(
                    VersionMajor::RelativeChunkOffsets,
                ) {
                    header
                } else {
                    offset + header
                };
                let mut blocks: Vec<Block> = Vec::new();
                blocks.push(Block { start: base, end: base + stored.len() as u64 });
                Some(blocks)
            },
            None => None,
        };
        let entry = Entry {
            offset,
            compressed: stored.len() as u64,
            uncompressed: data.len() as u64,
            compression_slot: slot,
            timestamp: None,
            hash: Some(hash),
            blocks,
            flags: 0,
            compression_block_size: if slot.is_some() {
                #[verifier::truncate]
                (data.len() as u32)
            } else {
                0
            },
        };
        assert(entry@ =~= written_entry(version, slot, offset, data@, stored@, hash@));
        let _ = entry.write(writer, version, EntryLocation::Data);
        put_slice(writer, stored);
        entry
    }

    /// Appends a file, header and data, as a single block if it is compressed.
    #[verifier::rlimit(60)]
    pub fn write_file(
        writer: &mut Vec<u8>,
        version: Version,
        compression_slots: &mut Vec<Option<Compression>>,
        allowed_compression: &[Compression],
        data: &[u8],
    ) -> (r: Result<Entry, Error>)
        requires
            old(writer)@.len() + HEADER_ROOM <= isize::MAX,
            first_method(allowed_compression@) matches Some(m) && m != Compression::Oodle && m
                != Compression::LZ4 && slot_allowed(version, old(compression_slots)@, m)
                ==> slot_storable(
                method_slot(first_method(allowed_compression@), old(compression_slots)@),
                version,
            ),
        ensures
            ({
                let method = first_method(allowed_compression@);
                let slots = old(compression_slots)@;
                match r {
                    Ok(entry) => exists|stored: Seq<u8>| #[trigger]
                        file_written(
                            version,
                            slots,
                            method,
                            old(writer)@,
                            data@,
                            stored,
                            entry@,
                            final(writer)@,
                        ) && final(compression_slots)@ == method_slots(method, slots),
                    Err(e) => {
                        &&& write_error(version, slots, method, e)
                        &&& final(writer)@ == old(writer)@
                        &&& final(compression_slots)@ == (if (method matches Some(m)
                            && slot_allowed(version, slots, m)) {
                            method_slots(method, slots)
                        } else {
                            slots
                        })
                    },
                }
            }),
            r matches Ok(entry) ==> reads_back(
                version,
                old(compression_slots)@,
                first_method(allowed_compression@),
                data@,
            ) ==> forall|key: Key, after: Seq<u8>|
                #[trigger] entry@.reads_as(
                    final(writer)@ + after,
                    version,
                    final(compression_slots)@,
                    key,
                    data@,
                ),
    {
        broadcast use lemma_append_both;

        let ghost before = writer@;
        let ghost slots = compression_slots@;
        let ghost method = first_method(allowed_compression@);
        let hash = sha1_hash(data);
        let compression: Option<Compression> = if allowed_compression.len() == 0 {
            None
        } else {
            Some(allowed_compression[0])
        };
        let mut compression_slot: Option<u32> = None;
        let mut compressed: Option<Vec<u8>> = None;
        if let Some(compression) = compression {
            let slot: u32 = get_compression_slot(version, compression_slots, compression)?;
            compression_slot = Some(slot);
            let packed = match compression {
                Compression::Oodle => {
                    return Err(
                        Error::Other(String::from_str("writing Oodle compression unsupported")),
                    );
                },
                Compression::LZ4 => {
                    return Err(
                        Error::Other(String::from_str("writing LZ4 compression unsupported")),
                    );
                },
                _ => encode(compression, data)?,
            };
            compressed = Some(packed);
        }
        let stored: &[u8] = match &compressed {
            Some(packed) => packed.as_slice(),
            None => data,
        };
        let entry = Entry::place_file(writer, version, compression_slot, data, stored, hash);
        assert(file_written(version, slots, method, before, data@, stored@, entry@, writer@));
        proof {
            let all = compression_slots@;
            assert(all == method_slots(method, slots));
            if reads_back(version, slots, method, data@) {
                lemma_written_reads_back(
                    version,
                    slots,
                    method,
                    before,
                    data@,
                    stored@,
                    entry@,
                    writer@,
                );
                assert(forall|key: Key, after: Seq<u8>| #[trigger]
                    entry@.reads_as(writer@ + after, version, all, key, data@));
            }
        }
        Ok(entry)
    }
}

/// How much an entry takes in the archive: its compressed size or, if it is encrypted, the next
/// multiple of sixteen.
pub proof fn law_stored_len(e: EntryView)
    ensures
        e.flags % 2 == 0 ==> e.stored_len() == e.compressed,
        e.flags % 2 == 1 ==> e.stored_len() % 16 == 0 && e.compressed <= e.stored_len()
            < e.compressed + 16,
{
    law_flags(e);
}

/// Why the data of an entry cannot be got. First the header and the data behind it have to be
/// there, and then the key, if the data is encrypted.
pub proof fn law_data_error(e: EntryView, file: Seq<u8>, version: Version, key: Key)
    ensures
        ({
            let s = if e.offset <= file.len() {
                file.skip(e.offset as int)
            } else {
                Seq::empty()
            };
            let there = header_fits(s, version) && header_len(s, version) + e.stored_len()
                <= s.len();
            e.data_error(file, version, key) == (if !there {
                Some(Error::Io(IoError::UnexpectedEof))
            } else if e.flags % 2 == 1 && key is None {
                Some(Error::Encrypted)
            } else {
                None
            })
        }),
{
    law_flags(e);
}

/// Where the data of an entry is: right behind the header at its offset. If it is encrypted, whole
/// cipher blocks are decrypted, and what is beyond the compressed size is dropped.
pub proof fn law_data_found(e: EntryView, file: Seq<u8>, version: Version, key: Key)
    requires
        e.data_error(file, version, key) is None,
    ensures
        ({
            let at = e.offset + header_len(file.skip(e.offset as int), version);
            &&& e.data_in(file, version, key) == if e.flags % 2 == 1 {
                decrypted(
                    PakVariant::Standard,
                    key->0@,
                    file.subrange(at, at + e.stored_len()),
                ).take(e.compressed as int)
            } else {
                file.subrange(at, at + e.compressed)
            }
            &&& e.data_in(file, version, key).len() == e.compressed
        }),
{
    law_flags(e);
    law_stored_len(e);
    law_data_error(e, file, version, key);
    let s = file.skip(e.offset as int);
    let h = header_len(s, version);
    lemma_header_len(s, version);
    assert(s.subrange(h, h + e.stored_len()) =~= file.subrange(
        e.offset + h,
        e.offset + h + e.stored_len(),
    ));
}

proof fn lemma_header_len(s: Seq<u8>, version: Version)
    requires
        header_fits(s, version),
    ensures
        0 <= header_len(s, version) <= s.len(),
{
}

/// The same in a context: as many bytes are decrypted, in its word order, as the variant says of
/// data of this length that may have grown if it is compressed or of a version below 10.
#[verifier::rlimit(60)]
pub proof fn law_data_found_in_context(
    e: EntryView,
    file: Seq<u8>,
    version: Version,
    ctx: EncryptionContext<'_>,
)
    requires
        e.data_error(file, version, *ctx.key) is None,
        e.stored_len_fits(),
    ensures
        ({
            let at = e.offset + header_len(file.skip(e.offset as int), version);
            let stored = file.subrange(at, at + e.stored_len());
            let old = version != Version::V10 && version != Version::V11;
            let n = ctx.variant.encrypted_len_read(
                ctx.mount_point@,
                ctx.path@,
                e.compressed as usize,
                e.compression_slot is Some || old,
                e.stored_len() as usize,
            );
            e.data_in_context(file, version, ctx) == if e.flags % 2 == 1 {
                (decrypted(ctx.variant, (*ctx.key)->0@, stored.take(n as int)) + stored.skip(
                    n as int,
                )).take(e.compressed as int)
            } else {
                stored
            }
        }),
{
    law_flags(e);
    law_data_error(e, file, version, *ctx.key);
    let s = file.skip(e.offset as int);
    let h = header_len(s, version);
    lemma_header_len(s, version);
    assert(s.subrange(h, h + e.stored_len()) =~= file.subrange(
        e.offset + h,
        e.offset + h + e.stored_len(),
    ));
}

/// Which method an entry is read with: that in its slot. A slot beyond the list is an error that
/// names the slot and the length of the list; an empty one, or none, says that the file is stored
/// as it is.
pub proof fn law_slot_resolved(e: EntryView, slots: Seq<Option<Compression>>)
    requires
        slots.len() <= usize::MAX,
    ensures
        match e.compression_slot {
            None => e.slot_error(slots) is None && resolved(e.compression_slot, slots) is None,
            Some(n) => if n < slots.len() {
                e.slot_error(slots) is None && resolved(e.compression_slot, slots)
                    == slots[n as int]
            } else {
                e.slot_error(slots) matches Some(Error::UnknownCompressionSlot(slot, len)) && slot
                    == n && len == slots.len()
            },
        },
        forall|file: Seq<u8>, version: Version, key: Key| #[trigger]
            e.fetch_error(file, version, slots, key) == (match e.data_error(file, version, key) {
                Some(error) => Some(error),
                None => e.slot_error(slots),
            }),
{
}

/// Where the blocks of an entry lie in its data: their starts and ends are counted from the start
/// of the header since version 5, and from the start of the archive before. Without a list of
/// blocks all of the data is one.
#[verifier::rlimit(60)]
pub proof fn law_spans(e: EntryView, file: Seq<u8>, version: Version, len: usize)
    requires
        e.data_header_len(file, version) >= 0,
        e.blocks_behind(e.blocks_base(file, version)),
    ensures
        ({
            let s = if e.offset <= file.len() {
                file.skip(e.offset as int)
            } else {
                Seq::empty()
            };
            let base = header_len(s, version) + match version {
                Version::V0
                | Version::V1
                | Version::V2
                | Version::V3
                | Version::V4 => e.offset as int,
                _ => 0,
            };
            let spans = e.spans(e.blocks_base(file, version), len as nat);
            match e.blocks {
                None => spans.len() == 1 && spans[0].start == 0 && spans[0].end == len,
                Some(blocks) => {
                    &&& spans.len() == blocks.len()
                    &&& forall|i: int|
                        0 <= i < blocks.len() && blocks[i].start - base <= usize::MAX
                            && blocks[i].end - base <= usize::MAX ==> (#[trigger] spans[i]).start
                            == blocks[i].start - base && spans[i].end == blocks[i].end - base
                },
            }
        }),
{
    if let Some(blocks) = e.blocks {
        let base = e.blocks_base(file, version);
        assert forall|i: int| 0 <= i < blocks.len() implies base <= (#[trigger] blocks[i]).start
            && base <= blocks[i].end by {}
        let spans = e.spans(base, len as nat);
        assert forall|i: int|
            0 <= i < blocks.len() && blocks[i].start - base <= usize::MAX && blocks[i].end - base
                <= usize::MAX implies (#[trigger] spans[i]).start == blocks[i].start - base
            && spans[i].end == blocks[i].end - base by {
            assert(base <= blocks[i].start);
        }
    }
}

/// The header of a file that is written in one go, in plain terms.
pub proof fn law_written_entry(
    version: Version,
    slot: Option<u32>,
    offset: u64,
    data: Seq<u8>,
    stored: Seq<u8>,
    hash: Seq<u8>,
)
    requires
        offset + 256 + stored.len() <= u64::MAX,
        data.len() <= u64::MAX,
    ensures
        ({
            let e = written_entry(version, slot, offset, data, stored, hash);
            &&& e.offset == offset
            &&& e.compressed == stored.len()
            &&& e.uncompressed == data.len()
            &&& e.compression_slot == slot
            &&& e.timestamp is None
            &&& e.hash == Some(hash)
            &&& e.flags == 0
            &&& slot is None ==> e.blocks is None && e.compression_block_size == 0
            &&& slot is Some ==> {
                &&& data.len() <= u32::MAX ==> e.compression_block_size == data.len()
                &&& e.blocks is Some
                &&& e.blocks->0.len() == 1
                &&& e.blocks->0[0].end - e.blocks->0[0].start == stored.len()
                &&& e.blocks->0[0].start == (if version == Version::V1 {
                    77int
                } else if version == Version::V0 || version == Version::V2 {
                    69
                } else if version == Version::V8A {
                    70
                } else {
                    73
                }) + match version {
                    Version::V0
                    | Version::V1
                    | Version::V2
                    | Version::V3
                    | Version::V4 => offset as int,
                    _ => 0,
                }
            }
        }),
{
}

/// How a file is written in one go: by the first method allowed, in the slot that the method gets,
/// and as it is if none is allowed.
pub proof fn law_written_by_first_method(
    allowed: Seq<Compression>,
    slots: Seq<Option<Compression>>,
    data: Seq<u8>,
    stored: Seq<u8>,
)
    requires
        stored_as(first_method(allowed), data, stored),
    ensures
        allowed.len() == 0 ==> {
            &&& stored == data
            &&& method_slot(first_method(allowed), slots) is None
            &&& method_slots(first_method(allowed), slots) == slots
        },
        allowed.len() > 0 ==> {
            let m = allowed[0];
            &&& m == Compression::Zlib || m == Compression::Gzip || m == Compression::Zstd
            &&& m == Compression::Zlib ==> zlib_inflated(stored) == Some(data)
            &&& m == Compression::Gzip ==> gzip_inflated(stored) == Some(data)
            &&& m == Compression::Zstd ==> zstd_frames(stored) == Some(data)
            &&& method_slot(first_method(allowed), slots) == Some(slot_for(slots, m) as u32)
            &&& method_slots(first_method(allowed), slots) == slots_with(slots, m)
        },
{
}

/// Why a file cannot be written in one go. Without a method it always can.
pub proof fn law_write_error(
    version: Version,
    slots: Seq<Option<Compression>>,
    allowed: Seq<Compression>,
    e: Error,
)
    requires
        write_error(version, slots, first_method(allowed), e),
    ensures
        allowed.len() > 0,
        if !slot_allowed(version, slots, allowed[0]) {
            e matches Error::Other(text) && text@ == no_slot_message(allowed[0])
        } else {
            &&& allowed[0] == Compression::Oodle || allowed[0] == Compression::LZ4
            &&& allowed[0] == Compression::Oodle ==> (e matches Error::Other(text) && text@
                == "writing Oodle compression unsupported"@)
            &&& allowed[0] == Compression::LZ4 ==> (e matches Error::Other(text) && text@
                == "writing LZ4 compression unsupported"@)
        },
{
}

/// When the stored data fits into memory, and when no block starts or ends in front of it.
pub proof fn law_fits_and_behind(e: EntryView, base: int)
    ensures
        e.flags % 2 == 0 ==> (e.stored_len_fits() <==> e.compressed <= usize::MAX),
        e.flags % 2 == 1 ==> (e.stored_len_fits() <==> e.compressed + 15 <= u64::MAX
            && e.stored_len() <= usize::MAX),
        e.blocks is None ==> e.blocks_behind(base),
        e.blocks matches Some(blocks) ==> (e.blocks_behind(base) <==> forall|i: int|
            0 <= i < blocks.len() ==> base <= (#[trigger] blocks[i]).start && base
                <= blocks[i].end),
{
    law_flags(e);
}

/// On which files that were written in one go the law of reading back speaks: on all that are not
/// compressed and, from version 3 on, on all that are, but for an empty one by Zstandard, as far
/// as lengths and slots fit their types.
pub proof fn law_reads_back_speaks_of(
    version: Version,
    slots: Seq<Option<Compression>>,
    method: Option<Compression>,
    data: Seq<u8>,
)
    ensures
        reads_back(version, slots, method, data) <==> match method {
            None => true,
            Some(m) => {
                &&& version != Version::V0 && version != Version::V1 && version != Version::V2
                &&& slot_for(slots, m) <= u32::MAX
                &&& m == Compression::Zstd ==> 0 < data.len() <= isize::MAX
            },
        },
{
}

/// When the slot of an entry has room in its field: a byte in `V8A`, and four in every other
/// version.
pub proof fn law_slot_storable(slot: Option<u32>, version: Version)
    ensures
        slot_storable(slot, version) <==> match slot {
            None => true,
            Some(n) => n + 1 <= if version == Version::V8A {
                0xffint
            } else {
                0xffff_ffff
            },
        },
{
}

/// What writing a file does to the archive: what was there stays, the entry starts behind it and
/// carries the hash of the file itself, and the archive ends in what is stored of the file.
pub proof fn law_file_written(
    version: Version,
    slots: Seq<Option<Compression>>,
    allowed: Seq<Compression>,
    before: Seq<u8>,
    data: Seq<u8>,
    stored: Seq<u8>,
    entry: EntryView,
    after: Seq<u8>,
)
    requires
        file_written(
            version,
            slots,
            first_method(allowed),
            before,
            data,
            stored,
            entry,
            after,
        ),
        before.len() + 256 + stored.len() <= u64::MAX,
        data.len() <= u64::MAX,
    ensures
        entry.hash == Some(sha1_digest(data)),
        entry.offset == before.len(),
        entry.uncompressed == data.len(),
        entry.compressed == stored.len(),
        entry.compression_slot is Some <==> allowed.len() > 0,
        allowed.len() > 0 ==> slot_allowed(version, slots, allowed[0]),
        after.len() >= before.len() + stored.len(),
        after.take(before.len() as int) == before,
        after.skip(after.len() - stored.len()) == stored,
{
    assert(after.take(before.len() as int) =~= before);
    assert(after.skip(after.len() - stored.len()) =~= stored);
}

/// Reading an entry, from its data on: an unknown slot is an error and nothing is appended; and
/// otherwise the data is decompressed by the method in the slot, with the sizes of the entry.
pub proof fn law_decoded_from<
    R: Fn(&[u8], Vec<u8>) -> Option<Vec<u8>>,
    F: Fn(&[u8], Vec<u8>) -> (usize, Vec<u8>),
>(
    e: EntryView,
    base: int,
    slots: Seq<Option<Compression>>,
    data: Seq<u8>,
    oodle: Option<&F>,
    raw_zstd: R,
    r: Result<(), Error>,
    before: Seq<u8>,
    after: Seq<u8>,
)
    requires
        e.decoded_from(base, slots, data, oodle, raw_zstd, r, before, after),
    ensures
        match e.compression_slot {
            None => r is Ok && after == before + data,
            Some(n) => if n < slots.len() {
                decode_result(
                    slots[n as int],
                    data,
                    e.spans(base, data.len()),
                    e.uncompressed,
                    e.compression_block_size,
                    oodle,
                    raw_zstd,
                    r,
                    before,
                    after,
                )
            } else {
                &&& r matches Err(Error::UnknownCompressionSlot(slot, _)) && slot == n
                &&& after == before
            },
        },
{
}

/// A file that reads as something is there, in place, and of a slot that is known; and one whose
/// data cannot be got, but would fit into memory, can be tried, and fails.
pub proof fn law_readable<
    R: Fn(&[u8], Vec<u8>) -> Option<Vec<u8>>,
    F: Fn(&[u8], Vec<u8>) -> (usize, Vec<u8>),
>(
    e: EntryView,
    file: Seq<u8>,
    version: Version,
    slots: Seq<Option<Compression>>,
    key: Key,
    oodle: Option<&F>,
    raw_zstd: R,
    d: Seq<u8>,
)
    ensures
        e.reads_as(file, version, slots, key, d) ==> {
            &&& e.readable(file, version, slots, key, oodle, raw_zstd)
            &&& e.data_error(file, version, key) is None
            &&& e.slot_error(slots) is None
        },
        e.stored_len_fits() && e.data_error(file, version, key) is Some ==> e.readable(
            file,
            version,
            slots,
            key,
            oodle,
            raw_zstd,
        ),
{
    if e.reads_as(file, version, slots, key, d) {
        lemma_laid_out_well(e, file, version, slots, key, oodle, raw_zstd);
    }
}

} // verus!
