//! How the compressed blocks of a file make up its data.

use crate::bytes::put_slice;
use crate::codec::{
    countable, gzip_decode, gzip_inflated, is_countable, lemma_countable, lz4_decode, lz4_decoded,
    restores, zlib_decode, zlib_inflated, zstd_decode, zstd_frames,
};
use crate::error::{Error, IoError};
use crate::version::Compression;
use vstd::prelude::*;

verus! {

/// A part of a file's stored data.
#[derive(Debug, Clone, Copy, PartialEq, Eq, Structural)]
pub struct Span {
    pub start: usize,
    pub end: usize,
}

impl Span {
    /// Whether the part lies within so many bytes.
    pub open spec fn within(self, len: nat) -> bool {
        self.start <= self.end <= len
    }

    pub fn is_within(self, data: &[u8]) -> (r: bool)
        ensures
            r == self.within(data@.len()),
    {
        self.start <= self.end && self.end <= data.len()
    }

    pub open spec fn of(self, data: Seq<u8>) -> Seq<u8> {
        data.subrange(self.start as int, self.end as int)
    }
}

/// All parts, one after the other.
pub open spec fn joined(parts: Seq<Seq<u8>>) -> Seq<u8>
    decreases parts.len(),
{
    if parts.len() == 0 {
        Seq::empty()
    } else {
        joined(parts.drop_last()) + parts.last()
    }
}

pub open spec fn zeros(n: int) -> Seq<u8> {
    Seq::new(n as nat, |i: int| 0u8)
}

/// How many bytes each block but the last decompresses to. The only block of a file makes up all
/// of it.
pub open spec fn chunk_size(blocks: nat, uncompressed: u64, block_size: u32) -> int {
    if blocks == 1 {
        uncompressed as int
    } else {
        block_size as int
    }
}

/// How many bytes the block at `i` decompresses to.
pub open spec fn chunk_len(total: int, size: int, i: int) -> int {
    if size <= total - i * size {
        size
    } else {
        total - i * size
    }
}

/// How many of so many blocks are needed.
pub open spec fn blocks_used(blocks: nat, total: int, size: int) -> nat {
    let needed = (total + size - 1) / size;
    if needed < blocks {
        needed as nat
    } else {
        blocks
    }
}

/// The chunks one after the other, filled up with zeros.
pub open spec fn filled(chunks: Seq<Seq<u8>>, total: int) -> Seq<u8> {
    joined(chunks) + zeros(total - joined(chunks).len())
}

/// What a zlib stream or a gzip member holds.
pub open spec fn inflated(gzip: bool, src: Seq<u8>) -> Option<Seq<u8>> {
    if gzip {
        gzip_inflated(src)
    } else {
        zlib_inflated(src)
    }
}

/// What the first `n` blocks hold.
pub open spec fn inflated_parts(
    gzip: bool,
    data: Seq<u8>,
    spans: Seq<Span>,
    n: int,
) -> Seq<Seq<u8>> {
    Seq::new(n as nat, |i: int| inflated(gzip, spans[i].of(data))->0)
}

pub proof fn lemma_joined_push(parts: Seq<Seq<u8>>, part: Seq<u8>)
    ensures
        joined(parts.push(part)) == joined(parts) + part,
{
    assert(parts.push(part).drop_last() =~= parts);
}

/// Whether the blocks before `i` are sound, so that the one at `i` is looked at.
pub open spec fn inflate_reaches(gzip: bool, data: Seq<u8>, spans: Seq<Span>, i: int) -> bool {
    forall|k: int| 0 <= k < i ==> inflated(gzip, (#[trigger] spans[k]).of(data)) is Some
}

/// Whether each block that is looked at lies within `data`.
pub open spec fn inflate_safe(gzip: bool, data: Seq<u8>, spans: Seq<Span>) -> bool {
    forall|i: int|
        0 <= i < spans.len() && #[trigger] inflate_reaches(gzip, data, spans, i)
            ==> spans[i].within(data.len())
}

/// What is appended, or why it fails. When it fails, all that the blocks before the first unsound
/// one hold has been appended, and maybe some of what that one seemed to hold.
pub open spec fn inflate_result(
    gzip: bool,
    data: Seq<u8>,
    spans: Seq<Span>,
    r: Result<(), Error>,
    before: Seq<u8>,
    after: Seq<u8>,
) -> bool {
    match r {
        Ok(_) => {
            &&& forall|i: int|
                0 <= i < spans.len() ==> inflated(gzip, (#[trigger] spans[i]).of(data)) is Some
            &&& after == before + joined(inflated_parts(gzip, data, spans, spans.len() as int))
        },
        Err(e) => {
            &&& e matches Error::Io(IoError::Codec(_))
            &&& exists|i: int|
                {
                    &&& 0 <= i < spans.len()
                    &&& #[trigger] inflate_reaches(gzip, data, spans, i)
                    &&& inflated(gzip, spans[i].of(data)) is None
                    &&& (before + joined(inflated_parts(gzip, data, spans, i))).is_prefix_of(after)
                }
        },
    }
}

/// Appends what the blocks hold, one after the other. `None` says that a block that had to be
/// looked at does not lie within `data`: nothing was appended.
pub fn inflate_blocks(
    gzip: bool,
    data: &[u8],
    spans: &Vec<Span>,
    buf: &mut Vec<u8>,
) -> (r: Option<Result<(), Error>>)
    ensures
        r is Some <==> inflate_safe(gzip, data@, spans@),
        match r {
            Some(done) => inflate_result(gzip, data@, spans@, done, old(buf)@, final(buf)@),
            None => final(buf)@ == old(buf)@,
        },
{
    let ghost before = buf@;
    let n: usize = buf.len();
    let mut i: usize = 0;
    assert(before + joined(inflated_parts(gzip, data@, spans@, 0)) =~= before);
    while i < spans.len()
        invariant
            i <= spans@.len(),
            before == old(buf)@,
            n == before.len(),
            forall|k: int| 0 <= k < i ==> (#[trigger] spans@[k]).within(data@.len()),
            inflate_reaches(gzip, data@, spans@, i as int),
            buf@ == before + joined(inflated_parts(gzip, data@, spans@, i as int)),
        decreases spans@.len() - i,
    {
        let ghost sofar = buf@;
        let span = spans[i];
        if !span.is_within(data) {
            assert(!inflate_safe(gzip, data@, spans@));
            buf.truncate(n);
            assert(buf@ =~= before);
            return None;
        }
        let src = vstd::slice::slice_subrange(data, span.start, span.end);
        assert(src@ == spans@[i as int].of(data@));
        let copied = if gzip {
            gzip_decode(src, buf)
        } else {
            zlib_decode(src, buf)
        };
        match copied {
            Ok(_) => {},
            Err(e) => {
                assert(inflate_safe(gzip, data@, spans@)) by {
                    assert forall|k: int|
                        0 <= k < spans@.len() && #[trigger] inflate_reaches(
                            gzip,
                            data@,
                            spans@,
                            k,
                        ) implies spans@[k].within(data@.len()) by {
                        if k > i {
                            assert(inflated(gzip, spans@[i as int].of(data@)) is Some);
                        }
                    }
                }
                return Some(Err(Error::Io(IoError::Codec(e))));
            },
        }
        proof {
            let parts = inflated_parts(gzip, data@, spans@, i as int);
            let part = inflated(gzip, src@)->0;
            lemma_joined_push(parts, part);
            assert(parts.push(part) =~= inflated_parts(gzip, data@, spans@, i + 1));
            assert(buf@ =~= before + (joined(parts) + part));
        }
        i += 1;
    }
    Some(Ok(()))
}

/// A decompressor of Zstandard blocks without a frame takes a block and a buffer, and gives back
/// the buffer filled, or nothing if it fails.
pub open spec fn raw_sound<R: Fn(&[u8], Vec<u8>) -> Option<Vec<u8>>>(raw: R) -> bool {
    &&& forall|src: &[u8], b: Vec<u8>| #[trigger] call_requires(raw, (src, b))
    &&& forall|src: &[u8], b: Vec<u8>, made: Vec<u8>| #[trigger]
        call_ensures(raw, (src, b), Some(made)) ==> made@.len() == b@.len()
}

/// What a chunk of `len` bytes becomes by the frames in `src`, if they are sound and fit.
pub open spec fn framed(src: Seq<u8>, len: int) -> Option<Seq<u8>> {
    match zstd_frames(src) {
        Some(out) => if out.len() <= len {
            Some(out + zeros(len - out.len()))
        } else {
            None
        },
        None => None,
    }
}

/// `src` decompresses to this chunk: by its frames or, where that fails, as a raw block. What the
/// buffer held that the raw block went into is left open.
pub open spec fn zstd_chunk<R: Fn(&[u8], Vec<u8>) -> Option<Vec<u8>>>(
    raw: R,
    src: Seq<u8>,
    len: int,
    chunk: Seq<u8>,
) -> bool {
    match framed(src, len) {
        Some(c) => chunk == c,
        None => exists|s: &[u8], b: Vec<u8>, made: Vec<u8>|
            {
                &&& s@ == src
                &&& b@.len() == len
                &&& #[trigger] call_ensures(raw, (s, b), Some(made))
                &&& chunk == made@
            },
    }
}

/// `src` holds neither sound frames that fit nor a sound raw block.
pub open spec fn zstd_failed<R: Fn(&[u8], Vec<u8>) -> Option<Vec<u8>>>(
    raw: R,
    src: Seq<u8>,
    len: int,
) -> bool {
    &&& framed(src, len) is None
    &&& exists|s: &[u8], b: Vec<u8>|
        s@ == src && b@.len() == len && #[trigger] call_ensures(raw, (s, b), None)
}

fn zstd_block<R: Fn(&[u8], Vec<u8>) -> Option<Vec<u8>>>(raw: &R, src: &[u8], len: usize) -> (r:
    Option<Vec<u8>>)
    requires
        raw_sound(*raw),
    ensures
        match r {
            Some(chunk) => zstd_chunk(*raw, src@, len as int, chunk@) && chunk@.len() == len,
            None => zstd_failed(*raw, src@, len as int),
        },
{
    let mut chunk: Vec<u8> = vec![0; len];
    let ghost before = chunk@;
    assert(before =~= zeros(len as int));
    match zstd_decode(src, chunk.as_mut_slice()) {
        Ok(n) => {
            assert(before.skip(n as int) =~= zeros(len - n));
            Some(chunk)
        },
        Err(_) => raw(src, chunk),
    }
}

/// The block at `i` is needed as long as the blocks before it leave something to fill.
pub proof fn lemma_used(blocks: nat, total: int, size: int, i: int)
    requires
        0 <= total,
        0 < size,
        0 <= i,
    ensures
        i < blocks_used(blocks, total, size) <==> i < blocks && i * size < total,
{
    let needed = (total + size - 1) / size;
    assert(i < needed <==> i * size < total) by (nonlinear_arith)
        requires
            needed == (total + size - 1) / size,
            0 < size,
            0 <= total,
            0 <= i,
    ;
}

/// Where the block at `i` starts in the decompressed data.
spec fn chunk_start(total: int, size: int, i: int) -> int {
    if i * size <= total {
        i * size
    } else {
        total
    }
}

proof fn lemma_next_chunk(total: int, size: int, i: int)
    requires
        0 <= i,
        0 < size,
        i * size < total,
    ensures
        chunk_start(total, size, i) == i * size,
        chunk_start(total, size, i + 1) == i * size + chunk_len(total, size, i),
        0 < chunk_len(total, size, i) <= size,
{
    assert((i + 1) * size == i * size + size) by (nonlinear_arith);
}

/// What these chunks hold.
pub open spec fn chunk_views(chunks: Seq<Vec<u8>>) -> Seq<Seq<u8>> {
    Seq::new(chunks.len(), |i: int| chunks[i]@)
}

proof fn lemma_chunk_pushed(chunks: Seq<Vec<u8>>, chunk: Vec<u8>)
    ensures
        chunk_views(chunks.push(chunk)) == chunk_views(chunks).push(chunk@),
        joined(chunk_views(chunks.push(chunk))) == joined(chunk_views(chunks)) + chunk@,
{
    lemma_joined_push(chunk_views(chunks), chunk@);
    assert(chunk_views(chunks.push(chunk)) =~= chunk_views(chunks).push(chunk@));
}

/// The chunks one after the other, filled up with zeros.
pub fn assemble(chunks: &Vec<Vec<u8>>, total: usize) -> (r: Vec<u8>)
    requires
        joined(chunk_views(chunks@)).len() <= total,
    ensures
        r@ == filled(chunk_views(chunks@), total as int),
{
    let ghost views = chunk_views(chunks@);
    let mut r: Vec<u8> = Vec::new();
    let mut i: usize = 0;
    assert(joined(views.take(0)) =~= r@);
    while i < chunks.len()
        invariant
            i <= chunks@.len(),
            views == chunk_views(chunks@),
            r@ == joined(views.take(i as int)),
        decreases chunks@.len() - i,
    {
        put_slice(&mut r, chunks[i].as_slice());
        proof {
            lemma_joined_push(views.take(i as int), views[i as int]);
            assert(views.take(i + 1) =~= views.take(i as int).push(views[i as int]));
        }
        i += 1;
    }
    assert(views.take(i as int) =~= views);
    r.resize(total, 0);
    assert(r@ =~= filled(views, total as int));
    r
}

/// `src` decompresses to some chunk.
pub open spec fn zstd_possible<R: Fn(&[u8], Vec<u8>) -> Option<Vec<u8>>>(
    raw: R,
    src: Seq<u8>,
    len: int,
) -> bool {
    exists|chunk: Seq<u8>| zstd_chunk(raw, src, len, chunk)
}

/// Whether the blocks before `i` may be sound, so that the one at `i` is looked at.
pub open spec fn zstd_reaches<R: Fn(&[u8], Vec<u8>) -> Option<Vec<u8>>>(
    raw: R,
    data: Seq<u8>,
    spans: Seq<Span>,
    total: int,
    size: int,
    i: int,
) -> bool {
    forall|k: int|
        0 <= k < i ==> zstd_possible(
            raw,
            (#[trigger] spans[k]).of(data),
            chunk_len(total, size, k),
        )
}

/// Whether each block that is looked at lies within `data`.
pub open spec fn zstd_safe<R: Fn(&[u8], Vec<u8>) -> Option<Vec<u8>>>(
    raw: R,
    data: Seq<u8>,
    spans: Seq<Span>,
    total: int,
    size: int,
) -> bool {
    forall|i: int|
        0 <= i < blocks_used(spans.len(), total, size) && #[trigger] zstd_reaches(
            raw,
            data,
            spans,
            total,
            size,
            i,
        ) ==> spans[i].within(data.len())
}

/// What is appended, or why it fails.
pub open spec fn zstd_result<R: Fn(&[u8], Vec<u8>) -> Option<Vec<u8>>>(
    raw: R,
    data: Seq<u8>,
    spans: Seq<Span>,
    total: int,
    size: int,
    r: Result<(), Error>,
    before: Seq<u8>,
    after: Seq<u8>,
) -> bool {
    let used = blocks_used(spans.len(), total, size);
    match r {
        Ok(_) => exists|chunks: Seq<Seq<u8>>|
            {
                &&& chunks.len() == used
                &&& forall|i: int|
                    0 <= i < used ==> zstd_chunk(
                        raw,
                        spans[i].of(data),
                        chunk_len(total, size, i),
                        #[trigger] chunks[i],
                    )
                &&& after == before + #[trigger] filled(chunks, total)
            },
        Err(e) => {
            &&& e == Error::DecompressionFailed(Compression::Zstd)
            &&& exists|i: int|
                0 <= i < used && zstd_failed(
                    raw,
                    (#[trigger] spans[i]).of(data),
                    chunk_len(total, size, i),
                )
            &&& after == before
        },
    }
}

/// Appends `total` bytes of which each block makes up `size`, in order. `None` says that a block
/// that had to be looked at does not lie within `data`: nothing was appended.
pub fn zstd_blocks<R: Fn(&[u8], Vec<u8>) -> Option<Vec<u8>>>(
    data: &[u8],
    spans: &Vec<Span>,
    total: usize,
    size: usize,
    raw: &R,
    buf: &mut Vec<u8>,
) -> (r: Option<Result<(), Error>>)
    requires
        raw_sound(*raw),
        size > 0,
        total <= isize::MAX,
    ensures
        r is None ==> !zstd_safe(*raw, data@, spans@, total as int, size as int)
            && final(buf)@ == old(buf)@,
        r matches Some(done) ==> zstd_result(
            *raw,
            data@,
            spans@,
            total as int,
            size as int,
            done,
            old(buf)@,
            final(buf)@,
        ),
{
    let ghost used = blocks_used(spans@.len(), total as int, size as int);
    let mut chunks: Vec<Vec<u8>> = Vec::new();
    let mut at: usize = 0;
    let mut i: usize = 0;
    assert(joined(chunk_views(chunks@)).len() == 0);
    while i < spans.len() && at < total
        invariant
            i <= spans@.len(),
            raw_sound(*raw),
            size > 0,
            used == blocks_used(spans@.len(), total as int, size as int),
            buf@ == old(buf)@,
            i <= used,
            at == chunk_start(total as int, size as int, i as int),
            at == joined(chunk_views(chunks@)).len(),
            chunks@.len() == i,
            forall|k: int|
                0 <= k < i ==> zstd_chunk(
                    *raw,
                    spans@[k].of(data@),
                    chunk_len(total as int, size as int, k),
                    #[trigger] chunks@[k]@,
                ),
        decreases spans@.len() - i,
    {
        proof {
            lemma_used(spans@.len(), total as int, size as int, i as int);
            lemma_next_chunk(total as int, size as int, i as int);
        }
        let left: usize = total - at;
        let len: usize = if size <= left { size } else { left };
        let span = spans[i];
        assert(zstd_reaches(*raw, data@, spans@, total as int, size as int, i as int)) by {
            assert forall|k: int| 0 <= k < i implies zstd_possible(
                *raw,
                (#[trigger] spans@[k]).of(data@),
                chunk_len(total as int, size as int, k),
            ) by {
                assert(zstd_chunk(
                    *raw,
                    spans@[k].of(data@),
                    chunk_len(total as int, size as int, k),
                    chunks@[k]@,
                ));
            }
        }
        if !span.is_within(data) {
            return None;
        }
        let src = vstd::slice::slice_subrange(data, span.start, span.end);
        assert(src@ == spans@[i as int].of(data@));
        match zstd_block(raw, src, len) {
            Some(chunk) => {
                proof {
                    lemma_chunk_pushed(chunks@, chunk);
                }
                chunks.push(chunk);
            },
            None => return Some(Err(Error::DecompressionFailed(Compression::Zstd))),
        }
        at += len;
        i += 1;
    }
    proof {
        lemma_used(spans@.len(), total as int, size as int, i as int);
        let views = chunk_views(chunks@);
        assert forall|k: int| 0 <= k < used implies zstd_chunk(
            *raw,
            spans@[k].of(data@),
            chunk_len(total as int, size as int, k),
            #[trigger] views[k],
        ) by {
            assert(views[k] == chunks@[k]@);
        }
    }
    let decompressed = assemble(&chunks, total);
    put_slice(buf, decompressed.as_slice());
    Some(Ok(()))
}

/// What the block at `i` decompresses to.
pub open spec fn lz4_chunk(
    data: Seq<u8>,
    spans: Seq<Span>,
    total: int,
    size: int,
    i: int,
) -> Option<Seq<u8>> {
    lz4_decoded(spans[i].of(data), zeros(chunk_len(total, size, i)))
}

/// What the first `n` blocks decompress to.
pub open spec fn lz4_chunks(
    data: Seq<u8>,
    spans: Seq<Span>,
    total: int,
    size: int,
    n: nat,
) -> Seq<Seq<u8>> {
    Seq::new(n, |i: int| lz4_chunk(data, spans, total, size, i)->0)
}

/// Whether the blocks before `i` are sound, so that the one at `i` is looked at.
pub open spec fn lz4_reaches(
    data: Seq<u8>,
    spans: Seq<Span>,
    total: int,
    size: int,
    i: int,
) -> bool {
    forall|k: int| 0 <= k < i ==> #[trigger] lz4_chunk(data, spans, total, size, k) is Some
}

/// Whether each block that is looked at lies within `data` and has lengths that can be counted.
pub open spec fn lz4_safe(data: Seq<u8>, spans: Seq<Span>, total: int, size: int) -> bool {
    forall|i: int|
        0 <= i < blocks_used(spans.len(), total, size) && #[trigger] lz4_reaches(
            data,
            spans,
            total,
            size,
            i,
        ) ==> spans[i].within(data.len()) && countable(
            spans[i].of(data),
            chunk_len(total, size, i) as nat,
        )
}

/// What is appended, or why it fails.
pub open spec fn lz4_result(
    data: Seq<u8>,
    spans: Seq<Span>,
    total: int,
    size: int,
    r: Result<(), Error>,
    before: Seq<u8>,
    after: Seq<u8>,
) -> bool {
    let used = blocks_used(spans.len(), total, size);
    match r {
        Ok(_) => {
            &&& forall|i: int|
                0 <= i < used ==> #[trigger] lz4_chunk(data, spans, total, size, i) is Some
            &&& after == before + filled(lz4_chunks(data, spans, total, size, used), total)
        },
        Err(e) => {
            &&& e == Error::DecompressionFailed(Compression::LZ4)
            &&& exists|i: int|
                0 <= i < used && #[trigger] lz4_chunk(data, spans, total, size, i) is None
            &&& after == before
        },
    }
}

/// Appends `total` bytes of which each block makes up `size`, in order. `None` says that a block
/// that had to be looked at does not lie within `data`, or has lengths that cannot be counted:
/// nothing was appended.
pub fn lz4_blocks(
    data: &[u8],
    spans: &Vec<Span>,
    total: usize,
    size: usize,
    buf: &mut Vec<u8>,
) -> (r: Option<Result<(), Error>>)
    requires
        size > 0,
        total <= isize::MAX,
    ensures
        r is Some <==> lz4_safe(data@, spans@, total as int, size as int),
        r is None ==> final(buf)@ == old(buf)@,
        r matches Some(done) ==> lz4_result(
            data@,
            spans@,
            total as int,
            size as int,
            done,
            old(buf)@,
            final(buf)@,
        ),
{
    let ghost used = blocks_used(spans@.len(), total as int, size as int);
    let mut chunks: Vec<Vec<u8>> = Vec::new();
    let mut at: usize = 0;
    let mut i: usize = 0;
    assert(chunk_views(chunks@) =~= lz4_chunks(data@, spans@, total as int, size as int, 0));
    assert(joined(chunk_views(chunks@)).len() == 0);
    while i < spans.len() && at < total
        invariant
            i <= spans@.len(),
            size > 0,
            used == blocks_used(spans@.len(), total as int, size as int),
            forall|k: int|
                0 <= k < i ==> (#[trigger] spans@[k]).within(data@.len()) && countable(
                    spans@[k].of(data@),
                    chunk_len(total as int, size as int, k) as nat,
                ),
            buf@ == old(buf)@,
            i <= used,
            at == chunk_start(total as int, size as int, i as int),
            at == joined(chunk_views(chunks@)).len(),
            chunk_views(chunks@) == lz4_chunks(
                data@,
                spans@,
                total as int,
                size as int,
                i as nat,
            ),
            lz4_reaches(data@, spans@, total as int, size as int, i as int),
        decreases spans@.len() - i,
    {
        proof {
            lemma_used(spans@.len(), total as int, size as int, i as int);
            lemma_next_chunk(total as int, size as int, i as int);
        }
        let left: usize = total - at;
        let len: usize = if size <= left { size } else { left };
        let span = spans[i];
        if !span.is_within(data) {
            return None;
        }
        let src = vstd::slice::slice_subrange(data, span.start, span.end);
        assert(src@ == spans@[i as int].of(data@));
        if !is_countable(src, len) {
            return None;
        }
        let mut chunk: Vec<u8> = vec![0; len];
        assert(chunk@ =~= zeros(chunk_len(total as int, size as int, i as int)));
        let ghost expected = lz4_chunk(data@, spans@, total as int, size as int, i as int);
        if !lz4_decode(src, chunk.as_mut_slice()) {
            assert(lz4_safe(data@, spans@, total as int, size as int)) by {
                assert forall|k: int|
                    0 <= k < used && #[trigger] lz4_reaches(
                        data@,
                        spans@,
                        total as int,
                        size as int,
                        k,
                    ) implies spans@[k].within(data@.len()) && countable(
                    spans@[k].of(data@),
                    chunk_len(total as int, size as int, k) as nat,
                ) by {
                    if k > i {
                        assert(expected is Some);
                    }
                }
            }
            return Some(Err(Error::DecompressionFailed(Compression::LZ4)));
        }
        assert(expected == Some(chunk@));
        proof {
            lemma_chunk_pushed(chunks@, chunk);
            assert(chunk_views(chunks@.push(chunk)) =~= lz4_chunks(
                data@,
                spans@,
                total as int,
                size as int,
                (i + 1) as nat,
            ));
        }
        chunks.push(chunk);
        at += len;
        i += 1;
    }
    proof {
        lemma_used(spans@.len(), total as int, size as int, i as int);
    }
    let decompressed = assemble(&chunks, total);
    put_slice(buf, decompressed.as_slice());
    Some(Ok(()))
}

/// An Oodle decompressor takes a block and a buffer, and gives back how many bytes of the buffer
/// it filled, none if it fails, and the buffer.
pub open spec fn oodle_sound<F: Fn(&[u8], Vec<u8>) -> (usize, Vec<u8>)>(f: F) -> bool {
    &&& forall|src: &[u8], b: Vec<u8>| #[trigger] call_requires(f, (src, b))
    &&& forall|src: &[u8], b: Vec<u8>, r: (usize, Vec<u8>)| #[trigger]
        call_ensures(f, (src, b), r) ==> r.0 <= b@.len() && r.1@.len() == b@.len()
}

/// The decompressed data so far, and where the next block goes.
#[verifier::ext_equal]
pub struct OodleState {
    pub bytes: Seq<u8>,
    pub at: int,
}

/// A block that is given `len` bytes of room fills some of them.
pub open spec fn oodle_step<F: Fn(&[u8], Vec<u8>) -> (usize, Vec<u8>)>(
    f: F,
    src: Seq<u8>,
    len: int,
    before: OodleState,
    after: OodleState,
) -> bool {
    exists|s: &[u8], given: Vec<u8>, count: usize, made: Vec<u8>|
        {
            &&& s@ == src
            &&& given@ == before.bytes.subrange(before.at, before.at + len)
            &&& #[trigger] call_ensures(f, (s, given), (count, made))
            &&& count > 0
            &&& after.bytes == before.bytes.take(before.at) + made@ + before.bytes.skip(
                before.at + len,
            )
            &&& after.at == before.at + count
        }
}

/// A block that is given `len` bytes of room is not sound.
pub open spec fn oodle_failed<F: Fn(&[u8], Vec<u8>) -> (usize, Vec<u8>)>(
    f: F,
    src: Seq<u8>,
    len: int,
    before: OodleState,
) -> bool {
    exists|s: &[u8], given: Vec<u8>, made: Vec<u8>|
        {
            &&& s@ == src
            &&& given@ == before.bytes.subrange(before.at, before.at + len)
            &&& #[trigger] call_ensures(f, (s, given), (0usize, made))
        }
}

/// The first blocks, as many as there are steps from the first state to the last, fill `total`
/// zeros step by step.
pub open spec fn oodle_run<F: Fn(&[u8], Vec<u8>) -> (usize, Vec<u8>)>(
    f: F,
    data: Seq<u8>,
    spans: Seq<Span>,
    total: int,
    size: int,
    states: Seq<OodleState>,
) -> bool {
    &&& 1 <= states.len() <= spans.len() + 1
    &&& states[0] == (OodleState { bytes: zeros(total), at: 0 })
    &&& forall|i: int|
        0 <= i < states.len() - 1 ==> oodle_step(
            f,
            (#[trigger] spans[i]).of(data),
            chunk_len(total, size, i),
            states[i],
            states[i + 1],
        )
}

/// Puts `src` in the place of as many bytes of `dst` from `at` on.
fn overwrite(dst: &mut Vec<u8>, at: usize, src: &Vec<u8>)
    requires
        at + src@.len() <= old(dst)@.len(),
    ensures
        final(dst)@ == old(dst)@.take(at as int) + src@ + old(dst)@.skip(at + src@.len()),
{
    let ghost before = dst@;
    let n: usize = dst.len();
    let mut i: usize = 0;
    while i < src.len()
        invariant
            i <= src@.len(),
            at + src@.len() <= n == before.len(),
            dst@ == before.take(at as int) + src@.take(i as int) + before.skip(at + i),
        decreases src@.len() - i,
    {
        dst[at + i] = src[i];
        assert(dst@ =~= before.take(at as int) + src@.take(i + 1) + before.skip(at + i + 1));
        i += 1;
    }
    assert(src@.take(i as int) =~= src@);
}

/// Whether each block that is looked at lies within `data`, and there is something left to fill.
pub open spec fn oodle_safe<F: Fn(&[u8], Vec<u8>) -> (usize, Vec<u8>)>(
    f: F,
    data: Seq<u8>,
    spans: Seq<Span>,
    total: int,
    size: int,
) -> bool {
    forall|states: Seq<OodleState>| #[trigger]
        oodle_run(f, data, spans, total, size, states) && states.len() <= spans.len() ==> {
            let i = states.len() - 1;
            spans[i].within(data.len()) && i * size <= total
        }
}

/// What is appended, or why it fails.
pub open spec fn oodle_result<F: Fn(&[u8], Vec<u8>) -> (usize, Vec<u8>)>(
    f: F,
    data: Seq<u8>,
    spans: Seq<Span>,
    total: int,
    size: int,
    r: Result<(), Error>,
    before: Seq<u8>,
    after: Seq<u8>,
) -> bool {
    match r {
        Ok(_) => exists|states: Seq<OodleState>|
            {
                &&& #[trigger] oodle_run(f, data, spans, total, size, states)
                &&& states.len() == spans.len() + 1
                &&& after == before + states.last().bytes
            },
        Err(e) => {
            &&& e == Error::DecompressionFailed(Compression::Oodle)
            &&& exists|states: Seq<OodleState>|
                {
                    let i = states.len() - 1;
                    &&& #[trigger] oodle_run(f, data, spans, total, size, states)
                    &&& i < spans.len()
                    &&& oodle_failed(
                        f,
                        spans[i].of(data),
                        chunk_len(total, size, i),
                        states.last(),
                    )
                }
            &&& after == before
        },
    }
}

/// Appends `total` bytes. Each block is given `size` bytes of room, or what is left. `None` says
/// that a block that had to be looked at does not lie within `data`, or that nothing was left for
/// it to fill: nothing was appended.
pub fn oodle_blocks<F: Fn(&[u8], Vec<u8>) -> (usize, Vec<u8>)>(
    data: &[u8],
    spans: &Vec<Span>,
    total: usize,
    size: usize,
    oodle: &F,
    buf: &mut Vec<u8>,
) -> (r: Option<Result<(), Error>>)
    requires
        oodle_sound(*oodle),
        total <= isize::MAX,
    ensures
        r is None ==> !oodle_safe(*oodle, data@, spans@, total as int, size as int)
            && final(buf)@ == old(buf)@,
        r matches Some(done) ==> oodle_result(
            *oodle,
            data@,
            spans@,
            total as int,
            size as int,
            done,
            old(buf)@,
            final(buf)@,
        ),
{
    let mut decompressed: Vec<u8> = vec![0; total];
    let mut at: usize = 0;
    let mut i: usize = 0;
    assert(decompressed@ =~= zeros(total as int));
    let ghost mut states: Seq<OodleState> = seq![OodleState { bytes: decompressed@, at: 0 }];
    while i < spans.len()
        invariant
            i <= spans@.len(),
            oodle_sound(*oodle),
            buf@ == old(buf)@,
            at <= i * size,
            decompressed@.len() == total,
            oodle_run(*oodle, data@, spans@, total as int, size as int, states),
            states.len() == i + 1,
            states.last() == (OodleState { bytes: decompressed@, at: at as int }),
        decreases spans@.len() - i,
    {
        assert((i + 1) * size == i * size + size) by (nonlinear_arith);
        let span = spans[i];
        if !span.is_within(data) || (size > 0 && i > total / size) {
            assert(size > 0 && i > total / size ==> i * size > total) by (nonlinear_arith);
            return None;
        }
        assert(i * size <= total) by (nonlinear_arith)
            requires
                size == 0 || i <= total / size,
                0 <= size,
                0 <= total,
        ;
        let left: usize = total - i * size;
        let len: usize = if size <= left { size } else { left };
        let src = vstd::slice::slice_subrange(data, span.start, span.end);
        assert(src@ == spans@[i as int].of(data@));
        let room = vstd::slice::slice_subrange(decompressed.as_slice(), at, at + len);
        let given: Vec<u8> = vstd::slice::slice_to_vec(room);
        let ghost before = states.last();
        assert(given@ =~= before.bytes.subrange(before.at, before.at + len));
        let (count, made): (usize, Vec<u8>) = oodle(src, given);
        if count == 0 {
            assert(oodle_failed(
                *oodle,
                spans@[i as int].of(data@),
                chunk_len(total as int, size as int, i as int),
                before,
            ));
            return Some(Err(Error::DecompressionFailed(Compression::Oodle)));
        }
        overwrite(&mut decompressed, at, &made);
        at += count;
        i += 1;
        proof {
            let after = OodleState { bytes: decompressed@, at: at as int };
            assert(oodle_step(
                *oodle,
                spans@[i - 1].of(data@),
                chunk_len(total as int, size as int, i - 1),
                before,
                after,
            ));
            states = states.push(after);
        }
    }
    put_slice(buf, decompressed.as_slice());
    Some(Ok(()))
}

/// Whether each block that may be needed lies within `data`, and the sizes are such that a buffer
/// for the result can be had and be split among the blocks.
pub open spec fn in_place(
    method: Option<Compression>,
    data: Seq<u8>,
    spans: Seq<Span>,
    uncompressed: u64,
    block_size: u32,
    has_oodle: bool,
) -> bool {
    let n = spans.len();
    let size = chunk_size(n, uncompressed, block_size);
    let used = blocks_used(n, uncompressed as int, size);
    match method {
        None => true,
        Some(Compression::Zlib) | Some(Compression::Gzip) => {
            forall|i: int| 0 <= i < n ==> (#[trigger] spans[i]).within(data.len())
        },
        Some(Compression::Zstd) => {
            &&& size > 0
            &&& uncompressed <= isize::MAX
            &&& forall|i: int| 0 <= i < used ==> (#[trigger] spans[i]).within(data.len())
        },
        Some(Compression::LZ4) => {
            &&& size > 0
            &&& uncompressed <= isize::MAX
            &&& forall|i: int|
                0 <= i < used ==> (#[trigger] spans[i]).within(data.len()) && countable(
                    spans[i].of(data),
                    chunk_len(uncompressed as int, size, i) as nat,
                )
        },
        Some(Compression::Oodle) => has_oodle ==> {
            &&& uncompressed <= isize::MAX
            &&& n > 0 ==> (n - 1) * size <= uncompressed
            &&& forall|i: int| 0 <= i < n ==> (#[trigger] spans[i]).within(data.len())
        },
    }
}

/// Whether the method may leave it to a decompressor that was handed in how far the blocks are
/// looked at.
pub open spec fn asks_caller(method: Option<Compression>) -> bool {
    method == Some(Compression::Zstd) || method == Some(Compression::Oodle)
}

/// Whether it can be tried to decompress `data`: each block that is looked at lies within it, and
/// the sizes are such that a buffer for the result can be had and be split among the blocks.
pub open spec fn decodable<
    R: Fn(&[u8], Vec<u8>) -> Option<Vec<u8>>,
    F: Fn(&[u8], Vec<u8>) -> (usize, Vec<u8>),
>(
    method: Option<Compression>,
    data: Seq<u8>,
    spans: Seq<Span>,
    uncompressed: u64,
    block_size: u32,
    oodle: Option<&F>,
    raw_zstd: R,
) -> bool {
    let total = uncompressed as int;
    let size = chunk_size(spans.len(), uncompressed, block_size);
    match method {
        None => true,
        Some(Compression::Zlib) => inflate_safe(false, data, spans),
        Some(Compression::Gzip) => inflate_safe(true, data, spans),
        Some(Compression::Zstd) => {
            &&& size > 0
            &&& total <= isize::MAX
            &&& zstd_safe(raw_zstd, data, spans, total, size)
        },
        Some(Compression::LZ4) => {
            &&& size > 0
            &&& total <= isize::MAX
            &&& lz4_safe(data, spans, total, size)
        },
        Some(Compression::Oodle) => oodle matches Some(f) ==> {
            &&& total <= isize::MAX
            &&& oodle_safe(*f, data, spans, total, size)
        },
    }
}

/// Blocks that are all in place can be decompressed, whatever they turn out to hold.
pub proof fn lemma_in_place<
    R: Fn(&[u8], Vec<u8>) -> Option<Vec<u8>>,
    F: Fn(&[u8], Vec<u8>) -> (usize, Vec<u8>),
>(
    method: Option<Compression>,
    data: Seq<u8>,
    spans: Seq<Span>,
    uncompressed: u64,
    block_size: u32,
    oodle: Option<&F>,
    raw_zstd: R,
)
    requires
        in_place(method, data, spans, uncompressed, block_size, oodle is Some),
    ensures
        decodable(method, data, spans, uncompressed, block_size, oodle, raw_zstd),
{
    if method == Some(Compression::Oodle) && oodle is Some {
        let total = uncompressed as int;
        let size = chunk_size(spans.len(), uncompressed, block_size);
        assert forall|states: Seq<OodleState>| #[trigger]
            oodle_run(*oodle->0, data, spans, total, size, states) && states.len()
            <= spans.len() implies {
            let i = states.len() - 1;
            spans[i].within(data.len()) && i * size <= total
        } by {
            let i = states.len() - 1;
            assert(i * size <= (spans.len() - 1) * size) by (nonlinear_arith)
                requires
                    0 <= i <= spans.len() - 1,
                    size >= 0,
            ;
        }
    }
}

/// Whether the first `n` parts lie within `data`.
fn all_within(data: &[u8], spans: &Vec<Span>, n: usize) -> (r: bool)
    requires
        n <= spans@.len(),
    ensures
        r == (forall|i: int| 0 <= i < n ==> (#[trigger] spans@[i]).within(data@.len())),
{
    let mut i: usize = 0;
    while i < n
        invariant
            i <= n <= spans@.len(),
            forall|k: int| 0 <= k < i ==> (#[trigger] spans@[k]).within(data@.len()),
        decreases n - i,
    {
        if spans[i].start > spans[i].end || spans[i].end > data.len() {
            assert(!spans@[i as int].within(data@.len()));
            return false;
        }
        i += 1;
    }
    true
}

/// How many of so many blocks are needed.
fn used_blocks(blocks: usize, total: usize, size: usize) -> (r: usize)
    requires
        size > 0,
    ensures
        r == blocks_used(blocks as nat, total as int, size as int),
{
    let full: usize = total / size;
    let rest: usize = total % size;
    assert((total + size - 1) / (size as int) == full + (if rest > 0 {
        1int
    } else {
        0
    })) by (nonlinear_arith)
        requires
            full == total / size,
            rest == total % size,
            size > 0,
            total >= 0,
    ;
    if full < blocks && rest > 0 {
        full + 1
    } else if full < blocks {
        full
    } else {
        blocks
    }
}

/// Whether the lengths in the first `n` parts of `data`, each of which makes up `size` of `total`
/// bytes, can be added up.
fn all_countable(data: &[u8], spans: &Vec<Span>, total: usize, size: usize, n: usize) -> (r: bool)
    requires
        size > 0,
        n == blocks_used(spans@.len(), total as int, size as int),
        forall|i: int| 0 <= i < n ==> (#[trigger] spans@[i]).within(data@.len()),
    ensures
        r == (forall|i: int|
            0 <= i < n ==> countable(
                (#[trigger] spans@[i]).of(data@),
                chunk_len(total as int, size as int, i) as nat,
            )),
{
    let mut i: usize = 0;
    let mut at: usize = 0;
    while i < n
        invariant
            size > 0,
            i <= n == blocks_used(spans@.len(), total as int, size as int),
            n <= spans@.len(),
            at == chunk_start(total as int, size as int, i as int),
            at <= total,
            forall|k: int| 0 <= k < n ==> (#[trigger] spans@[k]).within(data@.len()),
            forall|k: int|
                0 <= k < i ==> countable(
                    (#[trigger] spans@[k]).of(data@),
                    chunk_len(total as int, size as int, k) as nat,
                ),
        decreases n - i,
    {
        proof {
            lemma_used(spans@.len(), total as int, size as int, i as int);
            lemma_next_chunk(total as int, size as int, i as int);
        }
        let left: usize = total - at;
        let len: usize = if size <= left { size } else { left };
        assert(spans@[i as int].within(data@.len()));
        let src = vstd::slice::slice_subrange(data, spans[i].start, spans[i].end);
        assert(src@ == spans@[i as int].of(data@));
        if !is_countable(src, len) {
            return false;
        }
        at += len;
        i += 1;
    }
    true
}

pub fn is_in_place(
    method: Option<Compression>,
    data: &[u8],
    spans: &Vec<Span>,
    uncompressed: u64,
    block_size: u32,
    has_oodle: bool,
) -> (r: bool)
    ensures
        r == in_place(method, data@, spans@, uncompressed, block_size, has_oodle),
{
    let n: usize = spans.len();
    let method = match method {
        None => return true,
        Some(method) => method,
    };
    match method {
        Compression::Zlib | Compression::Gzip => return all_within(data, spans, n),
        Compression::Oodle => if !has_oodle {
            return true;
        },
        _ => {},
    }
    if uncompressed > isize::MAX as u64 {
        return false;
    }
    let total: usize = uncompressed as usize;
    let size: usize = if n == 1 {
        total
    } else {
        block_size as usize
    };
    if method == Compression::Oodle {
        if n > 1 && size > 0 && n - 1 > total / size {
            assert((n - 1) * size > total) by (nonlinear_arith)
                requires
                    n - 1 > total / size,
                    size > 0,
            ;
            return false;
        }
        assert(n > 0 ==> (n - 1) * size <= total) by (nonlinear_arith)
            requires
                n > 1 && size > 0 ==> n - 1 <= total / size,
                n == 1 || size >= 0,
                total >= 0,
                size >= 0,
        ;
        return all_within(data, spans, n);
    }
    if size == 0 {
        return false;
    }
    let used: usize = used_blocks(n, total, size);
    all_within(data, spans, used) && (method != Compression::LZ4 || all_countable(
        data,
        spans,
        total,
        size,
        used,
    ))
}

/// What decompression appends, or why it fails.
pub open spec fn decode_result<
    R: Fn(&[u8], Vec<u8>) -> Option<Vec<u8>>,
    F: Fn(&[u8], Vec<u8>) -> (usize, Vec<u8>),
>(
    method: Option<Compression>,
    data: Seq<u8>,
    spans: Seq<Span>,
    uncompressed: u64,
    block_size: u32,
    oodle: Option<&F>,
    raw_zstd: R,
    r: Result<(), Error>,
    before: Seq<u8>,
    after: Seq<u8>,
) -> bool {
    let total = uncompressed as int;
    let size = chunk_size(spans.len(), uncompressed, block_size);
    match method {
        None => r is Ok && after == before + data,
        Some(Compression::Zlib) => inflate_result(false, data, spans, r, before, after),
        Some(Compression::Gzip) => inflate_result(true, data, spans, r, before, after),
        Some(Compression::Zstd) => zstd_result(
            raw_zstd,
            data,
            spans,
            total,
            size,
            r,
            before,
            after,
        ),
        Some(Compression::LZ4) => lz4_result(data, spans, total, size, r, before, after),
        Some(Compression::Oodle) => match oodle {
            Some(f) => oodle_result(*f, data, spans, total, size, r, before, after),
            None => r == Err::<(), Error>(Error::OodleFailed) && after == before,
        },
    }
}

/// Appends what `data` decompresses to, if it can be tried: `None` says that it cannot, and that
/// nothing was appended. Without a method `data` is appended as it is. How far the blocks are
/// looked at may depend on the decompressors that were handed in.
pub fn try_decode<
    R: Fn(&[u8], Vec<u8>) -> Option<Vec<u8>>,
    F: Fn(&[u8], Vec<u8>) -> (usize, Vec<u8>),
>(
    method: Option<Compression>,
    data: &[u8],
    spans: &Vec<Span>,
    uncompressed: u64,
    block_size: u32,
    oodle: Option<&F>,
    raw_zstd: &R,
    buf: &mut Vec<u8>,
) -> (r: Option<Result<(), Error>>)
    requires
        raw_sound(*raw_zstd),
        oodle matches Some(f) ==> oodle_sound(*f),
    ensures
        decodable(method, data@, spans@, uncompressed, block_size, oodle, *raw_zstd) ==> r is Some,
        r is Some && !asks_caller(method) ==> decodable(
            method,
            data@,
            spans@,
            uncompressed,
            block_size,
            oodle,
            *raw_zstd,
        ),
        match r {
            Some(done) => decode_result(
                method,
                data@,
                spans@,
                uncompressed,
                block_size,
                oodle,
                *raw_zstd,
                done,
                old(buf)@,
                final(buf)@,
            ),
            None => final(buf)@ == old(buf)@,
        },
{
    let method = match method {
        None => {
            put_slice(buf, data);
            return Some(Ok(()));
        },
        Some(method) => method,
    };
    match method {
        Compression::Zlib => return inflate_blocks(false, data, spans, buf),
        Compression::Gzip => return inflate_blocks(true, data, spans, buf),
        _ => {},
    }
    if method == Compression::Oodle && oodle.is_none() {
        return Some(Err(Error::OodleFailed));
    }
    if uncompressed > isize::MAX as u64 {
        return None;
    }
    let total: usize = uncompressed as usize;
    let size: usize = if spans.len() == 1 {
        total
    } else {
        block_size as usize
    };
    if let (Compression::Oodle, Some(f)) = (method, oodle) {
        return oodle_blocks(data, spans, total, size, f, buf);
    }
    if size == 0 {
        return None;
    }
    if method == Compression::Zstd {
        zstd_blocks(data, spans, total, size, raw_zstd, buf)
    } else {
        lz4_blocks(data, spans, total, size, buf)
    }
}

/// Appends what `data` decompresses to. Without a method it is appended as it is.
pub fn decode<
    R: Fn(&[u8], Vec<u8>) -> Option<Vec<u8>>,
    F: Fn(&[u8], Vec<u8>) -> (usize, Vec<u8>),
>(
    method: Option<Compression>,
    data: &[u8],
    spans: &Vec<Span>,
    uncompressed: u64,
    block_size: u32,
    oodle: Option<&F>,
    raw_zstd: &R,
    buf: &mut Vec<u8>,
) -> (r: Result<(), Error>)
    requires
        decodable(method, data@, spans@, uncompressed, block_size, oodle, *raw_zstd),
        raw_sound(*raw_zstd),
        oodle matches Some(f) ==> oodle_sound(*f),
    ensures
        decode_result(
            method,
            data@,
            spans@,
            uncompressed,
            block_size,
            oodle,
            *raw_zstd,
            r,
            old(buf)@,
            final(buf)@,
        ),
{
    match try_decode(method, data, spans, uncompressed, block_size, oodle, raw_zstd, buf) {
        Some(done) => done,
        None => vstd::pervasive::unreached(),
    }
}

/// The chunks that the frames in the first `n` blocks hold.
pub open spec fn framed_chunks(
    data: Seq<u8>,
    spans: Seq<Span>,
    total: int,
    size: int,
    n: nat,
) -> Seq<Seq<u8>> {
    Seq::new(n, |i: int| framed(spans[i].of(data), chunk_len(total, size, i))->0)
}

/// Whether `data` is sound and decompresses to `d`, whatever decompressors were handed in.
pub open spec fn decodes_to(
    method: Option<Compression>,
    data: Seq<u8>,
    spans: Seq<Span>,
    uncompressed: u64,
    block_size: u32,
    d: Seq<u8>,
) -> bool {
    let n = spans.len();
    let total = uncompressed as int;
    let size = chunk_size(n, uncompressed, block_size);
    let used = blocks_used(n, total, size);
    match method {
        None => d == data,
        Some(Compression::Zlib) => {
            &&& forall|i: int|
                0 <= i < n ==> inflated(false, (#[trigger] spans[i]).of(data)) is Some
            &&& d == joined(inflated_parts(false, data, spans, n as int))
        },
        Some(Compression::Gzip) => {
            &&& forall|i: int|
                0 <= i < n ==> inflated(true, (#[trigger] spans[i]).of(data)) is Some
            &&& d == joined(inflated_parts(true, data, spans, n as int))
        },
        Some(Compression::Zstd) => {
            &&& forall|i: int|
                0 <= i < used ==> framed(
                    (#[trigger] spans[i]).of(data),
                    chunk_len(total, size, i),
                ) is Some
            &&& d == filled(framed_chunks(data, spans, total, size, used), total)
        },
        Some(Compression::LZ4) => {
            &&& forall|i: int|
                0 <= i < used ==> #[trigger] lz4_chunk(data, spans, total, size, i) is Some
            &&& d == filled(lz4_chunks(data, spans, total, size, used), total)
        },
        Some(Compression::Oodle) => false,
    }
}

/// Sound data is decompressed, and to nothing else.
pub proof fn law_decode_sound<
    R: Fn(&[u8], Vec<u8>) -> Option<Vec<u8>>,
    F: Fn(&[u8], Vec<u8>) -> (usize, Vec<u8>),
>(
    method: Option<Compression>,
    data: Seq<u8>,
    spans: Seq<Span>,
    uncompressed: u64,
    block_size: u32,
    oodle: Option<&F>,
    raw_zstd: R,
    r: Result<(), Error>,
    before: Seq<u8>,
    after: Seq<u8>,
    d: Seq<u8>,
)
    requires
        decodes_to(method, data, spans, uncompressed, block_size, d),
        decode_result(
            method,
            data,
            spans,
            uncompressed,
            block_size,
            oodle,
            raw_zstd,
            r,
            before,
            after,
        ),
    ensures
        r is Ok,
        after == before + d,
{
    if method == Some(Compression::Zstd) {
        let n = spans.len();
        let total = uncompressed as int;
        let size = chunk_size(n, uncompressed, block_size);
        let used = blocks_used(n, total, size);
        if r is Ok {
            let chunks = choose|chunks: Seq<Seq<u8>>|
                {
                    &&& chunks.len() == used
                    &&& forall|i: int|
                        0 <= i < used ==> zstd_chunk(
                            raw_zstd,
                            spans[i].of(data),
                            chunk_len(total, size, i),
                            #[trigger] chunks[i],
                        )
                    &&& after == before + #[trigger] filled(chunks, total)
                };
            assert(chunks =~= framed_chunks(data, spans, total, size, used)) by {
                assert forall|i: int| 0 <= i < used implies chunks[i] == framed_chunks(
                    data,
                    spans,
                    total,
                    size,
                    used,
                )[i] by {
                    assert(framed(spans[i].of(data), chunk_len(total, size, i)) is Some);
                }
            }
        }
    }
}

/// Blocks from which a method restores the pieces of `d` decompress to `d`.
pub proof fn lemma_restored(
    method: Compression,
    data: Seq<u8>,
    spans: Seq<Span>,
    uncompressed: u64,
    block_size: u32,
    pieces: Seq<Seq<u8>>,
    d: Seq<u8>,
)
    requires
        method != Compression::Oodle,
        pieces.len() == spans.len(),
        joined(pieces) == d,
        uncompressed == d.len(),
        forall|i: int|
            0 <= i < spans.len() ==> restores(method, pieces[i], (#[trigger] spans[i]).of(data)),
        method == Compression::LZ4 ==> forall|i: int|
            0 <= i < spans.len() ==> countable((#[trigger] spans[i]).of(data), pieces[i].len()),
        method == Compression::Zstd || method == Compression::LZ4 ==> {
            let size = chunk_size(spans.len(), uncompressed, block_size);
            &&& blocks_used(spans.len(), uncompressed as int, size) == spans.len()
            &&& forall|i: int|
                0 <= i < pieces.len() ==> (#[trigger] pieces[i]).len() == chunk_len(
                    uncompressed as int,
                    size,
                    i,
                )
        },
    ensures
        decodes_to(Some(method), data, spans, uncompressed, block_size, d),
{
    let n = spans.len();
    let total = uncompressed as int;
    let size = chunk_size(n, uncompressed, block_size);
    match method {
        Compression::Zlib => {
            assert(inflated_parts(false, data, spans, n as int) =~= pieces);
        },
        Compression::Gzip => {
            assert(inflated_parts(true, data, spans, n as int) =~= pieces);
        },
        Compression::Zstd => {
            assert forall|i: int| 0 <= i < n implies framed(
                (#[trigger] spans[i]).of(data),
                chunk_len(total, size, i),
            ) == Some(pieces[i]) by {
                assert(pieces[i].len() == chunk_len(total, size, i));
                assert(pieces[i] + zeros(0) =~= pieces[i]);
            }
            assert(framed_chunks(data, spans, total, size, n) =~= pieces);
            assert(filled(pieces, total) =~= d);
        },
        Compression::LZ4 => {
            assert forall|i: int| 0 <= i < n implies #[trigger] lz4_chunk(
                data,
                spans,
                total,
                size,
                i,
            ) == Some(pieces[i]) by {
                assert(pieces[i].len() == chunk_len(total, size, i));
                assert(restores(method, pieces[i], spans[i].of(data)));
                assert(zeros(chunk_len(total, size, i)).len() == pieces[i].len());
            }
            assert(lz4_chunks(data, spans, total, size, n) =~= pieces);
            assert(filled(pieces, total) =~= d);
        },
        Compression::Oodle => {},
    }
}

/// All parts one after the other: those of a first list and then those of a second.
pub proof fn law_joined(a: Seq<Seq<u8>>, b: Seq<Seq<u8>>, part: Seq<u8>)
    ensures
        joined(Seq::<Seq<u8>>::empty()) == Seq::<u8>::empty(),
        joined(seq![part]) == part,
        joined(a + b) == joined(a) + joined(b),
    decreases b.len(),
{
    let none = Seq::<Seq<u8>>::empty();
    lemma_joined_push(none, part);
    assert(none.push(part) =~= seq![part]);
    assert(joined(none) + part =~= part);
    if b.len() == 0 {
        assert(a + b =~= a);
        assert(joined(a) + joined(b) =~= joined(a));
    } else {
        law_joined(a, b.drop_last(), part);
        assert((a + b).drop_last() =~= a + b.drop_last());
        assert(joined(a + b) =~= joined(a) + joined(b));
    }
}

/// Without a method, what was stored is the file.
pub proof fn law_decode_without_method<
    R: Fn(&[u8], Vec<u8>) -> Option<Vec<u8>>,
    F: Fn(&[u8], Vec<u8>) -> (usize, Vec<u8>),
>(
    data: Seq<u8>,
    spans: Seq<Span>,
    uncompressed: u64,
    block_size: u32,
    oodle: Option<&F>,
    raw_zstd: R,
    r: Result<(), Error>,
    before: Seq<u8>,
    after: Seq<u8>,
)
    requires
        decode_result(
            None,
            data,
            spans,
            uncompressed,
            block_size,
            oodle,
            raw_zstd,
            r,
            before,
            after,
        ),
    ensures
        r is Ok,
        after == before + data,
{
}

/// Zlib and gzip blocks: each is a stream of its own, and what they hold is appended in their
/// order. It fails if and only if one of them is not sound.
pub proof fn law_decode_inflated<
    R: Fn(&[u8], Vec<u8>) -> Option<Vec<u8>>,
    F: Fn(&[u8], Vec<u8>) -> (usize, Vec<u8>),
>(
    gzip: bool,
    data: Seq<u8>,
    spans: Seq<Span>,
    uncompressed: u64,
    block_size: u32,
    oodle: Option<&F>,
    raw_zstd: R,
    r: Result<(), Error>,
    before: Seq<u8>,
    after: Seq<u8>,
)
    requires
        decode_result(
            Some(
                if gzip {
                    Compression::Gzip
                } else {
                    Compression::Zlib
                },
            ),
            data,
            spans,
            uncompressed,
            block_size,
            oodle,
            raw_zstd,
            r,
            before,
            after,
        ),
    ensures
        gzip ==> (r is Ok <==> forall|i: int|
            0 <= i < spans.len() ==> gzip_inflated(
                data.subrange((#[trigger] spans[i]).start as int, spans[i].end as int),
            ) is Some),
        !gzip ==> (r is Ok <==> forall|i: int|
            0 <= i < spans.len() ==> zlib_inflated(
                data.subrange((#[trigger] spans[i]).start as int, spans[i].end as int),
            ) is Some),
        gzip && r is Ok ==> after == before + joined(
            Seq::new(
                spans.len(),
                |i: int|
                    gzip_inflated(data.subrange(spans[i].start as int, spans[i].end as int))->0,
            ),
        ),
        !gzip && r is Ok ==> after == before + joined(
            Seq::new(
                spans.len(),
                |i: int|
                    zlib_inflated(data.subrange(spans[i].start as int, spans[i].end as int))->0,
            ),
        ),
        r matches Err(e) ==> (e matches Error::Io(IoError::Codec(_))),
{
    if r is Ok {
        let parts = inflated_parts(gzip, data, spans, spans.len() as int);
        assert forall|i: int| 0 <= i < spans.len() implies inflated(
            gzip,
            data.subrange((#[trigger] spans[i]).start as int, spans[i].end as int),
        ) is Some by {
            assert(inflated(gzip, spans[i].of(data)) is Some);
        }
        if gzip {
            assert(parts =~= Seq::new(
                spans.len(),
                |i: int|
                    gzip_inflated(data.subrange(spans[i].start as int, spans[i].end as int))->0,
            ));
        } else {
            assert(parts =~= Seq::new(
                spans.len(),
                |i: int|
                    zlib_inflated(data.subrange(spans[i].start as int, spans[i].end as int))->0,
            ));
        }
    } else {
        let i = choose|i: int|
            {
                &&& 0 <= i < spans.len()
                &&& #[trigger] inflate_reaches(gzip, data, spans, i)
                &&& inflated(gzip, spans[i].of(data)) is None
                &&& (before + joined(inflated_parts(gzip, data, spans, i))).is_prefix_of(after)
            };
        assert(inflated(
            gzip,
            data.subrange(spans[i].start as int, spans[i].end as int),
        ) is None);
    }
}

/// Each chunk has the length that its place asks for.
spec fn chunks_fit(chunks: Seq<Seq<u8>>, total: int, size: int) -> bool {
    forall|k: int|
        0 <= k < chunks.len() ==> chunk_fits((#[trigger] chunks[k]).len(), total, size, k)
}

spec fn chunk_fits(len: nat, total: int, size: int, k: int) -> bool {
    k * size < total && len == chunk_len(total, size, k)
}

/// A list of chunks that fit, put together and filled up with zeros: each stands at its place.
proof fn lemma_filled(chunks: Seq<Seq<u8>>, total: int, size: int, i: int)
    requires
        0 < size,
        0 <= total,
        0 <= i < chunks.len(),
        chunks_fit(chunks, total, size),
    ensures
        filled(chunks, total).len() == total,
        filled(chunks, total).subrange(i * size, i * size + chunk_len(total, size, i))
            == chunks[i],
{
    lemma_filled_len(chunks, total, size);
    lemma_filled_part(chunks, total, size, i);
    let all = joined(chunks);
    assert(chunk_fits(chunks[i].len(), total, size, i));
    lemma_next_chunk(total, size, i);
    assert(filled(chunks, total).subrange(i * size, i * size + chunk_len(total, size, i))
        =~= all.subrange(i * size, i * size + chunk_len(total, size, i)));
}

proof fn lemma_filled_len(chunks: Seq<Seq<u8>>, total: int, size: int)
    requires
        0 < size,
        0 <= total,
        chunks_fit(chunks, total, size),
    ensures
        joined(chunks).len() == chunk_start(total, size, chunks.len() as int) <= total,
        filled(chunks, total).len() == total,
    decreases chunks.len(),
{
    if chunks.len() > 0 {
        let front = chunks.drop_last();
        assert forall|k: int| 0 <= k < front.len() implies chunk_fits(
            (#[trigger] front[k]).len(),
            total,
            size,
            k,
        ) by {
            assert(front[k] == chunks[k]);
        }
        lemma_filled_len(front, total, size);
        let k = chunks.len() - 1;
        assert(chunk_fits(chunks[k].len(), total, size, k));
        lemma_next_chunk(total, size, k);
        assert(joined(chunks).len() == joined(front).len() + chunks[k].len());
        assert(chunk_start(total, size, k) == k * size);
        assert(chunk_start(total, size, k + 1) <= total);
    } else {
        assert(0 * size == 0);
        assert(chunk_start(total, size, 0) == 0);
    }
}

proof fn lemma_filled_part(chunks: Seq<Seq<u8>>, total: int, size: int, i: int)
    requires
        0 < size,
        0 <= total,
        0 <= i < chunks.len(),
        chunks_fit(chunks, total, size),
    ensures
        i * size + chunk_len(total, size, i) <= joined(chunks).len(),
        joined(chunks).subrange(i * size, i * size + chunk_len(total, size, i)) == chunks[i],
    decreases chunks.len(),
{
    let front = chunks.drop_last();
    assert forall|k: int| 0 <= k < front.len() implies chunk_fits(
        (#[trigger] front[k]).len(),
        total,
        size,
        k,
    ) by {
        assert(front[k] == chunks[k]);
    }
    lemma_filled_len(front, total, size);
    assert(chunk_fits(chunks[i].len(), total, size, i));
    lemma_next_chunk(total, size, i);
    let len = chunk_len(total, size, i);
    if i == chunks.len() - 1 {
        assert(joined(chunks).subrange(i * size, i * size + len) =~= chunks[i]);
    } else {
        lemma_filled_part(front, total, size, i);
        assert(joined(chunks).subrange(i * size, i * size + len) =~= joined(front).subrange(
            i * size,
            i * size + len,
        ));
    }
}

/// Zstandard blocks: as many bytes are appended as the file has. A single block makes up all of
/// them, each of several as many as the block size says, and the last what is left. A block is a
/// frame, whose place is filled up with zeros; only where that is not sound or does not fit is it
/// taken for a raw block. It fails only if both fail.
#[verifier::rlimit(60)]
pub proof fn law_decode_zstd<
    R: Fn(&[u8], Vec<u8>) -> Option<Vec<u8>>,
    F: Fn(&[u8], Vec<u8>) -> (usize, Vec<u8>),
>(
    data: Seq<u8>,
    spans: Seq<Span>,
    uncompressed: u64,
    block_size: u32,
    oodle: Option<&F>,
    raw_zstd: R,
    r: Result<(), Error>,
    before: Seq<u8>,
    after: Seq<u8>,
    i: int,
)
    requires
        decode_result(
            Some(Compression::Zstd),
            data,
            spans,
            uncompressed,
            block_size,
            oodle,
            raw_zstd,
            r,
            before,
            after,
        ),
        raw_sound(raw_zstd),
        spans.len() == 1 ==> uncompressed > 0,
        spans.len() != 1 ==> block_size > 0,
        0 <= i < spans.len(),
    ensures
        ({
            let size: int = if spans.len() == 1 {
                uncompressed as int
            } else {
                block_size as int
            };
            let left = uncompressed - i * size;
            let len = if left < size {
                left
            } else {
                size
            };
            let piece = data.subrange(spans[i].start as int, spans[i].end as int);
            let at = before.len() + i * size;
            &&& r is Ok ==> after.len() == before.len() + uncompressed && after.take(
                before.len() as int,
            ) == before
            &&& r is Ok ==> forall|k: int|
                before.len() + spans.len() * size <= k < after.len() ==> #[trigger] after[k] == 0
            &&& r is Ok && left > 0 ==> if zstd_frames(piece) is Some && zstd_frames(piece)->0.len()
                <= len {
                after.subrange(at, at + len) == zstd_frames(piece)->0 + Seq::new(
                    (len - zstd_frames(piece)->0.len()) as nat,
                    |k: int| 0u8,
                )
            } else {
                exists|s: &[u8], b: Vec<u8>, made: Vec<u8>|
                    {
                        &&& s@ == piece
                        &&& b@.len() == len
                        &&& #[trigger] call_ensures(raw_zstd, (s, b), Some(made))
                        &&& after.subrange(at, at + len) == made@
                    }
            }
            &&& r matches Err(e) ==> {
                &&& after == before
                &&& e == Error::DecompressionFailed(Compression::Zstd)
                &&& exists|s: &[u8], b: Vec<u8>, k: int|
                    {
                        let bad = data.subrange(
                            (#[trigger] spans[k]).start as int,
                            spans[k].end as int,
                        );
                        &&& 0 <= k < spans.len()
                        &&& k * size < uncompressed
                        &&& zstd_frames(bad) is Some ==> zstd_frames(bad)->0.len() > b@.len()
                        &&& s@ == bad
                        &&& #[trigger] call_ensures(raw_zstd, (s, b), None)
                    }
            }
        }),
{
    let total = uncompressed as int;
    let size = chunk_size(spans.len(), uncompressed, block_size);
    let used = blocks_used(spans.len(), total, size);
    if r is Ok {
        let chunks = choose|chunks: Seq<Seq<u8>>|
            {
                &&& chunks.len() == used
                &&& forall|i: int|
                    0 <= i < used ==> zstd_chunk(
                        raw_zstd,
                        spans[i].of(data),
                        chunk_len(total, size, i),
                        #[trigger] chunks[i],
                    )
                &&& after == before + #[trigger] filled(chunks, total)
            };
        assert forall|k: int| 0 <= k < chunks.len() implies chunk_fits(
            (#[trigger] chunks[k]).len(),
            total,
            size,
            k,
        ) by {
            lemma_used(spans.len(), total, size, k);
            lemma_next_chunk(total, size, k);
            assert(zstd_chunk(
                raw_zstd,
                spans[k].of(data),
                chunk_len(total, size, k),
                chunks[k],
            ));
        }
        lemma_filled_len(chunks, total, size);
        assert(after.take(before.len() as int) =~= before);
        lemma_used(spans.len(), total, size, spans.len() - 1);
        assert forall|k: int|
            before.len() + spans.len() * size <= k < after.len() implies #[trigger] after[k]
            == 0 by {
            assert(used == spans.len()) by {
                assert((spans.len() - 1) * size < total) by (nonlinear_arith)
                    requires
                        spans.len() * size < total,
                        size > 0,
                ;
            }
            assert(joined(chunks).len() == spans.len() * size);
            assert(after[k] == filled(chunks, total)[k - before.len()]);
        }
        lemma_used(spans.len(), total, size, i);
        if i * size < total {
            lemma_filled(chunks, total, size, i);
            let len = chunk_len(total, size, i);
            let at = before.len() + i * size;
            lemma_next_chunk(total, size, i);
            assert(after.subrange(at, at + len) =~= filled(chunks, total).subrange(
                i * size,
                i * size + len,
            ));
            assert(zstd_chunk(raw_zstd, spans[i].of(data), len, chunks[i]));
            if let Some(out) = zstd_frames(spans[i].of(data)) {
                if out.len() <= len {
                    assert(out + zeros(len - out.len()) =~= out + Seq::new(
                        (len - out.len()) as nat,
                        |k: int| 0u8,
                    ));
                }
            }
        }
    } else {
        let k = choose|k: int|
            0 <= k < used && zstd_failed(
                raw_zstd,
                (#[trigger] spans[k]).of(data),
                chunk_len(total, size, k),
            );
        lemma_used(spans.len(), total, size, k);
        let (s, b) = choose|s: &[u8], b: Vec<u8>|
            s@ == spans[k].of(data) && b@.len() == chunk_len(total, size, k)
                && #[trigger] call_ensures(raw_zstd, (s, b), None);
        assert(s@ == data.subrange(spans[k].start as int, spans[k].end as int));
    }
}

/// LZ4 blocks: as many bytes are appended as the file has, each block at its place.
#[verifier::rlimit(60)]
pub proof fn law_decode_lz4<
    R: Fn(&[u8], Vec<u8>) -> Option<Vec<u8>>,
    F: Fn(&[u8], Vec<u8>) -> (usize, Vec<u8>),
>(
    data: Seq<u8>,
    spans: Seq<Span>,
    uncompressed: u64,
    block_size: u32,
    oodle: Option<&F>,
    raw_zstd: R,
    r: Result<(), Error>,
    before: Seq<u8>,
    after: Seq<u8>,
    i: int,
)
    requires
        decode_result(
            Some(Compression::LZ4),
            data,
            spans,
            uncompressed,
            block_size,
            oodle,
            raw_zstd,
            r,
            before,
            after,
        ),
        spans.len() == 1 ==> uncompressed > 0,
        spans.len() != 1 ==> block_size > 0,
        0 <= i < spans.len(),
        forall|src: Seq<u8>, b: Seq<u8>|
            (#[trigger] lz4_decoded(src, b)) matches Some(out) ==> out.len() == b.len(),
    ensures
        ({
            let size: int = if spans.len() == 1 {
                uncompressed as int
            } else {
                block_size as int
            };
            let left = uncompressed - i * size;
            let len = if left < size {
                left
            } else {
                size
            };
            let piece = data.subrange(spans[i].start as int, spans[i].end as int);
            let at = before.len() + i * size;
            let room = Seq::new(len as nat, |k: int| 0u8);
            &&& r is Ok ==> after.len() == before.len() + uncompressed && after.take(
                before.len() as int,
            ) == before
            &&& r is Ok ==> forall|k: int|
                before.len() + spans.len() * size <= k < after.len() ==> #[trigger] after[k] == 0
            &&& r is Ok && left > 0 ==> lz4_decoded(piece, room) == Some(
                after.subrange(at, at + len),
            )
            &&& left > 0 && lz4_decoded(piece, room) is None ==> r is Err
            &&& r is Err ==> exists|k: int|
                {
                    let bad = data.subrange(
                        (#[trigger] spans[k]).start as int,
                        spans[k].end as int,
                    );
                    let rest = uncompressed - k * size;
                    let place = Seq::new(
                        (if rest < size {
                            rest
                        } else {
                            size
                        }) as nat,
                        |j: int| 0u8,
                    );
                    0 <= k < spans.len() && rest > 0 && lz4_decoded(bad, place) is None
                }
            &&& r matches Err(e) ==> after == before && e == Error::DecompressionFailed(
                Compression::LZ4,
            )
        }),
{
    let total = uncompressed as int;
    let size = chunk_size(spans.len(), uncompressed, block_size);
    let used = blocks_used(spans.len(), total, size);
    lemma_used(spans.len(), total, size, i);
    if r is Err {
        let k = choose|k: int|
            0 <= k < used && #[trigger] lz4_chunk(data, spans, total, size, k) is None;
        lemma_used(spans.len(), total, size, k);
        lemma_next_chunk(total, size, k);
        let len = chunk_len(total, size, k);
        assert(zeros(len) =~= Seq::new(len as nat, |j: int| 0u8));
        assert(lz4_decoded(spans[k].of(data), zeros(len)) is None);
    }
    if i * size < total {
        let len = chunk_len(total, size, i);
        assert(zeros(len) =~= Seq::new(len as nat, |k: int| 0u8));
        if r is Ok {
            assert(lz4_chunk(data, spans, total, size, i) is Some);
        }
    }
    if r is Ok {
        let chunks = lz4_chunks(data, spans, total, size, used);
        assert forall|k: int| 0 <= k < chunks.len() implies chunk_fits(
            (#[trigger] chunks[k]).len(),
            total,
            size,
            k,
        ) by {
            lemma_used(spans.len(), total, size, k);
            lemma_next_chunk(total, size, k);
            assert(lz4_chunk(data, spans, total, size, k) is Some);
        }
        lemma_filled_len(chunks, total, size);
        assert(after.take(before.len() as int) =~= before);
        lemma_used(spans.len(), total, size, spans.len() - 1);
        assert forall|k: int|
            before.len() + spans.len() * size <= k < after.len() implies #[trigger] after[k]
            == 0 by {
            assert(used == spans.len()) by {
                assert((spans.len() - 1) * size < total) by (nonlinear_arith)
                    requires
                        spans.len() * size < total,
                        size > 0,
                ;
            }
            assert(joined(chunks).len() == spans.len() * size);
            assert(after[k] == filled(chunks, total)[k - before.len()]);
        }
        if i * size < total {
            lemma_filled(chunks, total, size, i);
            let len = chunk_len(total, size, i);
            let at = before.len() + i * size;
            lemma_next_chunk(total, size, i);
            assert(after.subrange(at, at + len) =~= filled(chunks, total).subrange(
                i * size,
                i * size + len,
            ));
        }
    }
}

/// Oodle blocks: without a decompressor nothing is done. Otherwise a single block is given room
/// for the whole file, and each of several for as many bytes as the block size says, or as are
/// left; each goes where the one before it stopped, and one that fills nothing is an error.
#[verifier::rlimit(60)]
pub proof fn law_decode_oodle<
    R: Fn(&[u8], Vec<u8>) -> Option<Vec<u8>>,
    F: Fn(&[u8], Vec<u8>) -> (usize, Vec<u8>),
>(
    data: Seq<u8>,
    spans: Seq<Span>,
    uncompressed: u64,
    block_size: u32,
    oodle: Option<&F>,
    raw_zstd: R,
    r: Result<(), Error>,
    before: Seq<u8>,
    after: Seq<u8>,
)
    requires
        decode_result(
            Some(Compression::Oodle),
            data,
            spans,
            uncompressed,
            block_size,
            oodle,
            raw_zstd,
            r,
            before,
            after,
        ),
    ensures
        oodle is None ==> r == Err::<(), Error>(Error::OodleFailed) && after == before,
        oodle is Some && r is Err ==> r == Err::<(), Error>(
            Error::DecompressionFailed(Compression::Oodle),
        ) && after == before,
        oodle is Some && r is Ok ==> exists|states: Seq<OodleState>|
            {
                &&& #[trigger] states.len() == spans.len() + 1
                &&& states[0].at == 0
                &&& states[0].bytes == Seq::new(uncompressed as nat, |k: int| 0u8)
                &&& after == before + states.last().bytes
                &&& forall|i: int|
                    0 <= i < spans.len() ==> {
                        let room = if spans.len() == 1 {
                            uncompressed as int
                        } else if block_size <= uncompressed - i * block_size {
                            block_size as int
                        } else {
                            uncompressed - i * block_size
                        };
                        oodle_step(
                            *oodle->0,
                            data.subrange((#[trigger] spans[i]).start as int, spans[i].end as int),
                            room,
                            states[i],
                            states[i + 1],
                        )
                    }
            },
{
    if let Some(f) = oodle {
        if r is Ok {
            let total = uncompressed as int;
            let size = chunk_size(spans.len(), uncompressed, block_size);
            let states = choose|states: Seq<OodleState>|
                {
                    &&& #[trigger] oodle_run(*f, data, spans, total, size, states)
                    &&& states.len() == spans.len() + 1
                    &&& after == before + states.last().bytes
                };
            assert(zeros(total) =~= Seq::new(uncompressed as nat, |k: int| 0u8));
            assert(states.len() == spans.len() + 1);
            assert(spans.len() == 1 ==> chunk_len(total, size, 0) == total) by {
                assert(0 * size == 0);
            }
        }
    }
}

/// What an Oodle block does: it is handed the block and as much of what was decompressed so far as
/// it has room for, and what it gives back takes the place of that.
#[verifier::rlimit(60)]
pub proof fn law_oodle_step<F: Fn(&[u8], Vec<u8>) -> (usize, Vec<u8>)>(
    f: F,
    src: Seq<u8>,
    room: int,
    before: OodleState,
    after: OodleState,
)
    requires
        oodle_sound(f),
        oodle_step(f, src, room, before, after),
        0 <= before.at,
        0 <= room,
        before.at + room <= before.bytes.len(),
    ensures
        after.bytes.len() == before.bytes.len(),
        before.at < after.at <= before.at + room,
        after.bytes.take(before.at) == before.bytes.take(before.at),
        after.bytes.skip(before.at + room) == before.bytes.skip(before.at + room),
        exists|s: &[u8], given: Vec<u8>, made: Vec<u8>|
            {
                &&& s@ == src
                &&& given@ == before.bytes.subrange(before.at, before.at + room)
                &&& #[trigger] call_ensures(
                    f,
                    (s, given),
                    ((after.at - before.at) as usize, made),
                )
                &&& after.bytes.subrange(before.at, before.at + room) == made@
            },
{
    let (s, given, count, made) = choose|s: &[u8], given: Vec<u8>, count: usize, made: Vec<u8>|
        {
            &&& s@ == src
            &&& given@ == before.bytes.subrange(before.at, before.at + room)
            &&& #[trigger] call_ensures(f, (s, given), (count, made))
            &&& count > 0
            &&& after.bytes == before.bytes.take(before.at) + made@ + before.bytes.skip(
                before.at + room,
            )
            &&& after.at == before.at + count
        };
    assert(given@.len() == room);
    assert(after.bytes.take(before.at) =~= before.bytes.take(before.at));
    assert(after.bytes.skip(before.at + room) =~= before.bytes.skip(before.at + room));
    assert(after.bytes.subrange(before.at, before.at + room) =~= made@);
    assert((after.at - before.at) as usize == count);
    assert(call_ensures(f, (s, given), ((after.at - before.at) as usize, made)));
}

/// When blocks are in place: each that may be needed lies within the data, and for methods that
/// fill a buffer of the file's size, that can be had and be split among the blocks. Without a
/// method, or without the decompressor that it takes, there is nothing to ask.
#[verifier::rlimit(60)]
pub proof fn law_in_place(
    data: Seq<u8>,
    spans: Seq<Span>,
    uncompressed: u64,
    block_size: u32,
    has_oodle: bool,
)
    ensures
        ({
            let n = spans.len() as int;
            let size: int = if n == 1 {
                uncompressed as int
            } else {
                block_size as int
            };
            let all = forall|i: int|
                0 <= i < n ==> (#[trigger] spans[i]).start <= spans[i].end <= data.len();
            let needed = forall|i: int|
                0 <= i < n && i * size < uncompressed ==> (#[trigger] spans[i]).start
                    <= spans[i].end <= data.len();
            let room = uncompressed <= isize::MAX;
            &&& in_place(None, data, spans, uncompressed, block_size, has_oodle)
            &&& in_place(
                Some(Compression::Zlib),
                data,
                spans,
                uncompressed,
                block_size,
                has_oodle,
            ) <==> all
            &&& in_place(
                Some(Compression::Gzip),
                data,
                spans,
                uncompressed,
                block_size,
                has_oodle,
            ) <==> all
            &&& in_place(
                Some(Compression::Zstd),
                data,
                spans,
                uncompressed,
                block_size,
                has_oodle,
            ) <==> size > 0 && room && needed
            &&& in_place(
                Some(Compression::LZ4),
                data,
                spans,
                uncompressed,
                block_size,
                has_oodle,
            ) <==> size > 0 && room && needed && forall|i: int|
                0 <= i < n && i * size < uncompressed ==> countable(
                    data.subrange((#[trigger] spans[i]).start as int, spans[i].end as int),
                    (if size <= uncompressed - i * size {
                        size
                    } else {
                        uncompressed - i * size
                    }) as nat,
                )
            &&& size > 0 && room && needed && data.len() <= 0x40_0000 && uncompressed
                <= 0x4000_0000 ==> in_place(
                Some(Compression::LZ4),
                data,
                spans,
                uncompressed,
                block_size,
                has_oodle,
            )
            &&& in_place(
                Some(Compression::Oodle),
                data,
                spans,
                uncompressed,
                block_size,
                has_oodle,
            ) <==> (has_oodle ==> room && all && (n > 0 ==> (n - 1) * size <= uncompressed))
        }),
{
    let n = spans.len();
    let total = uncompressed as int;
    let size = chunk_size(n, uncompressed, block_size);
    let used = blocks_used(n, total, size);
    if size > 0 {
        if uncompressed <= 0x4000_0000 && data.len() <= 0x40_0000 {
            assert forall|i: int|
                0 <= i < used && (#[trigger] spans[i]).within(data.len()) implies countable(
                spans[i].of(data),
                chunk_len(total, size, i) as nat,
            ) by {
                lemma_used(n, total, size, i);
                lemma_next_chunk(total, size, i);
                lemma_countable(spans[i].of(data), chunk_len(total, size, i) as nat);
            }
        }
        let needed = forall|i: int|
            0 <= i < n && i * size < total ==> (#[trigger] spans[i]).start <= spans[i].end
                <= data.len();
        if needed {
            assert forall|i: int| 0 <= i < used implies (#[trigger] spans[i]).within(
                data.len(),
            ) by {
                lemma_used(n, total, size, i);
            }
        }
        let counted = forall|i: int|
            0 <= i < n && i * size < total ==> countable(
                data.subrange((#[trigger] spans[i]).start as int, spans[i].end as int),
                (if size <= total - i * size {
                    size
                } else {
                    total - i * size
                }) as nat,
            );
        if counted {
            assert forall|i: int| 0 <= i < used implies countable(
                (#[trigger] spans[i]).of(data),
                chunk_len(total, size, i) as nat,
            ) by {
                lemma_used(n, total, size, i);
            }
        }
        if forall|i: int|
            0 <= i < used ==> countable(
                (#[trigger] spans[i]).of(data),
                chunk_len(total, size, i) as nat,
            ) {
            assert forall|i: int| 0 <= i < n && i * size < total implies countable(
                data.subrange((#[trigger] spans[i]).start as int, spans[i].end as int),
                (if size <= total - i * size {
                    size
                } else {
                    total - i * size
                }) as nat,
            ) by {
                lemma_used(n, total, size, i);
                assert(countable(spans[i].of(data), chunk_len(total, size, i) as nat));
            }
        }
        if forall|i: int| 0 <= i < used ==> (#[trigger] spans[i]).within(data.len()) {
            assert forall|i: int| 0 <= i < n && i * size < total implies (
            #[trigger] spans[i]).start <= spans[i].end <= data.len() by {
                lemma_used(n, total, size, i);
                assert(spans[i].within(data.len()));
            }
        }
    }
    if forall|i: int|
        0 <= i < n ==> (#[trigger] spans[i]).start <= spans[i].end <= data.len() {
        assert forall|i: int| 0 <= i < n implies (#[trigger] spans[i]).within(data.len()) by {}
    }
    if forall|i: int| 0 <= i < n ==> (#[trigger] spans[i]).within(data.len()) {
        assert forall|i: int| 0 <= i < n implies (#[trigger] spans[i]).start <= spans[i].end
            <= data.len() by {
            assert(spans[i].within(data.len()));
        }
    }
}

/// Only for Zstandard and Oodle does the caller bring a decompressor.
pub proof fn law_asks_caller(method: Option<Compression>)
    ensures
        asks_caller(method) <==> method == Some(Compression::Zstd) || method == Some(
            Compression::Oodle,
        ),
{
}

} // verus!
