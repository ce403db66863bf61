//! The compression methods.

use crate::error::{Error, IoError};
use crate::version::Compression;
use flate2::read::{GzDecoder, ZlibDecoder};
use flate2::write::{GzEncoder, ZlibEncoder};
use std::io::Write;
use vstd::prelude::*;

verus! {

/// What the zlib stream at the start of `src` holds, if it is complete and sound.
pub uninterp spec fn zlib_inflated(src: Seq<u8>) -> Option<Seq<u8>>;

/// What the gzip member at the start of `src` holds, if it is complete and sound.
pub uninterp spec fn gzip_inflated(src: Seq<u8>) -> Option<Seq<u8>>;

/// What the Zstandard frames in `src` hold, one after the other, if all are complete and sound.
pub uninterp spec fn zstd_frames(src: Seq<u8>) -> Option<Seq<u8>>;

/// A buffer that held `before`, after an LZ4 block was decompressed into it, if the block is
/// sound and the buffer has room for it.
pub uninterp spec fn lz4_decoded(src: Seq<u8>, before: Seq<u8>) -> Option<Seq<u8>>;

/// `std::io::copy` out of a `flate2::read::ZlibDecoder`: appends what the zlib stream in `src`
/// holds and tells how many bytes that is, or fails if it is not complete and sound. What has
/// been appended when it fails is not stated.
#[verifier::external_body]
pub(crate) fn zlib_decode(src: &[u8], out: &mut Vec<u8>) -> (r: Result<u64, std::io::Error>)
    ensures
        match r {
            Ok(n) => {
                &&& zlib_inflated(src@) is Some
                &&& n as nat == zlib_inflated(src@)->0.len()
                &&& final(out)@ == old(out)@ + zlib_inflated(src@)->0
            },
            Err(_) => zlib_inflated(src@) is None && old(out)@.is_prefix_of(final(out)@),
        },
{
    std::io::copy(&mut ZlibDecoder::new(src), out)
}

/// `std::io::copy` out of a `flate2::read::GzDecoder`: appends what the gzip member in `src`
/// holds and tells how many bytes that is, or fails if it is not complete and sound. What has
/// been appended when it fails is not stated.
#[verifier::external_body]
pub(crate) fn gzip_decode(src: &[u8], out: &mut Vec<u8>) -> (r: Result<u64, std::io::Error>)
    ensures
        match r {
            Ok(n) => {
                &&& gzip_inflated(src@) is Some
                &&& n as nat == gzip_inflated(src@)->0.len()
                &&& final(out)@ == old(out)@ + gzip_inflated(src@)->0
            },
            Err(_) => gzip_inflated(src@) is None && old(out)@.is_prefix_of(final(out)@),
        },
{
    std::io::copy(&mut GzDecoder::new(src), out)
}

/// `std::io::copy` out of a `zstd::stream::read::Decoder` into a buffer: puts what the frames in
/// `src` hold at the start of `dst`, or fails if one of them is not complete and sound or `dst`
/// has no room. What `dst` holds when it fails is not stated.
#[verifier::external_body]
pub(crate) fn zstd_decode(src: &[u8], dst: &mut [u8]) -> (r: Result<u64, std::io::Error>)
    ensures
        final(dst)@.len() == old(dst)@.len(),
        match r {
            Ok(n) => {
                &&& zstd_frames(src@) is Some
                &&& n as nat == zstd_frames(src@)->0.len() <= old(dst)@.len()
                &&& final(dst)@ == zstd_frames(src@)->0 + old(dst)@.skip(n as int)
            },
            Err(_) => zstd_frames(src@) is Some ==> zstd_frames(src@)->0.len() > old(dst)@.len(),
        },
{
    let mut dst: &mut [u8] = dst;
    let mut decoder = zstd::stream::read::Decoder::new(src)?;
    std::io::copy(&mut decoder, &mut dst)
}

/// How many bytes from `at` on are 0xFF.
pub open spec fn run_len(s: Seq<u8>, at: int) -> nat
    decreases s.len() - at,
{
    if 0 <= at < s.len() && s[at] == 0xff {
        1 + run_len(s, at + 1)
    } else {
        0
    }
}

/// The rest of a length that stands at `at` in an LZ4 block: a run of bytes 0xFF and the byte
/// behind it, all added up.
pub open spec fn extra_len(s: Seq<u8>, at: int) -> int {
    let end = at + run_len(s, at);
    255 * run_len(s, at) + if end < s.len() {
        s[end] as int
    } else {
        0
    }
}

/// Where the rest of a length that stands at `at` ends.
pub open spec fn extra_end(s: Seq<u8>, at: int) -> int {
    at + run_len(s, at) + 1
}

/// Whether the rest of a length can be added up in 32 bits, and the whole of it, which is that and
/// at most `more`, in a word of the machine.
pub open spec fn extra_fits(s: Seq<u8>, at: int, more: int) -> bool {
    extra_len(s, at) <= u32::MAX && more + extra_len(s, at) <= usize::MAX
}

/// Whether an LZ4 block that goes on at `at`, when `out` bytes of a buffer of `room` bytes are
/// full, has no length that cannot be added up, as far as the lengths are looked at: up to its
/// end, or to where it turns out not to be sound.
///
/// A block is a series of literals and matches. A byte tells the length of both in four bits each;
/// where these are all set, the rest of the length follows: for the literals in front of them, for
/// the match behind the two bytes that say how far back it lies. The last match is missing.
pub open spec fn lengths_fit(s: Seq<u8>, at: int, out: int, room: int) -> bool
    decreases s.len() - at,
{
    if !(0 <= at < s.len()) {
        true
    } else {
        let literal = (s[at] / 16) as int;
        let lit_more = literal == 15;
        let lit_len = literal + if lit_more {
            extra_len(s, at + 1)
        } else {
            0
        };
        let lit_at = if lit_more {
            extra_end(s, at + 1)
        } else {
            at + 1
        };
        let back_at = lit_at + lit_len;
        if lit_more && !extra_fits(s, at + 1, 15) {
            false
        } else if lit_len > s.len() - lit_at || lit_len > room - out || back_at + 2 > s.len() {
            true
        } else {
            let back = s[back_at] + 256 * s[back_at + 1];
            let matched = (s[at] % 16) as int;
            let match_more = matched == 15;
            let match_len = 4 + matched + if match_more {
                extra_len(s, back_at + 2)
            } else {
                0
            };
            let next = if match_more {
                extra_end(s, back_at + 2)
            } else {
                back_at + 2
            };
            let filled = out + lit_len + match_len;
            if back == 0 {
                true
            } else if match_more && !extra_fits(s, back_at + 2, out + lit_len + 19) {
                false
            } else if next > s.len() || filled > room || back > out + lit_len {
                true
            } else {
                lengths_fit(s, next, filled, room)
            }
        }
    }
}

/// Whether an LZ4 block that is decompressed into a buffer of `room` bytes has no length that
/// cannot be added up.
pub open spec fn countable(s: Seq<u8>, room: nat) -> bool {
    lengths_fit(s, 0, 0, room as int)
}

/// The rest of a length that stands in an LZ4 block.
enum Extra {
    /// It cannot be added up.
    TooLong,
    /// The block ends before it does.
    Cut,
    Len { len: usize, end: usize },
}

/// Adds up the rest of a length.
fn extra_at(s: &[u8], at: usize, more: usize) -> (r: Extra)
    requires
        at <= s@.len(),
    ensures
        r is TooLong <==> !extra_fits(s@, at as int, more as int),
        r is Cut ==> extra_end(s@, at as int) > s@.len(),
        r matches Extra::Len { len, end } ==> {
            &&& len == extra_len(s@, at as int)
            &&& end == extra_end(s@, at as int) <= s@.len()
        },
{
    let ghost run = run_len(s@, at as int);
    let mut sum: u64 = 0;
    let mut end: usize = at;
    while end < s.len() && s[end] == 0xff
        invariant
            at <= end <= s@.len(),
            sum == 255 * (end - at),
            sum <= u32::MAX,
            run == run_len(s@, at as int),
            run == (end - at) + run_len(s@, end as int),
        decreases s@.len() - end,
    {
        sum += 255;
        end += 1;
        if sum > u32::MAX as u64 {
            return Extra::TooLong;
        }
    }
    if end < s.len() {
        sum += s[end] as u64;
    }
    assert(sum == extra_len(s@, at as int));
    if sum > u32::MAX as u64 || sum > (usize::MAX - more) as u64 {
        Extra::TooLong
    } else if end < s.len() {
        Extra::Len { len: sum as usize, end: end + 1 }
    } else {
        Extra::Cut
    }
}

pub fn is_countable(s: &[u8], room: usize) -> (r: bool)
    ensures
        r == countable(s@, room as nat),
{
    let mut at: usize = 0;
    let mut out: usize = 0;
    while at < s.len()
        invariant
            at <= s@.len(),
            out <= room,
            countable(s@, room as nat) == lengths_fit(s@, at as int, out as int, room as int),
        decreases s@.len() - at,
    {
        let token: u8 = s[at];
        let mut lit_len: usize = (token / 16) as usize;
        let mut lit_at: usize = at + 1;
        if lit_len == 15 {
            match extra_at(s, lit_at, 15) {
                Extra::TooLong => return false,
                Extra::Cut => return true,
                Extra::Len { len, end } => {
                    lit_len += len;
                    lit_at = end;
                },
            }
        }
        if lit_len > s.len() - lit_at || lit_len > room - out {
            return true;
        }
        let back_at: usize = lit_at + lit_len;
        out += lit_len;
        if s.len() - back_at < 2 {
            return true;
        }
        let back: usize = s[back_at] as usize + 256 * s[back_at + 1] as usize;
        if back == 0 {
            return true;
        }
        let mut match_len: usize = 4 + (token % 16) as usize;
        let mut next: usize = back_at + 2;
        if match_len == 19 {
            if out > usize::MAX - 19 {
                return false;
            }
            match extra_at(s, next, out + 19) {
                Extra::TooLong => return false,
                Extra::Cut => return true,
                Extra::Len { len, end } => {
                    match_len += len;
                    next = end;
                },
            }
        }
        if match_len > room - out || back > out {
            return true;
        }
        out += match_len;
        at = next;
    }
    true
}

proof fn lemma_run_len(s: Seq<u8>, at: int)
    ensures
        0 <= at <= s.len() ==> at + run_len(s, at) <= s.len(),
    decreases s.len() - at,
{
    if 0 <= at < s.len() && s[at] == 0xff {
        lemma_run_len(s, at + 1);
    }
}

/// In a block that is not very long, no length is too long.
proof fn lemma_lengths_fit(s: Seq<u8>, at: int, out: int, room: int)
    requires
        s.len() <= 0x40_0000,
        room <= 0x4000_0000,
        0 <= at,
        0 <= out <= room,
    ensures
        lengths_fit(s, at, out, room),
    decreases s.len() - at,
{
    if at < s.len() {
        lemma_run_len(s, at + 1);
        let literal = (s[at] / 16) as int;
        let lit_more = literal == 15;
        let lit_len = literal + if lit_more {
            extra_len(s, at + 1)
        } else {
            0
        };
        let lit_at = if lit_more {
            extra_end(s, at + 1)
        } else {
            at + 1
        };
        let back_at = lit_at + lit_len;
        if lit_len <= s.len() - lit_at && back_at + 2 <= s.len() {
            lemma_run_len(s, back_at + 2);
            let matched = (s[at] % 16) as int;
            let match_more = matched == 15;
            let match_len = 4 + matched + if match_more {
                extra_len(s, back_at + 2)
            } else {
                0
            };
            let next = if match_more {
                extra_end(s, back_at + 2)
            } else {
                back_at + 2
            };
            let filled = out + lit_len + match_len;
            if next <= s.len() && filled <= room {
                lemma_lengths_fit(s, next, filled, room);
            }
        }
    }
}

/// A block that is not very long can be decompressed into a buffer that is not very long.
pub proof fn lemma_countable(s: Seq<u8>, room: nat)
    requires
        s.len() <= 0x40_0000,
        room <= 0x4000_0000,
    ensures
        countable(s, room),
{
    lemma_lengths_fit(s, 0, 0, room as int);
}

/// `lz4_flex::block::decompress_into`: decompresses a block into a buffer, or fails if it is not
/// sound or the buffer has no room. The buffer then depends on the block and on what it held
/// before. The decoder adds up the rest of a length in 32 bits, and lengths and positions in a word
/// of the machine: hence the bound. What the buffer holds when it fails is not stated.
#[verifier::external_body]
pub(crate) fn lz4_decode(src: &[u8], dst: &mut [u8]) -> (r: bool)
    requires
        countable(src@, old(dst)@.len()),
    ensures
        final(dst)@.len() == old(dst)@.len(),
        r == lz4_decoded(src@, old(dst)@) is Some,
        r ==> final(dst)@ == lz4_decoded(src@, old(dst)@)->0,
{
    lz4_flex::block::decompress_into(src, dst).is_ok()
}

/// The zlib stream that `flate2` makes of `data` at this level.
pub uninterp spec fn zlib_packed(data: Seq<u8>, level: nat) -> Seq<u8>;

/// The gzip member that `flate2` makes of `data` at this level.
pub uninterp spec fn gzip_packed(data: Seq<u8>, level: nat) -> Seq<u8>;

/// The frame that the Zstandard library makes of `data` at this level.
pub uninterp spec fn zstd_packed(data: Seq<u8>, level: nat) -> Seq<u8>;

/// `flate2::write::ZlibEncoder` (`write_all` and `finish`): a zlib stream that holds `data`, in a
/// vector, which is never longer than `isize::MAX`. Writing to a vector does not fail. The stream
/// depends on `data` and the level alone; which of the many that hold `data` it is is not stated.
#[verifier::external_body]
fn zlib_encode(data: &[u8], level: u32) -> (r: Result<Vec<u8>, std::io::Error>)
    requires
        level <= 9,
    ensures
        r is Ok,
        r->Ok_0@ == zlib_packed(data@, level as nat),
        zlib_inflated(r->Ok_0@) == Some(data@),
        r->Ok_0@.len() <= isize::MAX,
{
    let mut encoder = ZlibEncoder::new(Vec::new(), flate2::Compression::new(level));
    encoder.write_all(data)?;
    encoder.finish()
}

/// `flate2::write::GzEncoder` (`write_all` and `finish`): a gzip member that holds `data`, in a
/// vector, which is never longer than `isize::MAX`. Writing to a vector does not fail. The member
/// depends on `data` and the level alone; which of the many that hold `data` it is is not stated.
#[verifier::external_body]
fn gzip_encode(data: &[u8], level: u32) -> (r: Result<Vec<u8>, std::io::Error>)
    requires
        level <= 9,
    ensures
        r is Ok,
        r->Ok_0@ == gzip_packed(data@, level as nat),
        gzip_inflated(r->Ok_0@) == Some(data@),
        r->Ok_0@.len() <= isize::MAX,
{
    let mut encoder = GzEncoder::new(Vec::new(), flate2::Compression::new(level));
    encoder.write_all(data)?;
    encoder.finish()
}

/// Up to this length of the data, the Zstandard library makes the same frame on every machine.
pub const ZSTD_SAME_LEN: usize = 0x4000_0000;

/// `zstd::stream::encode_all` at one of the lowest levels, where zero stands for three: a
/// Zstandard frame that holds `data`, in a vector, which is never longer than `isize::MAX`. With
/// such a level and a vector to write to it does not fail, lack of memory aside. Unless `data` is
/// very long the frame depends on it and the level alone; which of the many frames that hold
/// `data` it is is not stated.
#[verifier::external_body]
fn zstd_encode(data: &[u8], level: i32) -> (r: Result<Vec<u8>, std::io::Error>)
    requires
        0 <= level <= 3,
    ensures
        r is Ok,
        data@.len() <= ZSTD_SAME_LEN ==> r->Ok_0@ == zstd_packed(data@, level as nat),
        zstd_frames(r->Ok_0@) == Some(data@),
        r->Ok_0@.len() <= isize::MAX,
{
    zstd::stream::encode_all(data, level)
}

/// `lz4_flex::block::compress`: an LZ4 block that turns a buffer of the length of `data` into
/// `data`, unless it has a length that the decoder cannot add up, and that is at most a tenth and
/// twenty bytes longer. Which of the many blocks that do so it is depends on the word size and
/// byte order of the machine, and is not stated.
#[verifier::external_body]
fn lz4_encode(data: &[u8]) -> (c: Vec<u8>)
    requires
        data@.len() * 110 <= usize::MAX,
        20 + data@.len() * 110 / 100 <= isize::MAX,
    ensures
        countable(c@, data@.len()) ==> forall|before: Seq<u8>|
            before.len() == data@.len() ==> #[trigger] lz4_decoded(c@, before) == Some(data@),
        c@.len() <= 20 + data@.len() * 110 / 100,
{
    lz4_flex::block::compress(data)
}

/// Whether `packed` is something from which the method restores `data`: LZ4 as long as it can add
/// up the lengths. Of Oodle nothing is known.
pub open spec fn restores(method: Compression, data: Seq<u8>, packed: Seq<u8>) -> bool {
    match method {
        Compression::Zlib => zlib_inflated(packed) == Some(data),
        Compression::Gzip => gzip_inflated(packed) == Some(data),
        Compression::Zstd => zstd_frames(packed) == Some(data),
        Compression::LZ4 => {
            &&& countable(packed, data.len()) ==> forall|before: Seq<u8>|
                before.len() == data.len() ==> #[trigger] lz4_decoded(packed, before) == Some(data)
            &&& packed.len() <= 20 + data.len() * 110 / 100
        },
        Compression::Oodle => false,
    }
}

/// Whether the method can be given so many bytes at once.
pub open spec fn encodable_len(method: Compression, len: nat) -> bool {
    method == Compression::LZ4 ==> len * 110 <= usize::MAX && 20 + len * 110 / 100 <= isize::MAX
}

/// The level at which zlib streams and gzip members are made: the fastest.
pub const DEFLATE_LEVEL: u32 = 1;

/// The level at which Zstandard frames are made: the default one.
pub const ZSTD_LEVEL: i32 = 0;

/// Whether `packed` is what the method makes of `data`: something from which it restores `data`
/// and, as far as the machine does not matter, always the same.
pub open spec fn encoded_as(method: Compression, data: Seq<u8>, packed: Seq<u8>) -> bool {
    &&& restores(method, data, packed)
    &&& match method {
        Compression::Zlib => packed == zlib_packed(data, DEFLATE_LEVEL as nat),
        Compression::Gzip => packed == gzip_packed(data, DEFLATE_LEVEL as nat),
        Compression::Zstd => data.len() <= ZSTD_SAME_LEN ==> packed == zstd_packed(
            data,
            ZSTD_LEVEL as nat,
        ),
        _ => true,
    }
}

/// Compresses `data` by any method but Oodle.
pub fn encode(method: Compression, data: &[u8]) -> (r: Result<Vec<u8>, Error>)
    requires
        method != Compression::Oodle,
        encodable_len(method, data@.len()),
    ensures
        match r {
            Ok(c) => encoded_as(method, data@, c@) && c@.len() <= isize::MAX,
            Err(_) => false,
        },
{
    let encoded = match method {
        Compression::Zlib => zlib_encode(data, DEFLATE_LEVEL),
        Compression::Gzip => gzip_encode(data, DEFLATE_LEVEL),
        Compression::Zstd => zstd_encode(data, ZSTD_LEVEL),
        _ => Ok(lz4_encode(data)),
    };
    match encoded {
        Ok(c) => Ok(c),
        Err(e) => Err(Error::Io(IoError::Codec(e))),
    }
}

/// `packed` is what a method makes of `data`; for Oodle, what the compressor that was handed in
/// gives.
pub open spec fn compressed_as<O: Fn(&[u8]) -> Result<Vec<u8>, Error>>(
    method: Compression,
    oodle: O,
    data: Seq<u8>,
    packed: Seq<u8>,
) -> bool {
    if method == Compression::Oodle {
        exists|s: &[u8], made: Vec<u8>|
            {
                &&& s@ == data
                &&& #[trigger] call_ensures(oodle, (s,), Ok(made))
                &&& packed == made@
            }
    } else {
        encoded_as(method, data, packed)
    }
}

/// Compresses `data`. There is no Oodle compressor in this library: one is handed in.
pub fn compress<O: Fn(&[u8]) -> Result<Vec<u8>, Error>>(
    compression: Compression,
    data: &[u8],
    oodle: &O,
) -> (r: Result<Vec<u8>, Error>)
    requires
        encodable_len(compression, data@.len()),
        compression == Compression::Oodle ==> call_requires(*oodle, (data,)),
    ensures
        match r {
            Ok(c) => compressed_as(compression, *oodle, data@, c@),
            Err(e) => compression == Compression::Oodle && call_ensures(
                *oodle,
                (data,),
                Err(e),
            ),
        },
{
    match compression {
        Compression::Oodle => oodle(data),
        _ => encode(compression, data),
    }
}

/// What each method makes of data, and that it is the method's own decoder that restores it.
pub proof fn law_encoded_as(method: Compression, data: Seq<u8>, packed: Seq<u8>)
    requires
        encoded_as(method, data, packed),
    ensures
        method != Compression::Oodle,
        method == Compression::Zlib ==> packed == zlib_packed(data, 1) && zlib_inflated(packed)
            == Some(data),
        method == Compression::Gzip ==> packed == gzip_packed(data, 1) && gzip_inflated(packed)
            == Some(data),
        method == Compression::Zstd ==> (data.len() <= 0x4000_0000 ==> packed == zstd_packed(
            data,
            0,
        )) && zstd_frames(packed) == Some(data),
        method == Compression::LZ4 && packed.len() <= 0x40_0000 && data.len() <= 0x4000_0000
            ==> forall|before: Seq<u8>|
            before.len() == data.len() ==> #[trigger] lz4_decoded(packed, before) == Some(data),
        method == Compression::LZ4 ==> packed.len() <= 20 + data.len() * 110 / 100,
{
    if method == Compression::LZ4 && packed.len() <= 0x40_0000 && data.len() <= 0x4000_0000 {
        lemma_countable(packed, data.len());
    }
}

/// What a run of bytes 0xFF is, and the rest of a length that it starts.
pub proof fn law_extra_len(s: Seq<u8>, at: int)
    requires
        0 <= at < s.len(),
    ensures
        s[at] != 0xff ==> extra_len(s, at) == s[at] && extra_end(s, at) == at + 1,
        s[at] == 0xff && at + 1 < s.len() ==> extra_len(s, at) == 255 + extra_len(s, at + 1)
            && extra_end(s, at) == extra_end(s, at + 1),
        s[at] == 0xff && at + 1 == s.len() ==> extra_len(s, at) == 255 && extra_end(s, at)
            > s.len(),
{
    reveal_with_fuel(run_len, 3);
}

/// A block is refused only for a length in it that is too long, and its first length is one.
pub proof fn law_countable(s: Seq<u8>, room: nat)
    ensures
        (forall|at: int|
            0 <= at <= s.len() ==> #[trigger] extra_len(s, at) <= u32::MAX && room + 19 + extra_len(
                s,
                at,
            ) <= usize::MAX) ==> countable(s, room),
        s.len() > 1 && s[0] >= 0xf0 && extra_len(s, 1) > u32::MAX ==> !countable(s, room),
        s.len() > 0 && s[0] < 0xf0 && s[0] % 16 == 15 && s[0] / 16 + 3 <= s.len() && s[0] / 16
            <= room && s[s[0] / 16 + 1] + 256 * s[s[0] / 16 + 2] > 0 && extra_len(
            s,
            s[0] / 16 + 3,
        ) > u32::MAX ==> !countable(s, room),
        s.len() > 1 && s[0] >= 0xf0 && extra_len(s, 1) <= u32::MAX && 15 + extra_len(s, 1)
            <= usize::MAX && extra_end(s, 1) + 15 + extra_len(s, 1) >= s.len() ==> countable(
            s,
            room,
        ),
{
    if forall|at: int|
        0 <= at <= s.len() ==> #[trigger] extra_len(s, at) <= u32::MAX && room + 19 + extra_len(
            s,
            at,
        ) <= usize::MAX {
        lemma_lengths_all_fit(s, 0, 0, room as int);
    }
    if s.len() > 1 {
        lemma_run_len(s, 1);
    }
}

proof fn lemma_lengths_all_fit(s: Seq<u8>, at: int, out: int, room: int)
    requires
        forall|at: int|
            0 <= at <= s.len() ==> #[trigger] extra_len(s, at) <= u32::MAX && room + 19 + extra_len(
                s,
                at,
            ) <= usize::MAX,
        0 <= at,
        0 <= out <= room,
    ensures
        lengths_fit(s, at, out, room),
    decreases s.len() - at,
{
    if at < s.len() {
        lemma_run_len(s, at + 1);
        assert(extra_len(s, at + 1) <= u32::MAX);
        let literal = (s[at] / 16) as int;
        let lit_more = literal == 15;
        let lit_len = literal + if lit_more {
            extra_len(s, at + 1)
        } else {
            0
        };
        let lit_at = if lit_more {
            extra_end(s, at + 1)
        } else {
            at + 1
        };
        let back_at = lit_at + lit_len;
        if lit_len <= s.len() - lit_at && lit_len <= room - out && back_at + 2 <= s.len() {
            lemma_run_len(s, back_at + 2);
            assert(extra_len(s, back_at + 2) <= u32::MAX);
            let matched = (s[at] % 16) as int;
            let match_more = matched == 15;
            let match_len = 4 + matched + if match_more {
                extra_len(s, back_at + 2)
            } else {
                0
            };
            let next = if match_more {
                extra_end(s, back_at + 2)
            } else {
                back_at + 2
            };
            let filled = out + lit_len + match_len;
            if next <= s.len() && filled <= room {
                lemma_lengths_all_fit(s, next, filled, room);
            }
        }
    }
}

/// An Oodle block is what the compressor that was handed in gives for the same bytes, and only the
/// length that LZ4 is given at once is bounded.
pub proof fn law_compressed_as<O: Fn(&[u8]) -> Result<Vec<u8>, Error>>(
    method: Compression,
    oodle: O,
    data: Seq<u8>,
    packed: Seq<u8>,
)
    ensures
        method != Compression::Oodle ==> compressed_as(method, oodle, data, packed) == encoded_as(
            method,
            data,
            packed,
        ),
        method == Compression::Oodle && compressed_as(method, oodle, data, packed) ==> exists|
            s: &[u8],
            made: Vec<u8>,
        |
            s@ == data && made@ == packed && #[trigger] call_ensures(oodle, (s,), Ok(made)),
        encodable_len(method, data.len()) <==> method != Compression::LZ4 || (data.len() * 110
            <= usize::MAX && 20 + data.len() * 110 / 100 <= isize::MAX),
{
}

} // verus!
