//! Where each field of a header or footer stands, in plain numbers.
//!
//! The versions group as follows. The first three know neither flags nor blocks; `V1` alone stores
//! a time; `V8A` alone stores the slot in one byte. From `V4` on a footer tells whether the index
//! is encrypted, from `V7` on by which key, and `V9` alone whether it is frozen; `V8A` lists four
//! methods and later versions five.

use crate::bytes::{
    le_at, le_bytes, le_limit, le_value, lemma_found, lemma_le_bytes_len, lemma_le_bytes_of_value,
    lemma_le_limits, lemma_one_byte,
};
use crate::encoded::{
    bit, bits_block_count, bits_block_size, bits_encrypted, bits_slot, block_size_fits, block_sizes,
    block_sizes_at, block_sizes_bytes, block_start, compressed_at, encoded_addressable,
    encoded_bytes, encoded_entry, encoded_fields, encoded_fits, encoded_len, lemma_bits_apart,
    lemma_block_start_bound, lemma_sizes_found, lemma_var_found, lemma_var_len, offset_at,
    packed_bits, packed_block_count, packed_block_size, packs_block_sizes, sizes_at,
    stores_block_sizes, uncompressed_at, var_bytes, var_width,
};
use crate::entry::{
    aligned, block_at, block_bytes, blocks_bytes, entry_bytes, hash_at, header_entry, header_fits,
    header_flags_at, header_has_blocks, header_len, leading_bytes, lemma_blocks_bytes_len,
    lemma_leading_found, lemma_leading_len, lemma_stored_blocks_found, lemma_trailing_len,
    slot_code, slot_storable, slot_width, stored_blocks, stores_flags, trailing_bytes, Block, Entry,
    EntryLocation, EntryView,
};
use crate::error::{Error, IoError};
use crate::footer::{
    algo_count, footer_bytes, footer_error, footer_len, footer_view, lemma_names_bytes, magic_at,
    method_at, name_field, names_at, names_bytes, FooterView,
};
use crate::version::{lemma_from_repr, lemma_names_differ, Compression, Version, VersionMajor};
use vstd::prelude::*;

verus! {

/// A number is stored least significant byte first.
pub proof fn law_little_endian(s: Seq<u8>, at: int)
    requires
        0 <= at,
    ensures
        at + 1 <= s.len() ==> le_at(s, at, 1) == s[at],
        at + 4 <= s.len() ==> le_at(s, at, 4) == s[at] + 0x100 * s[at + 1] + 0x1_0000 * s[at + 2]
            + 0x100_0000 * s[at + 3],
        at + 8 <= s.len() ==> le_at(s, at, 8) == s[at] + 0x100 * s[at + 1] + 0x1_0000 * s[at + 2]
            + 0x100_0000 * s[at + 3] + 0x1_0000_0000 * (s[at + 4] + 0x100 * s[at + 5] + 0x1_0000
            * s[at + 6] + 0x100_0000 * s[at + 7]),
        at + 16 <= s.len() ==> le_at(s, at, 16) == le_at(s, at, 8) + 0x1_0000_0000_0000_0000
            * le_at(s, at + 8, 8),
{
    reveal_with_fuel(le_value, 17);
    if at + 1 <= s.len() {
        lemma_one_byte(s[at]);
        assert(s.subrange(at, at + 1) =~= seq![s[at]]);
    }
    if at + 4 <= s.len() {
        lemma_four_bytes(s.subrange(at, at + 4));
    }
    if at + 8 <= s.len() {
        lemma_eight_bytes(s.subrange(at, at + 8));
    }
    if at + 16 <= s.len() {
        let all = s.subrange(at, at + 16);
        lemma_le_value_split(all.take(8), all.skip(8));
        assert(all.take(8) =~= s.subrange(at, at + 8));
        assert(all.skip(8) =~= s.subrange(at + 8, at + 16));
        assert(all =~= all.take(8) + all.skip(8));
        lemma_le_limits();
    }
}

proof fn lemma_four_bytes(s: Seq<u8>)
    requires
        s.len() == 4,
    ensures
        le_value(s) == s[0] + 0x100 * s[1] + 0x1_0000 * s[2] + 0x100_0000 * s[3],
{
    let a = s.drop_first();
    let b = a.drop_first();
    let c = b.drop_first();
    let d = c.drop_first();
    assert(le_value(d) == 0);
    assert(le_value(c) == c[0] && c[0] == s[3]);
    assert(le_value(b) == b[0] + 256 * le_value(c) && b[0] == s[2]);
    assert(le_value(a) == a[0] + 256 * le_value(b) && a[0] == s[1]);
}

proof fn lemma_le_value_split(a: Seq<u8>, b: Seq<u8>)
    ensures
        le_value(a + b) == le_value(a) + le_limit(a.len()) * le_value(b),
    decreases a.len(),
{
    if a.len() == 0 {
        assert(a + b =~= b);
        let one = le_limit(a.len());
        assert(one * le_value(b) == le_value(b)) by (nonlinear_arith)
            requires
                one == 1,
        ;
    } else {
        let rest = a.drop_first();
        lemma_le_value_split(rest, b);
        assert((a + b).drop_first() =~= rest + b);
        let l = le_limit(rest.len());
        assert((a + b)[0] == a[0]);
        assert(le_value(a + b) == a[0] + 256 * le_value(rest + b));
        assert(256 * (le_value(rest) + l * le_value(b)) == 256 * le_value(rest) + (256 * l)
            * le_value(b)) by (nonlinear_arith);
        assert(le_limit(a.len()) == 256 * l);
    }
}

proof fn lemma_eight_bytes(s: Seq<u8>)
    requires
        s.len() == 8,
    ensures
        le_value(s) == s[0] + 0x100 * s[1] + 0x1_0000 * s[2] + 0x100_0000 * s[3] + 0x1_0000_0000 * (
        s[4] + 0x100 * s[5] + 0x1_0000 * s[6] + 0x100_0000 * s[7]),
{
    let low = s.take(4);
    let high = s.skip(4);
    assert(s =~= low + high);
    lemma_le_value_split(low, high);
    lemma_four_bytes(low);
    lemma_four_bytes(high);
    lemma_le_limits();
}

/// The bytes of a number are those from which it is read.
pub proof fn law_little_endian_bytes(v: nat)
    ensures
        v < 0x1_0000_0000 ==> le_bytes(v, 4).len() == 4 && le_at(le_bytes(v, 4), 0, 4) == v,
        v < 0x1_0000_0000_0000_0000 ==> le_bytes(v, 8).len() == 8 && le_at(le_bytes(v, 8), 0, 8)
            == v,
{
    lemma_le_limits();
    lemma_le_bytes_len(v, 4);
    lemma_le_bytes_len(v, 8);
    assert(le_bytes(v, 4).subrange(0, 4) =~= le_bytes(v, 4));
    assert(le_bytes(v, 8).subrange(0, 8) =~= le_bytes(v, 8));
    if v < 0x1_0000_0000 {
        lemma_found(le_bytes(v, 4), 0, v, 4);
    }
    if v < 0x1_0000_0000_0000_0000 {
        lemma_found(le_bytes(v, 8), 0, v, 8);
    }
}

/// What stands where in a header that is read. The slot takes one byte in `V8A` and four in every
/// other version; the hash stands at 25 in `V8A`, at 36 in `V1`, which has a time in front of it,
/// and at 28 in every other version. Blocks, flags and the block size are missing in the first
/// three versions, and the blocks of a file that is not compressed in all.
#[verifier::rlimit(60)]
pub proof fn law_header_fields(s: Seq<u8>, version: Version)
    requires
        header_fits(s, version),
    ensures
        ({
            let e = header_entry(s, version);
            let w: int = if version == Version::V8A {
                1
            } else {
                4
            };
            let h: int = if version == Version::V8A {
                25
            } else if version == Version::V1 {
                36
            } else {
                28
            };
            &&& h + 20 <= s.len()
            &&& e.offset == le_at(s, 0, 8)
            &&& e.compressed == le_at(s, 8, 8)
            &&& e.uncompressed == le_at(s, 16, 8)
            &&& e.compression_slot is None <==> le_at(s, 24, w) == 0
            &&& e.compression_slot matches Some(n) ==> le_at(s, 24, w) == n + 1
            &&& e.timestamp is Some <==> version == Version::V1
            &&& e.timestamp matches Some(t) ==> t == le_at(s, 28, 8)
            &&& e.hash == Some(s.subrange(h, h + 20))
            &&& if version == Version::V0 || version == Version::V1 || version == Version::V2 {
                &&& e.blocks is None
                &&& e.flags == 0
                &&& e.compression_block_size == 0
                &&& header_len(s, version) == h + 20
            } else {
                let n = if le_at(s, 24, w) == 0 {
                    0
                } else {
                    le_at(s, h + 20, 4)
                };
                let f = if le_at(s, 24, w) == 0 {
                    h + 20
                } else {
                    h + 24 + 16 * n
                };
                &&& e.blocks is Some <==> le_at(s, 24, w) != 0
                &&& e.blocks matches Some(b) ==> b.len() == n && forall|i: int|
                    0 <= i < n ==> (#[trigger] b[i]).start == le_at(s, h + 24 + 16 * i, 8)
                        && b[i].end == le_at(s, h + 32 + 16 * i, 8)
                &&& e.flags == s[f]
                &&& e.compression_block_size == le_at(s, f + 1, 4)
                &&& header_len(s, version) == f + 5
            }
        }),
{
    lemma_read_range(s, 0, 8);
    lemma_read_range(s, 8, 8);
    lemma_read_range(s, 16, 8);
    let w = slot_width(version);
    let h = hash_at(version);
    lemma_read_range(s, 24, w);
    if version == Version::V1 {
        lemma_read_range(s, 28, 8);
    }
    if stores_flags(version) {
        let f = header_flags_at(s, version);
        if header_has_blocks(s, version) {
            lemma_read_range(s, h + 20, 4);
            let n = le_at(s, h + 20, 4) as int;
            assert forall|i: int| 0 <= i < n implies (#[trigger] header_entry(
                s,
                version,
            ).blocks->0[i]).start == le_at(s, h + 24 + 16 * i, 8) && header_entry(
                s,
                version,
            ).blocks->0[i].end == le_at(s, h + 32 + 16 * i, 8) by {
                lemma_read_range(s, h + 24 + 16 * i, 8);
                lemma_read_range(s, h + 32 + 16 * i, 8);
            }
        }
        lemma_read_range(s, f + 1, 4);
    }
}

/// A number of so many bytes has room in the type that it is read into.
proof fn lemma_read_range(s: Seq<u8>, at: int, n: int)
    requires
        0 <= at,
        at + n <= s.len(),
        n == 1 || n == 4 || n == 8 || n == 16,
    ensures
        n == 1 ==> le_at(s, at, n) <= u8::MAX,
        n == 4 ==> le_at(s, at, n) <= u32::MAX,
        n == 8 ==> le_at(s, at, n) <= u64::MAX,
        n == 16 ==> le_at(s, at, n) <= u128::MAX,
{
    lemma_le_limits();
    lemma_le_bytes_of_value(s.subrange(at, at + n));
}

/// A header can be read if and only if all of its bytes are there.
pub proof fn law_header_fits(s: Seq<u8>, version: Version)
    ensures
        ({
            let w: int = if version == Version::V8A {
                1
            } else {
                4
            };
            let h: int = if version == Version::V8A {
                25
            } else if version == Version::V1 {
                36
            } else {
                28
            };
            header_fits(s, version) <==> if version == Version::V0 || version == Version::V1
                || version == Version::V2 {
                h + 20 <= s.len()
            } else if h + 20 <= s.len() && le_at(s, 24, w) == 0 {
                h + 25 <= s.len()
            } else {
                h + 24 <= s.len() && h + 29 + 16 * le_at(s, h + 20, 4) <= s.len()
            }
        }),
{
}

/// What stands where in a header that is written, and how long it is. In front of the data it
/// says nothing of its own position.
#[verifier::rlimit(60)]
pub proof fn law_header_bytes(e: EntryView, version: Version, location: EntryLocation)
    requires
        e.hash is Some,
        e.hash->0.len() == 20,
        e.compression_slot matches Some(n) ==> n < if version == Version::V8A {
            0xff
        } else {
            u32::MAX
        },
        e.blocks matches Some(b) ==> b.len() <= u32::MAX,
    ensures
        ({
            let b = entry_bytes(e, version, location);
            let w: int = if version == Version::V8A {
                1
            } else {
                4
            };
            let h: int = if version == Version::V8A {
                25
            } else if version == Version::V1 {
                36
            } else {
                28
            };
            let n: int = match e.blocks {
                Some(blocks) => blocks.len() as int,
                None => 0,
            };
            let f: int = match e.blocks {
                Some(_) => h + 24 + 16 * n,
                None => h + 20,
            };
            &&& b.len() == if version == Version::V0 || version == Version::V1 || version
                == Version::V2 {
                h + 20
            } else {
                f + 5
            }
            &&& le_at(b, 0, 8) == if location == EntryLocation::Index {
                e.offset
            } else {
                0
            }
            &&& le_at(b, 8, 8) == e.compressed
            &&& le_at(b, 16, 8) == e.uncompressed
            &&& le_at(b, 24, w) == match e.compression_slot {
                Some(slot) => slot + 1,
                None => 0,
            }
            &&& version == Version::V1 ==> le_at(b, 28, 8) == match e.timestamp {
                Some(t) => t,
                None => 0,
            }
            &&& b.subrange(h, h + 20) == e.hash->0
            &&& version != Version::V0 && version != Version::V1 && version != Version::V2 ==> {
                &&& e.blocks matches Some(blocks) ==> le_at(b, h + 20, 4) == n && forall|i: int|
                    0 <= i < n ==> (#[trigger] blocks[i]).start == le_at(b, h + 24 + 16 * i, 8)
                        && blocks[i].end == le_at(b, h + 32 + 16 * i, 8)
                &&& b[f] == e.flags
                &&& le_at(b, f + 1, 4) == e.compression_block_size
            }
        }),
{
    let b = entry_bytes(e, version, location);
    let h = hash_at(version);
    lemma_leading_len(e, version, location);
    lemma_trailing_len(e, version);
    assert(b.take(h) =~= leading_bytes(e, version, location));
    lemma_leading_found(e, version, location, b);
    lemma_slot_code_found(e, version, location);
    assert(b.subrange(h, h + 20) =~= e.hash->0);
    if stores_flags(version) {
        lemma_trailing_found(e, version, location);
    }
}

#[verifier::rlimit(60)]
proof fn lemma_trailing_found(e: EntryView, version: Version, location: EntryLocation)
    requires
        stores_flags(version),
        e.hash is Some,
        e.hash->0.len() == 20,
        e.blocks matches Some(b) ==> b.len() <= u32::MAX,
    ensures
        ({
            let b = entry_bytes(e, version, location);
            let o = hash_at(version) + 20;
            let f: int = match e.blocks {
                Some(blocks) => o + 4 + 16 * blocks.len(),
                None => o,
            };
            &&& e.blocks matches Some(blocks) ==> le_at(b, o, 4) == blocks.len() && forall|i: int|
                0 <= i < blocks.len() ==> (#[trigger] blocks[i]).start == le_at(
                    b,
                    o + 4 + 16 * i,
                    8,
                ) && blocks[i].end == le_at(b, o + 12 + 16 * i, 8)
            &&& b[f] == e.flags
            &&& le_at(b, f + 1, 4) == e.compression_block_size
        }),
{
    let trail = trailing_bytes(e, version);
    let front = leading_bytes(e, version, location) + e.hash->0;
    let o = hash_at(version) + 20;
    lemma_leading_len(e, version, location);
    lemma_trailing_len(e, version);
    lemma_trailing_fields(e, version);
    let f: int = match e.blocks {
        Some(blocks) => 4 + 16 * blocks.len() as int,
        None => 0,
    };
    lemma_behind_front(front, trail, f + 1, 4);
    if let Some(blocks) = e.blocks {
        lemma_behind_front(front, trail, 0, 4);
        assert forall|i: int| 0 <= i < blocks.len() implies (#[trigger] blocks[i]).start == le_at(
            front + trail,
            o + 4 + 16 * i,
            8,
        ) && blocks[i].end == le_at(front + trail, o + 12 + 16 * i, 8) by {
            lemma_behind_front(front, trail, 4 + 16 * i, 8);
            lemma_behind_front(front, trail, 12 + 16 * i, 8);
            assert(blocks[i].start == le_at(trail, 4 + 16 * i, 8));
        }
    }
}

proof fn lemma_behind_front(front: Seq<u8>, back: Seq<u8>, at: int, n: int)
    requires
        0 <= at,
        0 <= n,
        at + n <= back.len(),
    ensures
        le_at(front + back, front.len() + at, n) == le_at(back, at, n),
{
    assert((front + back).subrange(front.len() + at, front.len() + at + n) =~= back.subrange(
        at,
        at + n,
    ));
}

#[verifier::rlimit(60)]
proof fn lemma_trailing_fields(e: EntryView, version: Version)
    requires
        stores_flags(version),
        e.blocks matches Some(b) ==> b.len() <= u32::MAX,
    ensures
        ({
            let b = trailing_bytes(e, version);
            let f: int = match e.blocks {
                Some(blocks) => 4 + 16 * blocks.len() as int,
                None => 0,
            };
            &&& e.blocks matches Some(blocks) ==> le_at(b, 0, 4) == blocks.len() && forall|i: int|
                0 <= i < blocks.len() ==> (#[trigger] blocks[i]).start == le_at(b, 4 + 16 * i, 8)
                    && blocks[i].end == le_at(b, 12 + 16 * i, 8)
            &&& b[f] == e.flags
            &&& le_at(b, f + 1, 4) == e.compression_block_size
        }),
{
    let b = trailing_bytes(e, version);
    let size = le_bytes(e.compression_block_size as nat, 4);
    lemma_trailing_len(e, version);
    lemma_le_limits();
    lemma_le_bytes_len(e.compression_block_size as nat, 4);
    let listed = match e.blocks {
        Some(blocks) => le_bytes((blocks.len() as u32) as nat, 4) + blocks_bytes(blocks),
        None => Seq::empty(),
    };
    let f = listed.len() as int;
    assert(b == listed.push(e.flags) + size);
    if let Some(blocks) = e.blocks {
        let n = blocks.len() as int;
        lemma_le_bytes_len(blocks.len(), 4);
        lemma_blocks_bytes_len(blocks);
        assert(b.subrange(0, 4) =~= le_bytes(blocks.len(), 4));
        assert(b.subrange(4, 4 + 16 * n) =~= blocks_bytes(blocks));
        lemma_stored_blocks_found(b, 0, blocks);
        let found = stored_blocks(b, 0);
        assert forall|i: int| 0 <= i < n implies (#[trigger] blocks[i]).start == le_at(
            b,
            4 + 16 * i,
            8,
        ) && blocks[i].end == le_at(b, 12 + 16 * i, 8) by {
            assert(found[i] == blocks[i]);
            lemma_read_range(b, 4 + 16 * i, 8);
            lemma_read_range(b, 12 + 16 * i, 8);
        }
    }
    assert(b[f] == e.flags);
    assert(b.subrange(f + 1, f + 5) =~= size);
    lemma_found(b, f + 1, e.compression_block_size as nat, 4);
}

proof fn lemma_slot_code_found(e: EntryView, version: Version, location: EntryLocation)
    requires
        slot_storable(e.compression_slot, version),
        e.hash is Some,
    ensures
        le_at(entry_bytes(e, version, location), 24, slot_width(version))
            == slot_code(e.compression_slot),
{
    let b = entry_bytes(e, version, location);
    let w = slot_width(version);
    let code = slot_code(e.compression_slot);
    lemma_leading_len(e, version, location);
    lemma_le_limits();
    lemma_le_bytes_len(0, 8);
    lemma_le_bytes_len(e.offset as nat, 8);
    lemma_le_bytes_len(e.compressed as nat, 8);
    lemma_le_bytes_len(e.uncompressed as nat, 8);
    lemma_le_bytes_len(code, w as nat);
    assert(b.subrange(24, 24 + w) =~= le_bytes(code, w as nat));
    lemma_found(b, 24, code, w as nat);
}

/// How long a header is said to be: 49 bytes in the first versions, and eight more in the one that
/// stores a time, 50 in `V8A` and 53 in every later one; and, for a file that is compressed, four
/// and sixteen for each block.
pub proof fn law_serialized_size_in_numbers(
    version: Version,
    compression: Option<u32>,
    block_count: u32,
)
    ensures
        Entry::serialized_size(version, compression, block_count) == (if version == Version::V1 {
            57int
        } else if version == Version::V0 || version == Version::V2 {
            49
        } else if version == Version::V8A {
            50
        } else {
            53
        }) + if compression is Some {
            4 + 16 * block_count
        } else {
            0
        },
{
}

/// The lowest bit of the flags says that a file is encrypted, and the next that it is deleted.
pub proof fn law_flags(e: EntryView)
    ensures
        e.is_encrypted() <==> e.flags % 2 == 1,
        e.is_deleted() <==> e.flags / 2 % 2 == 1,
{
    let flags = e.flags;
    assert((flags & 1 != 0) == (flags % 2 == 1)) by (bit_vector);
    assert(((flags >> 1) & 1 != 0) == (flags / 2 % 2 == 1)) by (bit_vector);
}

/// The parts of the first number of a packed header, by division.
proof fn lemma_bits_by_division(bits: u32)
    ensures
        bits_block_size(bits) == bits % 64,
        bits_block_count(bits) == bits / 64 % 0x1_0000,
        bits_encrypted(bits) == (bits / 0x40_0000 % 2 == 1),
        (bits >> 23) & 0x3f == bits / 0x80_0000 % 64,
        (bits & (1u32 << 29) != 0) == (bits / 0x2000_0000 % 2 == 1),
        (bits & (1u32 << 30) != 0) == (bits / 0x4000_0000 % 2 == 1),
        (bits & (1u32 << 31) != 0) == (bits / 0x8000_0000 % 2 == 1),
        bits % 64 < 63 ==> (bits % 64) << 11 == bits % 64 * 2048,
{
    assert(bits & 0x3f == bits % 64) by (bit_vector);
    assert((bits >> 6) & 0xffff == bits / 64 % 0x1_0000) by (bit_vector);
    assert((bits & (1u32 << 22) != 0) == (bits / 0x40_0000 % 2 == 1)) by (bit_vector);
    assert((bits >> 23) & 0x3f == bits / 0x80_0000 % 64) by (bit_vector);
    assert((bits & (1u32 << 29) != 0) == (bits / 0x2000_0000 % 2 == 1)) by (bit_vector);
    assert((bits & (1u32 << 30) != 0) == (bits / 0x4000_0000 % 2 == 1)) by (bit_vector);
    assert((bits & (1u32 << 31) != 0) == (bits / 0x8000_0000 % 2 == 1)) by (bit_vector);
    let units = bits % 64;
    assert(units < 63 ==> units << 11 == units * 2048) by (bit_vector);
}

/// What stands where in a packed header that is read. Of the first number, from the lowest bit on,
/// six bits are the block size in units of two kilobytes, sixteen the number of blocks, one says
/// that the file is encrypted, six are the slot and one more; and the last three say which numbers
/// take four bytes and not eight: bit 29 the compressed size, bit 30 the uncompressed size, bit 31
/// the offset. Behind it stand the block size, if the six bits are all set, the offset, the
/// uncompressed size and, if there is a slot, the compressed size.
#[verifier::rlimit(60)]
pub proof fn law_encoded_fields(s: Seq<u8>, version: Version)
    requires
        encoded_fits(s),
    ensures
        ({
            let e = encoded_entry(s, version);
            let bits = le_at(s, 0, 4) as int;
            let slot = bits / 0x80_0000 % 64;
            let count = bits / 64 % 0x1_0000;
            let encrypted = bits / 0x40_0000 % 2 == 1;
            let o: int = if bits % 64 == 63 {
                8
            } else {
                4
            };
            let ow: int = if bits / 0x8000_0000 % 2 == 1 {
                4
            } else {
                8
            };
            let uw: int = if bits / 0x4000_0000 % 2 == 1 {
                4
            } else {
                8
            };
            let cw: int = if slot == 0 {
                0
            } else if bits / 0x2000_0000 % 2 == 1 {
                4
            } else {
                8
            };
            let b = o + ow + uw + cw;
            &&& s.len() >= b
            &&& e.compression_block_size == if bits % 64 == 63 {
                le_at(s, 4, 4) as int
            } else {
                bits % 64 * 2048
            }
            &&& e.offset == le_at(s, o, ow)
            &&& e.uncompressed == le_at(s, o + ow, uw)
            &&& e.compressed == if slot == 0 {
                e.uncompressed as int
            } else {
                le_at(s, o + ow + uw, cw) as int
            }
            &&& e.compression_slot is None <==> slot == 0
            &&& e.compression_slot matches Some(n) ==> n + 1 == slot
            &&& e.flags == if encrypted {
                1int
            } else {
                0
            }
            &&& e.hash is None
            &&& e.timestamp is None
            &&& e.blocks is Some <==> count > 0
            &&& e.blocks matches Some(blocks) ==> blocks.len() == count
            &&& encoded_len(s) == b + if count == 0 || (count == 1 && !encrypted) {
                0
            } else {
                4 * count
            }
        }),
{
    lemma_read_range(s, 0, 4);
    let bits = le_at(s, 0, 4) as u32;
    lemma_bits_by_division(bits);
    let o = offset_at(bits);
    let u = uncompressed_at(bits);
    let c = compressed_at(bits);
    if bits % 64 == 63 {
        lemma_read_range(s, 4, 4);
    }
    lemma_read_range(s, o, var_width(bits, 31));
    lemma_read_range(s, u, var_width(bits, 30));
    if bits_slot(bits) is Some {
        lemma_read_range(s, c, var_width(bits, 29));
    }
}

/// Where the blocks of a packed header lie that is read. The first starts behind the header in
/// front of the data. A single one that is not encrypted is as long as the compressed data; the
/// sizes of others stand at the end of the packed header, and each block starts where the one
/// before it ends, or, if they are encrypted, at the next multiple of sixteen from its start.
#[verifier::rlimit(60)]
pub proof fn law_encoded_blocks(s: Seq<u8>, version: Version)
    requires
        encoded_fits(s),
        encoded_addressable(s, version),
        encoded_entry(s, version).blocks is Some,
    ensures
        ({
            let e = encoded_entry(s, version);
            let blocks = e.blocks->0;
            let n = blocks.len() as int;
            let sizes = encoded_len(s) - 4 * n;
            &&& n > 0
            &&& blocks[0].start == (if version == Version::V1 {
                57int
            } else if version == Version::V0 || version == Version::V2 {
                49
            } else if version == Version::V8A {
                50
            } else {
                53
            }) + if e.compression_slot is Some {
                4 + 16 * n
            } else {
                0
            }
            &&& if n == 1 && e.flags == 0 {
                blocks[0].end == blocks[0].start + e.compressed
            } else {
                &&& forall|i: int|
                    0 <= i < n ==> (#[trigger] blocks[i]).end == blocks[i].start + le_at(
                        s,
                        sizes + 4 * i,
                        4,
                    )
                &&& forall|i: int|
                    0 <= i < n - 1 ==> #[trigger] blocks[i + 1].start == if e.flags == 0 {
                        blocks[i].end as int
                    } else {
                        blocks[i].start + (le_at(s, sizes + 4 * i, 4) + 15) / 16 * 16
                    }
            }
        }),
{
    lemma_read_range(s, 0, 4);
    let bits = le_at(s, 0, 4) as u32;
    lemma_bits_by_division(bits);
    let e = encoded_entry(s, version);
    let f = encoded_fields(s);
    let base = f.first_block(version);
    let count = bits_block_count(bits);
    let encrypted = bits_encrypted(bits);
    if stores_block_sizes(bits) {
        let at = block_sizes_at(bits);
        let sizes = sizes_at(s, at, count as nat);
        let blocks = e.blocks->0;
        assert(sizes.take(0) =~= Seq::<u32>::empty());
        assert forall|i: int| 0 <= i < count implies (#[trigger] blocks[i]).end == blocks[i].start
            + le_at(s, at + 4 * i, 4) && blocks[i].start == block_start(
            base,
            sizes.take(i),
            encrypted,
        ) by {
            lemma_block_start_bound(base, sizes.take(i), encrypted);
            lemma_read_range(s, at + 4 * i, 4);
        }
        assert forall|i: int|
            0 <= i < count - 1 implies #[trigger] blocks[i + 1].start == if e.flags == 0 {
            blocks[i].end as int
        } else {
            blocks[i].start + (le_at(s, at + 4 * i, 4) + 15) / 16 * 16
        } by {
            lemma_read_range(s, at + 4 * i, 4);
            assert(sizes.take(i + 1).drop_last() =~= sizes.take(i));
            assert(sizes.take(i + 1).last() == sizes[i]);
            assert(blocks[i].start == block_start(base, sizes.take(i), encrypted));
            assert(blocks[i + 1].start == block_start(base, sizes.take(i + 1), encrypted));
            assert(blocks[i].end == blocks[i].start + le_at(s, at + 4 * i, 4));
        }
    }
}

/// A packed header can be read if and only if all of its bytes are there.
pub proof fn law_encoded_fits(s: Seq<u8>)
    ensures
        ({
            let bits = le_at(s, 0, 4) as int;
            let slot = bits / 0x80_0000 % 64;
            let count = bits / 64 % 0x1_0000;
            let encrypted = bits / 0x40_0000 % 2 == 1;
            let o: int = if bits % 64 == 63 {
                8
            } else {
                4
            };
            let ow: int = if bits / 0x8000_0000 % 2 == 1 {
                4
            } else {
                8
            };
            let uw: int = if bits / 0x4000_0000 % 2 == 1 {
                4
            } else {
                8
            };
            let cw: int = if slot == 0 {
                0
            } else if bits / 0x2000_0000 % 2 == 1 {
                4
            } else {
                8
            };
            encoded_fits(s) <==> 4 <= s.len() && o + ow + uw + cw + (if count == 0 || (count == 1
                && !encrypted) {
                0
            } else {
                4 * count
            }) <= s.len()
        }),
{
    if 4 <= s.len() {
        lemma_read_range(s, 0, 4);
        lemma_bits_by_division(le_at(s, 0, 4) as u32);
    }
}

proof fn lemma_block_size_by_division(size: u32)
    ensures
        packed_block_size(size) == if size % 2048 == 0 && size / 2048 < 63 {
            size / 2048
        } else {
            63
        },
{
    let units = (size >> 11) & 0x3f;
    assert(units == size / 2048 % 64) by (bit_vector)
        requires
            units == (size >> 11) & 0x3f,
    ;
    assert((units << 11 == size) == (size % 2048 == 0 && size / 2048 < 64)) by (bit_vector)
        requires
            units == (size >> 11) & 0x3f,
    ;
}

/// What stands where in a packed header that is written, as long as its fields have room for the
/// slot and the number of blocks.
#[verifier::rlimit(60)]
pub proof fn law_encoded_bytes(e: EntryView)
    requires
        e.compression_slot matches Some(n) ==> n < 63 && e.blocks is Some && e.blocks->0.len()
            <= 0xffff,
        e.compression_slot is Some && (e.blocks->0.len() > 1 || e.flags % 2 == 1) ==> forall|i: int|
            0 <= i < e.blocks->0.len() ==> (#[trigger] e.blocks->0[i]).start <= e.blocks->0[i].end
                && e.blocks->0[i].end - e.blocks->0[i].start <= u32::MAX,
    ensures
        ({
            let b = encoded_bytes(e);
            let bits = le_at(b, 0, 4) as int;
            let short = e.compression_block_size % 2048 == 0 && e.compression_block_size < 63
                * 2048;
            let n: int = if e.compression_slot is Some {
                e.blocks->0.len() as int
            } else {
                0
            };
            let encrypted = e.flags % 2 == 1;
            let o: int = if short {
                4
            } else {
                8
            };
            let u = o + if e.offset <= u32::MAX {
                4
            } else {
                8int
            };
            let c = u + if e.uncompressed <= u32::MAX {
                4
            } else {
                8int
            };
            let sizes = c + if e.compression_slot is None {
                0
            } else if e.compressed <= u32::MAX {
                4
            } else {
                8int
            };
            let listed = e.compression_slot is Some && (n > 1 || encrypted);
            &&& bits / 0x8000_0000 % 2 == 1 <==> e.offset <= u32::MAX
            &&& bits / 0x4000_0000 % 2 == 1 <==> e.uncompressed <= u32::MAX
            &&& bits / 0x2000_0000 % 2 == 1 <==> e.compressed <= u32::MAX
            &&& bits / 0x80_0000 % 64 == match e.compression_slot {
                Some(slot) => slot + 1,
                None => 0,
            }
            &&& bits / 0x40_0000 % 2 == 1 <==> encrypted
            &&& bits / 64 % 0x1_0000 == n
            &&& bits % 64 == if short {
                e.compression_block_size as int / 2048
            } else {
                63
            }
            &&& !short ==> le_at(b, 4, 4) == e.compression_block_size
            &&& le_at(b, o, u - o) == e.offset
            &&& le_at(b, u, c - u) == e.uncompressed
            &&& e.compression_slot is Some ==> le_at(b, c, sizes - c) == e.compressed
            &&& listed ==> forall|i: int|
                0 <= i < n ==> (#[trigger] e.blocks->0[i]).end - e.blocks->0[i].start == le_at(
                    b,
                    sizes + 4 * i,
                    4,
                )
            &&& b.len() == sizes + if listed {
                4 * n
            } else {
                0
            }
        }),
{
    let b = encoded_bytes(e);
    let bits = packed_bits(e);
    let size = e.compression_block_size;
    law_flags(e);
    lemma_packed_bits_fit(e);
    lemma_bits_by_division(bits);
    lemma_block_size_by_division(size);
    lemma_le_limits();
    lemma_le_bytes_len(bits as nat, 4);
    lemma_le_bytes_len(size as nat, 4);
    lemma_var_len(e.compressed);
    lemma_var_len(e.uncompressed);
    lemma_var_len(e.offset);
    assert(b.subrange(0, 4) =~= le_bytes(bits as nat, 4));
    lemma_found(b, 0, bits as nat, 4);
    let o = offset_at(bits);
    let u = uncompressed_at(bits);
    let c = compressed_at(bits);
    let at = block_sizes_at(bits);
    if packed_block_size(size) == 0x3f {
        assert(b.subrange(4, 8) =~= le_bytes(size as nat, 4));
        lemma_found(b, 4, size as nat, 4);
    }
    assert(b.subrange(o, u) =~= var_bytes(e.offset));
    lemma_var_found(b, o, e.offset);
    assert(b.subrange(u, c) =~= var_bytes(e.uncompressed));
    lemma_var_found(b, u, e.uncompressed);
    if e.compression_slot is Some {
        let blocks = e.blocks->0;
        assert(b.subrange(c, at) =~= var_bytes(e.compressed));
        lemma_var_found(b, c, e.compressed);
        if packs_block_sizes(e) {
            let sizes = block_sizes_bytes(blocks);
            assert(b.subrange(at, at + sizes.len()) =~= sizes);
            assert forall|i: int| 0 <= i < blocks.len() implies block_size_fits(
                #[trigger] blocks[i],
            ) by {
                assert(e.blocks->0[i].start <= e.blocks->0[i].end);
            }
            lemma_sizes_found(b, at, blocks);
            assert forall|i: int| 0 <= i < blocks.len() implies (#[trigger] e.blocks->0[i]).end
                - e.blocks->0[i].start == le_at(b, at + 4 * i, 4) by {
                assert(sizes_at(b, at, blocks.len())[i] == block_sizes(blocks)[i]);
                lemma_read_range(b, at + 4 * i, 4);
            }
        }
    }
}

proof fn lemma_packed_bits_fit(e: EntryView)
    requires
        e.compression_slot matches Some(n) ==> n < 63 && e.blocks is Some && e.blocks->0.len()
            <= 0xffff,
    ensures
        ({
            let bits = packed_bits(e);
            &&& bits_block_size(bits) == packed_block_size(
                e.compression_block_size,
            )
            &&& bits_block_count(bits) == packed_block_count(e)
            &&& bits_encrypted(bits) == e.is_encrypted()
            &&& bits_slot(bits) == e.compression_slot
            &&& (bits >> 23) & 0x3f == slot_code(e.compression_slot)
            &&& (bits & (1u32 << 29) != 0) == (e.compressed <= u32::MAX)
            &&& (bits & (1u32 << 30) != 0) == (e.uncompressed <= u32::MAX)
            &&& (bits & (1u32 << 31) != 0) == (e.offset <= u32::MAX)
        }),
{
    let size = e.compression_block_size;
    assert((size >> 11) & 0x3f <= 0x3f) by (bit_vector);
    lemma_bits_apart(
        packed_block_size(size),
        packed_block_count(e),
        bit(e.is_encrypted()),
        slot_code(e.compression_slot) as u32,
        bit(e.compressed <= u32::MAX),
        bit(e.uncompressed <= u32::MAX),
        bit(e.offset <= u32::MAX),
    );
}

/// The number under which each version is stored, and that no other number stands for a version.
pub proof fn law_version_numbers(version: Version, number: u32)
    ensures
        version.version_major().repr() == match version {
            Version::V0 => 0u32,
            Version::V1 => 1,
            Version::V2 => 2,
            Version::V3 => 3,
            Version::V4 => 4,
            Version::V5 => 5,
            Version::V6 => 6,
            Version::V7 => 7,
            Version::V8A | Version::V8B => 8,
            Version::V9 => 9,
            Version::V10 => 10,
            Version::V11 => 11,
        },
        VersionMajor::from_repr(number) is Some <==> number < 12,
        VersionMajor::from_repr(number) matches Some(v) ==> v.repr() == number,
{
    law_major_numbers(VersionMajor::Unknown);
    if number < 12 {
        let v = if number == 0 {
            VersionMajor::Unknown
        } else if number == 1 {
            VersionMajor::Initial
        } else if number == 2 {
            VersionMajor::NoTimestamps
        } else if number == 3 {
            VersionMajor::CompressionEncryption
        } else if number == 4 {
            VersionMajor::IndexEncryption
        } else if number == 5 {
            VersionMajor::RelativeChunkOffsets
        } else if number == 6 {
            VersionMajor::DeleteRecords
        } else if number == 7 {
            VersionMajor::EncryptionKeyGuid
        } else if number == 8 {
            VersionMajor::FNameBasedCompression
        } else if number == 9 {
            VersionMajor::FrozenIndex
        } else if number == 10 {
            VersionMajor::PathHashIndex
        } else {
            VersionMajor::Fnv64BugFix
        };
        lemma_from_repr(v);
    }
}

/// The number of each stored version, and that versions are ordered by it.
pub proof fn law_major_numbers(v: VersionMajor)
    ensures
        v.repr() == match v {
            VersionMajor::Unknown => 0u32,
            VersionMajor::Initial => 1,
            VersionMajor::NoTimestamps => 2,
            VersionMajor::CompressionEncryption => 3,
            VersionMajor::IndexEncryption => 4,
            VersionMajor::RelativeChunkOffsets => 5,
            VersionMajor::DeleteRecords => 6,
            VersionMajor::EncryptionKeyGuid => 7,
            VersionMajor::FNameBasedCompression => 8,
            VersionMajor::FrozenIndex => 9,
            VersionMajor::PathHashIndex => 10,
            VersionMajor::Fnv64BugFix => 11,
        },
        VersionMajor::from_repr(v.repr()) == Some(v),
        forall|w: VersionMajor| #[trigger] v.at_least(w) <==> v.repr() >= w.repr(),
{
    lemma_from_repr(v);
}

/// The revisions come in the order of their names, `V8A` ahead of `V8B`.
pub proof fn law_version_order(v: Version, w: Version)
    ensures
        v.rank() < w.rank() <==> if v == Version::V8A && w == Version::V8B {
            true
        } else {
            v.version_major().repr() < w.version_major().repr()
        },
{
}

/// The names of the methods, in characters and in bytes, and that a method is found by its name
/// and nothing else is found.
pub proof fn law_method_names(name: Seq<u8>)
    ensures
        Compression::Zlib.name_bytes() == seq![0x5au8, 0x6c, 0x69, 0x62],
        Compression::Gzip.name_bytes() == seq![0x47u8, 0x7a, 0x69, 0x70],
        Compression::Oodle.name_bytes() == seq![0x4fu8, 0x6f, 0x64, 0x6c, 0x65],
        Compression::Zstd.name_bytes() == seq![0x5au8, 0x73, 0x74, 0x64],
        Compression::LZ4.name_bytes() == seq![0x4cu8, 0x5a, 0x34],
        Compression::Zlib.spec_name() == seq!['Z', 'l', 'i', 'b'],
        Compression::Gzip.spec_name() == seq!['G', 'z', 'i', 'p'],
        Compression::Oodle.spec_name() == seq!['O', 'o', 'd', 'l', 'e'],
        Compression::Zstd.spec_name() == seq!['Z', 's', 't', 'd'],
        Compression::LZ4.spec_name() == seq!['L', 'Z', '4'],
        forall|c: Compression|
            Compression::named(name) == Some(c) <==> name == #[trigger] c.name_bytes(),
        Compression::named(name) is None <==> forall|c: Compression|
            name != #[trigger] c.name_bytes(),
{
    reveal_strlit("Zlib");
    reveal_strlit("Gzip");
    reveal_strlit("Oodle");
    reveal_strlit("Zstd");
    reveal_strlit("LZ4");
    assert("Zlib"@ =~= seq!['Z', 'l', 'i', 'b']);
    assert("Gzip"@ =~= seq!['G', 'z', 'i', 'p']);
    assert("Oodle"@ =~= seq!['O', 'o', 'd', 'l', 'e']);
    assert("Zstd"@ =~= seq!['Z', 's', 't', 'd']);
    assert("LZ4"@ =~= seq!['L', 'Z', '4']);
    lemma_names_differ();
    assert forall|c: Compression| Compression::named(name) == Some(c) implies name
        == #[trigger] c.name_bytes() by {
        let d = choose|d: Compression| d.name_bytes() == name;
    }
}

/// What stands where in a footer that is read, how long it is, and what its methods are. Footers
/// of versions below 8 list none: their four slots are zlib, gzip, nothing and Oodle.
#[verifier::rlimit(60)]
pub proof fn law_footer_fields(s: Seq<u8>, version: Version)
    requires
        footer_error(s, version) is None,
    ensures
        ({
            let f = footer_view(s, version);
            let m: int = match version {
                Version::V0 | Version::V1 | Version::V2 | Version::V3 => 0,
                Version::V4 | Version::V5 | Version::V6 => 1,
                _ => 17,
            };
            let names: int = if version == Version::V9 {
                62
            } else {
                61
            };
            let len: int = match version {
                Version::V0 | Version::V1 | Version::V2 | Version::V3 => 44,
                Version::V4 | Version::V5 | Version::V6 => 45,
                Version::V7 => 61,
                Version::V8A => 189,
                Version::V9 => 222,
                _ => 221,
            };
            &&& footer_len(version) == len <= s.len()
            &&& f.magic == le_at(s, m, 4)
            &&& f.magic == 0x5A6F12E1
            &&& f.version == version
            &&& f.version_major == version.version_major()
            &&& f.index_offset == le_at(s, m + 8, 8)
            &&& f.index_size == le_at(s, m + 16, 8)
            &&& f.hash == s.subrange(m + 24, m + 44)
            &&& f.encryption_uuid is Some <==> m == 17
            &&& f.encryption_uuid matches Some(uuid) ==> uuid == le_at(s, 0, 16)
            &&& f.encrypted <==> m > 0 && s[m - 1] == 1
            &&& f.frozen <==> version == Version::V9 && s[61] == 1
            &&& if len <= 61 {
                f.compression == seq![
                    Some(Compression::Zlib),
                    Some(Compression::Gzip),
                    None,
                    Some(Compression::Oodle),
                ]
            } else {
                &&& f.compression.len() == if version == Version::V8A {
                    4nat
                } else {
                    5
                }
                &&& forall|i: int, c: Compression|
                    #![trigger f.compression[i], c.name_bytes()]
                    0 <= i < f.compression.len() ==> (f.compression[i] == Some(c) <==> s.subrange(
                        names + 32 * i,
                        names + 32 * i + 32,
                    ).filter(|b: u8| b != 0) == c.name_bytes())
            }
        }),
{
    let f = footer_view(s, version);
    let m = magic_at(version.version_major());
    lemma_read_range(s, m, 4);
    lemma_read_range(s, m + 8, 8);
    lemma_read_range(s, m + 16, 8);
    if m == 17 {
        lemma_read_range(s, 0, 16);
    }
    let names = names_at(version.version_major());
    if version.version_major().at_least(VersionMajor::FNameBasedCompression) {
        assert forall|i: int, c: Compression|
            #![trigger f.compression[i], c.name_bytes()]
            0 <= i < f.compression.len() implies (f.compression[i] == Some(c) <==> s.subrange(
            names + 32 * i,
            names + 32 * i + 32,
        ).filter(|b: u8| b != 0) == c.name_bytes()) by {
            law_method_names(
                s.subrange(names + 32 * i, names + 32 * i + 32).filter(|b: u8| b != 0),
            );
        }
    } else {
        assert(f.compression =~= seq![
            Some(Compression::Zlib),
            Some(Compression::Gzip),
            None,
            Some(Compression::Oodle),
        ]);
    }
}

/// Why a footer cannot be read: a flag that is neither zero nor one comes first, as far as it is
/// there, then missing bytes, then the magic number, and last the number of another version. A
/// number that no version has is no error.
#[verifier::rlimit(60)]
pub proof fn law_footer_errors(s: Seq<u8>, version: Version)
    ensures
        ({
            let m: int = match version {
                Version::V0 | Version::V1 | Version::V2 | Version::V3 => 0,
                Version::V4 | Version::V5 | Version::V6 => 1,
                _ => 17,
            };
            let len: int = match version {
                Version::V0 | Version::V1 | Version::V2 | Version::V3 => 44,
                Version::V4 | Version::V5 | Version::V6 => 45,
                Version::V7 => 61,
                Version::V8A => 189,
                Version::V9 => 222,
                _ => 221,
            };
            let number: u32 = match version {
                Version::V0 => 0,
                Version::V1 => 1,
                Version::V2 => 2,
                Version::V3 => 3,
                Version::V4 => 4,
                Version::V5 => 5,
                Version::V6 => 6,
                Version::V7 => 7,
                Version::V8A | Version::V8B => 8,
                Version::V9 => 9,
                Version::V10 => 10,
                Version::V11 => 11,
            };
            let magic = le_at(s, m, 4);
            let stored = le_at(s, m + 4, 4);
            let e = footer_error(s, version);
            if m > 0 && m <= s.len() && s[m - 1] > 1 {
                e == Some(Error::Bool(s[m - 1]))
            } else if version == Version::V9 && 61 < s.len() && s[61] > 1 {
                e == Some(Error::Bool(s[61]))
            } else if s.len() < len {
                e == Some(Error::Io(IoError::UnexpectedEof))
            } else if magic != 0x5A6F12E1 {
                e == Some(Error::Magic(magic as u32))
            } else if stored < 12 && stored != number {
                e matches Some(Error::Version { used, version: found }) && used.repr() == number
                    && found.repr() == stored
            } else {
                e is None
            }
        }),
{
    law_version_numbers(version, 0);
    let m = magic_at(version.version_major());
    if s.len() >= footer_len(version) {
        lemma_read_range(s, m, 4);
        lemma_read_range(s, m + 4, 4);
        let stored = le_at(s, m + 4, 4) as u32;
        law_version_numbers(version, stored);
        law_major_numbers(version.version_major());
    }
}

/// What stands where in a footer that is written, and how long it is. The number of the key is
/// written as zero, and each method as its name, filled up with zeros to 32 bytes.
#[verifier::rlimit(60)]
pub proof fn law_footer_bytes(f: FooterView)
    requires
        f.hash.len() == 20,
    ensures
        ({
            let b = footer_bytes(f);
            let k = f.version_major.repr();
            let m: int = if k < 4 {
                0
            } else if k < 7 {
                1
            } else {
                17
            };
            let names = if k == 9 {
                m + 45
            } else {
                m + 44
            };
            let count: int = match f.version {
                Version::V8A => 4,
                Version::V8B | Version::V9 | Version::V10 | Version::V11 => 5,
                _ => 0,
            };
            &&& b.len() == names + 32 * count
            &&& m == 17 ==> forall|i: int| 0 <= i < 16 ==> b[i] == 0
            &&& m > 0 ==> b[m - 1] == if f.encrypted {
                1int
            } else {
                0
            }
            &&& le_at(b, m, 4) == f.magic
            &&& le_at(b, m + 4, 4) == k
            &&& le_at(b, m + 8, 8) == f.index_offset
            &&& le_at(b, m + 16, 8) == f.index_size
            &&& b.subrange(m + 24, m + 44) == f.hash
            &&& k == 9 ==> b[m + 44] == if f.frozen {
                1int
            } else {
                0
            }
            &&& forall|i: int, j: int|
                #![trigger b[names + 32 * i + j]]
                0 <= i < count && 0 <= j < 32 ==> b[names + 32 * i + j] == if i
                    < f.compression.len() && f.compression[i] is Some && j
                    < f.compression[i]->0.name_bytes().len() {
                    f.compression[i]->0.name_bytes()[j]
                } else {
                    0
                }
        }),
{
    let b = footer_bytes(f);
    let ver = f.version_major;
    let count = algo_count(f.version) as nat;
    let all = names_bytes(f.compression, count);
    let m = magic_at(ver);
    let n = names_at(ver);
    lemma_le_limits();
    lemma_le_bytes_len(0, 16);
    lemma_le_bytes_len(f.magic as nat, 4);
    lemma_le_bytes_len(ver.repr() as nat, 4);
    lemma_le_bytes_len(f.index_offset as nat, 8);
    lemma_le_bytes_len(f.index_size as nat, 8);
    lemma_names_bytes(f.compression, count);
    if m == 17 {
        lemma_zero_bytes(16);
        assert(b.subrange(0, 16) =~= le_bytes(0, 16));
        assert forall|i: int| 0 <= i < 16 implies b[i] == 0 by {
            assert(b[i] == b.subrange(0, 16)[i]);
        }
    }
    assert(b.subrange(m, m + 4) =~= le_bytes(f.magic as nat, 4));
    lemma_found(b, m, f.magic as nat, 4);
    assert(b.subrange(m + 4, m + 8) =~= le_bytes(ver.repr() as nat, 4));
    lemma_found(b, m + 4, ver.repr() as nat, 4);
    assert(b.subrange(m + 8, m + 16) =~= le_bytes(f.index_offset as nat, 8));
    lemma_found(b, m + 8, f.index_offset as nat, 8);
    assert(b.subrange(m + 16, m + 24) =~= le_bytes(f.index_size as nat, 8));
    lemma_found(b, m + 16, f.index_size as nat, 8);
    assert(b.subrange(m + 24, m + 44) =~= f.hash);
    assert forall|i: int, j: int|
        #![trigger b[n + 32 * i + j]]
        0 <= i < count && 0 <= j < 32 implies b[n + 32 * i + j] == if i < f.compression.len()
        && f.compression[i] is Some && j < f.compression[i]->0.name_bytes().len() {
        f.compression[i]->0.name_bytes()[j]
    } else {
        0
    } by {
        let field = all.subrange(32 * i, 32 * i + 32);
        assert(field == name_field(method_at(f.compression, i)));
        assert(b[n + 32 * i + j] == all[32 * i + j]);
        assert(field[j] == all[32 * i + j]);
    }
}

proof fn lemma_zero_bytes(n: nat)
    ensures
        le_bytes(0, n).len() == n,
        forall|i: int| 0 <= i < n ==> le_bytes(0, n)[i] == 0,
    decreases n,
{
    if n > 0 {
        lemma_zero_bytes((n - 1) as nat);
    }
}

/// When the end of a block can be told: only that of a single one that is not encrypted can be too
/// far away.
pub proof fn law_encoded_addressable(s: Seq<u8>, version: Version)
    requires
        encoded_fits(s),
    ensures
        ({
            let e = encoded_entry(s, version);
            let bits = le_at(s, 0, 4) as int;
            let base = (if version == Version::V1 {
                57int
            } else if version == Version::V0 || version == Version::V2 {
                49
            } else if version == Version::V8A {
                50
            } else {
                53
            }) + if bits / 0x80_0000 % 64 > 0 {
                20int
            } else {
                0
            };
            encoded_addressable(s, version) <==> (bits / 64 % 0x1_0000 == 1 && bits / 0x40_0000 % 2
                == 0 ==> base + e.compressed <= u64::MAX)
        }),
{
    lemma_read_range(s, 0, 4);
    lemma_bits_by_division(le_at(s, 0, 4) as u32);
}

/// The bytes of a block: its start and its end, eight bytes each.
pub proof fn law_block_bytes(b: Block, s: Seq<u8>, at: int)
    requires
        0 <= at,
        at + 16 <= s.len(),
    ensures
        block_bytes(b).len() == 16,
        le_at(block_bytes(b), 0, 8) == b.start,
        le_at(block_bytes(b), 8, 8) == b.end,
        block_at(s, at).start == le_at(s, at, 8),
        block_at(s, at).end == le_at(s, at + 8, 8),
{
    lemma_le_limits();
    lemma_le_bytes_len(b.start as nat, 8);
    lemma_le_bytes_len(b.end as nat, 8);
    let w = block_bytes(b);
    assert(w.subrange(0, 8) =~= le_bytes(b.start as nat, 8));
    assert(w.subrange(8, 16) =~= le_bytes(b.end as nat, 8));
    lemma_found(w, 0, b.start as nat, 8);
    lemma_found(w, 8, b.end as nat, 8);
    lemma_read_range(s, at, 8);
    lemma_read_range(s, at + 8, 8);
}

/// The next multiple of sixteen.
pub proof fn law_aligned(offset: int)
    ensures
        aligned(offset) % 16 == 0,
        offset <= aligned(offset) < offset + 16,
{
}

/// The first number of a packed header, whether or not its fields have room: each part is set in
/// at its place.
pub proof fn law_encoded_first_number(e: EntryView)
    ensures
        ({
            let size = e.compression_block_size;
            let units: u32 = if size % 2048 == 0 && size / 2048 < 63 {
                (size / 2048) as u32
            } else {
                63
            };
            let count: u32 = if e.compression_slot is Some {
                e.blocks->0.len() as u32
            } else {
                0
            };
            let slot: u32 = match e.compression_slot {
                Some(n) => (n + 1) as u32,
                None => 0,
            };
            let encrypted: u32 = if e.flags % 2 == 1 {
                1
            } else {
                0
            };
            let c: u32 = if e.compressed <= 0xffff_ffff {
                1
            } else {
                0
            };
            let u: u32 = if e.uncompressed <= 0xffff_ffff {
                1
            } else {
                0
            };
            let o: u32 = if e.offset <= 0xffff_ffff {
                1
            } else {
                0
            };
            le_at(encoded_bytes(e), 0, 4) == units | (count << 6) | (encrypted << 22) | (slot << 23)
                | (c << 29) | (u << 30) | (o << 31)
        }),
{
    let b = encoded_bytes(e);
    let bits = packed_bits(e);
    law_flags(e);
    lemma_block_size_by_division(e.compression_block_size);
    lemma_le_limits();
    lemma_le_bytes_len(bits as nat, 4);
    assert(b.subrange(0, 4) =~= le_bytes(bits as nat, 4));
    lemma_found(b, 0, bits as nat, 4);
    let slot = slot_code(e.compression_slot) as u32;
    match e.compression_slot {
        Some(n) => {
            assert(slot == (n + 1) as u32);
        },
        None => {},
    }
}

} // verus!
