//! Little-endian integers, and a position in a byte string.

use byteorder::{ByteOrder, LittleEndian};
use crate::error::{Error, IoError};
use vstd::prelude::*;

verus! {

/// The number that `s` stores, least significant byte first.
pub open spec fn le_value(s: Seq<u8>) -> nat
    decreases s.len(),
{
    if s.len() == 0 {
        0
    } else {
        s[0] as nat + 256 * le_value(s.drop_first())
    }
}

/// The lowest `n` bytes of `v`, least significant byte first.
pub open spec fn le_bytes(v: nat, n: nat) -> Seq<u8>
    decreases n,
{
    if n == 0 {
        Seq::empty()
    } else {
        seq![(v % 256) as u8] + le_bytes(v / 256, (n - 1) as nat)
    }
}

/// How many values `n` bytes can hold.
pub open spec fn le_limit(n: nat) -> nat
    decreases n,
{
    if n == 0 {
        1
    } else {
        256 * le_limit((n - 1) as nat)
    }
}

/// The number in the `n` bytes of `s` from `at` on.
pub open spec fn le_at(s: Seq<u8>, at: int, n: int) -> nat {
    le_value(s.subrange(at, at + n))
}

pub proof fn lemma_le_bytes_len(v: nat, n: nat)
    ensures
        le_bytes(v, n).len() == n,
    decreases n,
{
    if n > 0 {
        lemma_le_bytes_len(v / 256, (n - 1) as nat);
    }
}

/// Reading back what was written gives the value, as long as it fits.
pub proof fn lemma_le_value_of_bytes(v: nat, n: nat)
    requires
        v < le_limit(n),
    ensures
        le_value(le_bytes(v, n)) == v,
    decreases n,
{
    if n > 0 {
        lemma_le_value_of_bytes(v / 256, (n - 1) as nat);
        assert(le_bytes(v, n).drop_first() =~= le_bytes(v / 256, (n - 1) as nat));
    }
}

/// Writing back what was read gives the bytes.
pub proof fn lemma_le_bytes_of_value(s: Seq<u8>)
    ensures
        le_bytes(le_value(s), s.len()) == s,
        le_value(s) < le_limit(s.len()),
    decreases s.len(),
{
    if s.len() > 0 {
        let rest = s.drop_first();
        lemma_le_bytes_of_value(rest);
        let v = le_value(s);
        assert(v % 256 == s[0] && v / 256 == le_value(rest));
        assert(le_bytes(v, s.len()) =~= s);
    } else {
        assert(le_bytes(le_value(s), s.len()) =~= s);
    }
}

pub proof fn lemma_le_limits()
    ensures
        le_limit(1) == 0x100,
        le_limit(4) == 0x1_0000_0000,
        le_limit(8) == 0x1_0000_0000_0000_0000,
        le_limit(16) == 0x1_0000_0000_0000_0000_0000_0000_0000_0000,
{
    reveal_with_fuel(le_limit, 17);
}

/// A value whose bytes stand at `at` is found there.
pub proof fn lemma_found(s: Seq<u8>, at: int, v: nat, n: nat)
    requires
        0 <= at,
        at + n <= s.len(),
        s.subrange(at, at + n) == le_bytes(v, n),
        v < le_limit(n),
    ensures
        le_at(s, at, n as int) == v,
{
    lemma_le_value_of_bytes(v, n);
}

/// A number found at the start of what follows the first `k` bytes stands at `k` in the whole,
/// and behind it goes on what follows the first `k + n` bytes.
pub proof fn lemma_next_field(s: Seq<u8>, k: int, n: int)
    requires
        0 <= k,
        0 <= n,
        k + n <= s.len(),
    ensures
        le_at(s.skip(k), 0, n) == le_at(s, k, n),
        s.skip(k).skip(n) == s.skip(k + n),
{
    assert(s.skip(k).subrange(0, n) =~= s.subrange(k, k + n));
    assert(s.skip(k).skip(n) =~= s.skip(k + n));
}

/// Appending two byte strings at once is appending one after the other.
pub broadcast proof fn lemma_append_both(a: Seq<u8>, b: Seq<u8>, c: Seq<u8>)
    ensures
        #[trigger] (a + (b + c)) == a + b + c,
{
    assert(a + (b + c) =~= a + b + c);
}

/// The number in a single byte.
pub proof fn lemma_one_byte(b: u8)
    ensures
        le_bytes(b as nat, 1) == seq![b],
        le_value(seq![b]) == b,
{
    reveal_with_fuel(le_bytes, 2);
    reveal_with_fuel(le_value, 2);
    assert(le_bytes(b as nat, 1) =~= seq![b]);
    assert(seq![b].drop_first() =~= Seq::<u8>::empty());
}

/// `byteorder::LittleEndian::read_u32`: the number in the four bytes of `buf`, least significant
/// byte first.
#[verifier::external_body]
pub(crate) fn le_read_u32(buf: &[u8]) -> (v: u32)
    requires
        buf@.len() == 4,
    ensures
        v as nat == le_value(buf@),
{
    LittleEndian::read_u32(buf)
}

/// `byteorder::LittleEndian::read_u64`: the number in the eight bytes of `buf`, least
/// significant byte first.
#[verifier::external_body]
pub(crate) fn le_read_u64(buf: &[u8]) -> (v: u64)
    requires
        buf@.len() == 8,
    ensures
        v as nat == le_value(buf@),
{
    LittleEndian::read_u64(buf)
}

/// `byteorder::LittleEndian::read_u128`: the number in the sixteen bytes of `buf`, least
/// significant byte first.
#[verifier::external_body]
pub(crate) fn le_read_u128(buf: &[u8]) -> (v: u128)
    requires
        buf@.len() == 16,
    ensures
        v as nat == le_value(buf@),
{
    LittleEndian::read_u128(buf)
}

/// `byteorder::LittleEndian::write_u32`: the four bytes of `v`, least significant first.
#[verifier::external_body]
fn le_write_u32(v: u32) -> (b: [u8; 4])
    ensures
        b@ == le_bytes(v as nat, 4),
{
    let mut b = [0u8; 4];
    LittleEndian::write_u32(&mut b, v);
    b
}

/// `byteorder::LittleEndian::write_u64`: the eight bytes of `v`, least significant first.
#[verifier::external_body]
fn le_write_u64(v: u64) -> (b: [u8; 8])
    ensures
        b@ == le_bytes(v as nat, 8),
{
    let mut b = [0u8; 8];
    LittleEndian::write_u64(&mut b, v);
    b
}

/// `byteorder::LittleEndian::write_u128`: the sixteen bytes of `v`, least significant first.
#[verifier::external_body]
fn le_write_u128(v: u128) -> (b: [u8; 16])
    ensures
        b@ == le_bytes(v as nat, 16),
{
    let mut b = [0u8; 16];
    LittleEndian::write_u128(&mut b, v);
    b
}

/// Whether two byte strings are equal.
pub fn same_bytes(a: &[u8], b: &[u8]) -> (r: bool)
    ensures
        r == (a@ == b@),
{
    if a.len() != b.len() {
        return false;
    }
    let mut i: usize = 0;
    while i < a.len()
        invariant
            i <= a@.len(),
            a@.len() == b@.len(),
            a@.take(i as int) == b@.take(i as int),
        decreases a@.len() - i,
    {
        if a[i] != b[i] {
            return false;
        }
        assert(a@.take(i + 1) =~= b@.take(i + 1)) by {
            assert(a@.take(i + 1) =~= a@.take(i as int).push(a@[i as int]));
            assert(b@.take(i + 1) =~= b@.take(i as int).push(b@[i as int]));
        }
        i += 1;
    }
    assert(a@.take(i as int) =~= a@ && b@.take(i as int) =~= b@);
    true
}

/// Appends bytes to `out`.
pub fn put_slice(out: &mut Vec<u8>, s: &[u8])
    ensures
        final(out)@ == old(out)@ + s@,
{
    let ghost before = out@;
    out.extend_from_slice(s);
    assert(out@ =~= before + s@);
}

pub fn put_u32(out: &mut Vec<u8>, v: u32)
    ensures
        final(out)@ == old(out)@ + le_bytes(v as nat, 4),
{
    let b = le_write_u32(v);
    put_slice(out, b.as_slice());
}

pub fn put_u64(out: &mut Vec<u8>, v: u64)
    ensures
        final(out)@ == old(out)@ + le_bytes(v as nat, 8),
{
    let b = le_write_u64(v);
    put_slice(out, b.as_slice());
}

pub fn put_u128(out: &mut Vec<u8>, v: u128)
    ensures
        final(out)@ == old(out)@ + le_bytes(v as nat, 16),
{
    let b = le_write_u128(v);
    put_slice(out, b.as_slice());
}

/// A boolean is stored as one byte, 1 or 0.
pub open spec fn bool_byte(b: bool) -> u8 {
    if b {
        1
    } else {
        0
    }
}

pub fn put_bool(out: &mut Vec<u8>, b: bool)
    ensures
        final(out)@ == old(out)@.push(bool_byte(b)),
{
    out.push(if b { 1 } else { 0 });
}

/// A byte string and a position in it, which may lie past the end.
pub struct Reader<'a> {
    pub data: &'a [u8],
    pub pos: u64,
}

impl<'a> Reader<'a> {
    /// What is left to read.
    pub open spec fn rest(&self) -> Seq<u8> {
        if self.pos <= self.data@.len() {
            self.data@.skip(self.pos as int)
        } else {
            Seq::empty()
        }
    }

    /// `before` has moved on by `n` bytes to become `self`.
    pub open spec fn advanced(&self, before: &Reader<'a>, n: nat) -> bool {
        &&& self.data == before.data
        &&& self.pos == before.pos + n
        &&& n <= before.rest().len()
        &&& self.rest() == before.rest().skip(n as int)
    }

    pub fn new(data: &'a [u8]) -> (r: Reader<'a>)
        ensures
            r.data == data,
            r.pos == 0,
            r.rest() == data@,
    {
        let r = Reader { data, pos: 0 };
        assert(r.rest() =~= data@);
        r
    }

    pub fn seek(&mut self, pos: u64)
        ensures
            final(self).data == old(self).data,
            final(self).pos == pos,
    {
        self.pos = pos;
    }

    /// The next `len` bytes.
    pub fn read_len(&mut self, len: usize) -> (r: Result<&'a [u8], Error>)
        ensures
            final(self).data == old(self).data,
            match r {
                Ok(s) => {
                    &&& s@ == old(self).rest().take(len as int)
                    &&& final(self).advanced(old(self), len as nat)
                },
                Err(e) => e == Error::Io(IoError::UnexpectedEof) && old(self).rest().len() < len,
            },
    {
        let total: usize = self.data.len();
        if self.pos > total as u64 {
            if len > 0 {
                return Err(Error::Io(IoError::UnexpectedEof));
            }
            let none = vstd::slice::slice_subrange(self.data, 0, 0);
            assert(none@ =~= self.rest().take(0));
            assert(self.rest() =~= self.rest().skip(0));
            return Ok(none);
        }
        let start: usize = self.pos as usize;
        if len > total - start {
            return Err(Error::Io(IoError::UnexpectedEof));
        }
        let s = vstd::slice::slice_subrange(self.data, start, start + len);
        let ghost before = *self;
        self.pos = (start + len) as u64;
        assert(s@ =~= before.rest().take(len as int));
        assert(self.rest() =~= before.rest().skip(len as int));
        Ok(s)
    }

    pub fn read_u8(&mut self) -> (r: Result<u8, Error>)
        ensures
            final(self).data == old(self).data,
            match r {
                Ok(v) => {
                    &&& v == old(self).rest()[0]
                    &&& final(self).advanced(old(self), 1)
                },
                Err(e) => e == Error::Io(IoError::UnexpectedEof) && old(self).rest().len() < 1,
            },
    {
        let s = self.read_len(1)?;
        Ok(s[0])
    }

    pub fn read_u32(&mut self) -> (r: Result<u32, Error>)
        ensures
            final(self).data == old(self).data,
            match r {
                Ok(v) => {
                    &&& v as nat == le_at(old(self).rest(), 0, 4)
                    &&& final(self).advanced(old(self), 4)
                },
                Err(e) => e == Error::Io(IoError::UnexpectedEof) && old(self).rest().len() < 4,
            },
    {
        let s = self.read_len(4)?;
        assert(s@ =~= old(self).rest().subrange(0, 4));
        Ok(le_read_u32(s))
    }

    pub fn read_u64(&mut self) -> (r: Result<u64, Error>)
        ensures
            final(self).data == old(self).data,
            match r {
                Ok(v) => {
                    &&& v as nat == le_at(old(self).rest(), 0, 8)
                    &&& final(self).advanced(old(self), 8)
                },
                Err(e) => e == Error::Io(IoError::UnexpectedEof) && old(self).rest().len() < 8,
            },
    {
        let s = self.read_len(8)?;
        assert(s@ =~= old(self).rest().subrange(0, 8));
        Ok(le_read_u64(s))
    }

    pub fn read_u128(&mut self) -> (r: Result<u128, Error>)
        ensures
            final(self).data == old(self).data,
            match r {
                Ok(v) => {
                    &&& v as nat == le_at(old(self).rest(), 0, 16)
                    &&& final(self).advanced(old(self), 16)
                },
                Err(e) => e == Error::Io(IoError::UnexpectedEof) && old(self).rest().len() < 16,
            },
    {
        let s = self.read_len(16)?;
        assert(s@ =~= old(self).rest().subrange(0, 16));
        Ok(le_read_u128(s))
    }

    /// A boolean, which is stored as 1 or 0; any other byte is an error.
    pub fn read_bool(&mut self) -> (r: Result<bool, Error>)
        ensures
            final(self).data == old(self).data,
            match r {
                Ok(v) => {
                    &&& old(self).rest()[0] == bool_byte(v)
                    &&& final(self).advanced(old(self), 1)
                },
                Err(Error::Bool(b)) => {
                    &&& old(self).rest().len() >= 1
                    &&& b == old(self).rest()[0]
                    &&& b > 1
                },
                Err(e) => e == Error::Io(IoError::UnexpectedEof) && old(self).rest().len() < 1,
            },
    {
        let b: u8 = self.read_u8()?;
        match b {
            1 => Ok(true),
            0 => Ok(false),
            other => Err(Error::Bool(other)),
        }
    }

    /// A hash, which is twenty bytes long.
    pub fn read_guid(&mut self) -> (r: Result<[u8; 20], Error>)
        ensures
            final(self).data == old(self).data,
            match r {
                Ok(v) => {
                    &&& v@ == old(self).rest().take(20)
                    &&& final(self).advanced(old(self), 20)
                },
                Err(e) => e == Error::Io(IoError::UnexpectedEof) && old(self).rest().len() < 20,
            },
    {
        let s = self.read_len(20)?;
        let v: [u8; 20] = [
            s[0], s[1], s[2], s[3], s[4], s[5], s[6], s[7], s[8], s[9], s[10], s[11], s[12],
            s[13], s[14], s[15], s[16], s[17], s[18], s[19],
        ];
        assert(v@ =~= s@);
        Ok(v)
    }
}

/// What is left to read is what stands from the position on, and nothing past the end; moving on
/// by so many bytes drops as many of it.
pub proof fn law_reader(before: Reader<'_>, after: Reader<'_>, n: nat)
    requires
        after.advanced(&before, n),
    ensures
        before.pos <= before.data@.len() ==> before.rest() == before.data@.subrange(
            before.pos as int,
            before.data@.len() as int,
        ),
        before.pos > before.data@.len() ==> before.rest() == Seq::<u8>::empty(),
        after.data == before.data,
        after.pos == before.pos + n,
        n <= before.rest().len(),
        forall|i: int|
            0 <= i < after.rest().len() ==> #[trigger] after.rest()[i] == before.rest()[i + n],
        after.rest().len() == before.rest().len() - n,
{
    if before.pos <= before.data@.len() {
        assert(before.rest() =~= before.data@.subrange(
            before.pos as int,
            before.data@.len() as int,
        ));
    }
}

/// One stands for true, and zero for false.
pub proof fn law_bool_byte()
    ensures
        bool_byte(true) == 1,
        bool_byte(false) == 0,
{
}

} // verus!
