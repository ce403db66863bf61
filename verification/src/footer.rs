//! The footer at the end of an archive, which says where the index is.

use crate::bytes::{
    bool_byte, le_at, le_bytes, lemma_append_both, lemma_found, lemma_le_bytes_len, lemma_le_limits,
    lemma_next_field, put_bool, put_slice, put_u128, put_u32, put_u64, Reader,
};
use crate::error::{Error, IoError};
use crate::version::{
    lemma_from_repr, lemma_names_differ, Compression, Version, VersionMajor, MAGIC,
};
use vstd::prelude::*;

verus! {

#[derive(Debug)]
pub struct Footer {
    pub encryption_uuid: Option<u128>,
    pub encrypted: bool,
    pub magic: u32,
    pub version: Version,
    pub version_major: VersionMajor,
    pub index_offset: u64,
    pub index_size: u64,
    pub hash: [u8; 20],
    pub frozen: bool,
    pub compression: Vec<Option<Compression>>,
}

/// What a footer says.
#[verifier::ext_equal]
pub struct FooterView {
    pub encryption_uuid: Option<u128>,
    pub encrypted: bool,
    pub magic: u32,
    pub version: Version,
    pub version_major: VersionMajor,
    pub index_offset: u64,
    pub index_size: u64,
    pub hash: Seq<u8>,
    pub frozen: bool,
    pub compression: Seq<Option<Compression>>,
}

impl View for Footer {
    type V = FooterView;

    open spec fn view(&self) -> FooterView {
        FooterView {
            encryption_uuid: self.encryption_uuid,
            encrypted: self.encrypted,
            magic: self.magic,
            version: self.version,
            version_major: self.version_major,
            index_offset: self.index_offset,
            index_size: self.index_size,
            hash: self.hash@,
            frozen: self.frozen,
            compression: self.compression@,
        }
    }
}

/// How many names of compression methods a footer of this version has room for.
pub open spec fn spec_algo_count(version: Version) -> usize {
    if version.rank() < Version::V8A.rank() {
        0
    } else if version.rank() < Version::V8B.rank() {
        4
    } else {
        5
    }
}

#[verifier::when_used_as_spec(spec_algo_count)]
pub fn algo_count(version: Version) -> (r: usize)
    ensures
        r == spec_algo_count(version),
{
    if version.rank() < Version::V8A.rank() {
        0
    } else if version.rank() < Version::V8B.rank() {
        4
    } else {
        5
    }
}

/// Where the encryption flag stands: behind the number of the key, which version 7 brought.
pub open spec fn encrypted_at(version: VersionMajor) -> int {
    if version.at_least(VersionMajor::EncryptionKeyGuid) {
        16
    } else {
        0
    }
}

pub open spec fn has_encrypted(version: VersionMajor) -> bool {
    version.at_least(VersionMajor::IndexEncryption)
}

pub open spec fn magic_at(version: VersionMajor) -> int {
    encrypted_at(version) + if has_encrypted(version) {
        1int
    } else {
        0
    }
}

/// Where the flag for a frozen index stands, which only one version has. In front of it are,
/// from the magic number on, the version, the position and the size of the index, and its hash.
pub open spec fn frozen_at(version: VersionMajor) -> int {
    magic_at(version) + 44
}

pub open spec fn has_frozen(version: VersionMajor) -> bool {
    version == VersionMajor::FrozenIndex
}

/// Where the names of the compression methods stand, 32 bytes each.
pub open spec fn names_at(version: VersionMajor) -> int {
    frozen_at(version) + if has_frozen(version) {
        1int
    } else {
        0
    }
}

pub open spec fn footer_len(version: Version) -> int {
    names_at(version.version_major()) + 32 * algo_count(version)
}

/// The method that a field of 32 bytes names; zero bytes do not count.
pub open spec fn field_method(field: Seq<u8>) -> Option<Compression> {
    Compression::named(field.filter(|b: u8| b != 0))
}

/// The methods that the slots of older archives stand for. A slot is there a set of flags, less
/// one: the first flag is zlib, the second gzip, both together nothing, and the third Oodle.
pub open spec fn legacy_methods() -> Seq<Option<Compression>> {
    seq![Some(Compression::Zlib), Some(Compression::Gzip), None, Some(Compression::Oodle)]
}

/// The methods that the footer at the start of `s` lists.
pub open spec fn footer_methods(s: Seq<u8>, version: Version) -> Seq<Option<Compression>> {
    if version.version_major().at_least(VersionMajor::FNameBasedCompression) {
        let at = names_at(version.version_major());
        Seq::new(
            algo_count(version) as nat,
            |i: int| field_method(s.subrange(at + 32 * i, at + 32 * i + 32)),
        )
    } else {
        legacy_methods()
    }
}

/// The version that the footer at the start of `s` names. A number that no version has is taken
/// for the version that the footer is read as.
pub open spec fn footer_major(s: Seq<u8>, version: Version) -> VersionMajor {
    match VersionMajor::from_repr(le_at(s, magic_at(version.version_major()) + 4, 4) as u32) {
        Some(v) => v,
        None => version.version_major(),
    }
}

/// What the footer at the start of `s` says.
pub open spec fn footer_view(s: Seq<u8>, version: Version) -> FooterView {
    let ver = version.version_major();
    let m = magic_at(ver);
    FooterView {
        encryption_uuid: if ver.at_least(VersionMajor::EncryptionKeyGuid) {
            Some(le_at(s, 0, 16) as u128)
        } else {
            None
        },
        encrypted: has_encrypted(ver) && s[encrypted_at(ver)] == 1,
        magic: le_at(s, m, 4) as u32,
        version,
        version_major: footer_major(s, version),
        index_offset: le_at(s, m + 8, 8) as u64,
        index_size: le_at(s, m + 16, 8) as u64,
        hash: s.subrange(m + 24, m + 44),
        frozen: has_frozen(ver) && s[frozen_at(ver)] == 1,
        compression: footer_methods(s, version),
    }
}

/// Why the footer at the start of `s` cannot be read, if it cannot.
pub open spec fn footer_error(s: Seq<u8>, version: Version) -> Option<Error> {
    let ver = version.version_major();
    let e = encrypted_at(ver);
    let f = frozen_at(ver);
    if has_encrypted(ver) && e < s.len() && s[e] > 1 {
        Some(Error::Bool(s[e]))
    } else if has_frozen(ver) && f < s.len() && s[f] > 1 {
        Some(Error::Bool(s[f]))
    } else if s.len() < footer_len(version) {
        Some(Error::Io(IoError::UnexpectedEof))
    } else if footer_view(s, version).magic != MAGIC {
        Some(Error::Magic(footer_view(s, version).magic))
    } else if footer_major(s, version) != ver {
        Some(Error::Version { used: ver, version: footer_major(s, version) })
    } else {
        None
    }
}

/// The fields that the footers of all versions have.
struct FixedFields {
    magic: u32,
    number: u32,
    index_offset: u64,
    index_size: u64,
    hash: [u8; 20],
}

impl FixedFields {
    /// These are the fields that stand at `at`.
    spec fn found(&self, s: Seq<u8>, at: int) -> bool {
        &&& self.magic == le_at(s, at, 4)
        &&& self.number == le_at(s, at + 4, 4)
        &&& self.index_offset == le_at(s, at + 8, 8)
        &&& self.index_size == le_at(s, at + 16, 8)
        &&& self.hash@ == s.subrange(at + 24, at + 44)
    }
}

proof fn lemma_fixed_skip(s: Seq<u8>, m: int)
    requires
        0 <= m,
        m + 44 <= s.len(),
    ensures
        forall|f: FixedFields| #[trigger] f.found(s.skip(m), 0) ==> f.found(s, m),
        s.skip(m).skip(44) == s.skip(m + 44),
{
    let t = s.skip(m);
    assert(t.skip(44) =~= s.skip(m + 44));
    assert(t.subrange(0, 4) =~= s.subrange(m, m + 4));
    assert(t.subrange(4, 8) =~= s.subrange(m + 4, m + 8));
    assert(t.subrange(8, 16) =~= s.subrange(m + 8, m + 16));
    assert(t.subrange(16, 24) =~= s.subrange(m + 16, m + 24));
    assert(t.subrange(24, 44) =~= s.subrange(m + 24, m + 44));
}

impl Footer {
    pub fn read(reader: &mut Reader<'_>, version: Version) -> (r: Result<Footer, Error>)
        ensures
            final(reader).data == old(reader).data,
            match r {
                Ok(f) => {
                    &&& footer_error(old(reader).rest(), version) is None
                    &&& f@ == footer_view(old(reader).rest(), version)
                    &&& final(reader).advanced(old(reader), footer_len(version) as nat)
                },
                Err(e) => footer_error(old(reader).rest(), version) == Some(e),
            },
    {
        let ghost s = reader.rest();
        let ver = version.version_major();
        let ghost m = magic_at(ver);
        let (encryption_uuid, encrypted): (Option<u128>, bool) = Footer::read_key(reader, ver)?;
        let fixed = Footer::read_fixed(reader)?;
        proof {
            lemma_fixed_skip(s, m);
        }
        let version_major = match VersionMajor::from_repr(fixed.number) {
            Some(v) => v,
            None => ver,
        };
        let magic: u32 = fixed.magic;
        let frozen: bool = if ver == VersionMajor::FrozenIndex {
            let frozen: bool = reader.read_bool()?;
            proof {
                lemma_next_field(s, m + 44, 1);
            }
            frozen
        } else {
            false
        };
        assert(reader.rest() == s.skip(names_at(ver)));
        let compression = Footer::read_methods(reader, version, Ghost(s))?;
        if MAGIC != magic {
            return Err(Error::Magic(magic));
        }
        if ver != version_major {
            return Err(Error::Version { used: ver, version: version_major });
        }
        Ok(
            Footer {
                encryption_uuid,
                encrypted,
                magic,
                version,
                version_major,
                index_offset: fixed.index_offset,
                index_size: fixed.index_size,
                hash: fixed.hash,
                frozen,
                compression,
            },
        )
    }

    /// The number of the key and the encryption flag, as far as the version has them.
    fn read_key(reader: &mut Reader<'_>, ver: VersionMajor) -> (r: Result<
        (Option<u128>, bool),
        Error,
    >)
        ensures
            final(reader).data == old(reader).data,
            ({
                let s = old(reader).rest();
                let e = encrypted_at(ver);
                match r {
                    Ok((uuid, encrypted)) => {
                        &&& final(reader).advanced(old(reader), magic_at(ver) as nat)
                        &&& uuid == (if ver.at_least(VersionMajor::EncryptionKeyGuid) {
                            Some(le_at(s, 0, 16) as u128)
                        } else {
                            None
                        })
                        &&& encrypted == (has_encrypted(ver) && s[e] == 1)
                        &&& has_encrypted(ver) ==> s[e] <= 1
                    },
                    Err(Error::Bool(b)) => has_encrypted(ver) && e < s.len() && b == s[e] > 1,
                    Err(e) => {
                        &&& e == Error::Io(IoError::UnexpectedEof)
                        &&& s.len() < magic_at(ver)
                    },
                }
            }),
    {
        let ghost s = reader.rest();
        let uuid: Option<u128> = if ver.at_least(VersionMajor::EncryptionKeyGuid) {
            let uuid: u128 = reader.read_u128()?;
            Some(uuid)
        } else {
            None
        };
        assert(reader.rest() =~= s.skip(encrypted_at(ver)));
        let encrypted: bool = if ver.at_least(VersionMajor::IndexEncryption) {
            let encrypted: bool = reader.read_bool()?;
            proof {
                lemma_next_field(s, encrypted_at(ver), 1);
            }
            encrypted
        } else {
            false
        };
        Ok((uuid, encrypted))
    }

    fn read_fixed(reader: &mut Reader<'_>) -> (r: Result<FixedFields, Error>)
        ensures
            final(reader).data == old(reader).data,
            match r {
                Ok(fixed) => {
                    &&& fixed.found(old(reader).rest(), 0)
                    &&& final(reader).advanced(old(reader), 44)
                },
                Err(e) => e == Error::Io(IoError::UnexpectedEof) && old(reader).rest().len() < 44,
            },
    {
        let ghost s = reader.rest();
        let magic: u32 = reader.read_u32()?;
        let number: u32 = reader.read_u32()?;
        proof {
            lemma_next_field(s, 4, 4);
        }
        let index_offset: u64 = reader.read_u64()?;
        proof {
            lemma_next_field(s, 8, 8);
        }
        let index_size: u64 = reader.read_u64()?;
        proof {
            lemma_next_field(s, 16, 8);
        }
        let hash: [u8; 20] = reader.read_guid()?;
        proof {
            lemma_next_field(s, 24, 20);
            assert(hash@ =~= s.subrange(24, 44));
        }
        Ok(FixedFields { magic, number, index_offset, index_size, hash })
    }

    /// The methods that the footer at the start of `s` lists; the reader stands at the first name.
    fn read_methods(reader: &mut Reader<'_>, version: Version, Ghost(s): Ghost<Seq<u8>>) -> (r:
        Result<Vec<Option<Compression>>, Error>)
        requires
            names_at(version.version_major()) <= s.len(),
            old(reader).rest() == s.skip(names_at(version.version_major())),
        ensures
            final(reader).data == old(reader).data,
            match r {
                Ok(compression) => {
                    &&& compression@ == footer_methods(s, version)
                    &&& final(reader).pos == old(reader).pos + 32 * algo_count(version)
                    &&& footer_len(version) <= s.len()
                    &&& final(reader).rest() == s.skip(footer_len(version))
                },
                Err(e) => {
                    &&& e == Error::Io(IoError::UnexpectedEof)
                    &&& s.len() < footer_len(version)
                },
            },
    {
        let ghost at = names_at(version.version_major());
        let count: usize = algo_count(version);
        let ghost all = footer_methods(s, version);
        let mut compression: Vec<Option<Compression>> = Vec::new();
        let mut i: usize = 0;
        while i < count
            invariant
                i <= count == algo_count(version) <= 5,
                at == names_at(version.version_major()),
                0 <= at,
                at + 32 * i <= s.len(),
                all == footer_methods(s, version),
                reader.data == old(reader).data,
                reader.pos == old(reader).pos + 32 * i,
                reader.rest() == s.skip(at + 32 * i),
                compression@.len() == i,
                forall|k: int| 0 <= k < i ==> compression@[k] == all[k],
            decreases count - i,
        {
            let field = reader.read_len(32)?;
            proof {
                lemma_next_field(s, at + 32 * i, 32);
                assert(field@ =~= s.subrange(at + 32 * i, at + 32 * i + 32));
            }
            compression.push(Footer::method_in(field));
            i += 1;
        }
        if !version.version_major().at_least(VersionMajor::FNameBasedCompression) {
            compression.push(Some(Compression::Zlib));
            compression.push(Some(Compression::Gzip));
            compression.push(None);
            compression.push(Some(Compression::Oodle));
        }
        assert(compression@ =~= all);
        Ok(compression)
    }

    fn method_in(field: &[u8]) -> (r: Option<Compression>)
        ensures
            r == field_method(field@),
    {
        let ghost kept = |b: u8| b != 0;
        let mut name: Vec<u8> = Vec::new();
        let mut i: usize = 0;
        assert(field@.take(0).filter(kept) =~= name@) by {
            reveal(Seq::filter);
        }
        while i < field.len()
            invariant
                i <= field@.len(),
                kept == (|b: u8| b != 0),
                name@ == field@.take(i as int).filter(kept),
            decreases field@.len() - i,
        {
            assert(field@.take(i + 1).drop_last() =~= field@.take(i as int));
            reveal(Seq::filter);
            if field[i] != 0 {
                name.push(field[i]);
            }
            i += 1;
        }
        assert(field@.take(i as int) =~= field@);
        Compression::from_name(name.as_slice())
    }
}

/// The 32 bytes that name a method, or say that there is none.
pub open spec fn name_field(method: Option<Compression>) -> Seq<u8> {
    let name = match method {
        Some(c) => c.name_bytes(),
        None => Seq::empty(),
    };
    Seq::new(
        32,
        |i: int|
            if i < name.len() {
                name[i]
            } else {
                0
            },
    )
}

/// The method listed at `i`, if there is one.
pub open spec fn method_at(methods: Seq<Option<Compression>>, i: int) -> Option<Compression> {
    if i < methods.len() {
        methods[i]
    } else {
        None
    }
}

/// The names of the first `count` methods.
pub open spec fn names_bytes(methods: Seq<Option<Compression>>, count: nat) -> Seq<u8>
    decreases count,
{
    if count == 0 {
        Seq::empty()
    } else {
        names_bytes(methods, (count - 1) as nat) + name_field(method_at(methods, count - 1))
    }
}

/// The bytes of a footer. The number of the key is not kept, and methods beyond those that the
/// version has room for are left out.
pub open spec fn footer_bytes(f: FooterView) -> Seq<u8> {
    let ver = f.version_major;
    let uuid = if ver.at_least(VersionMajor::EncryptionKeyGuid) {
        le_bytes(0, 16)
    } else {
        Seq::empty()
    };
    let encrypted = if has_encrypted(ver) {
        seq![bool_byte(f.encrypted)]
    } else {
        Seq::empty()
    };
    let frozen = if has_frozen(ver) {
        seq![bool_byte(f.frozen)]
    } else {
        Seq::empty()
    };
    uuid + encrypted + le_bytes(f.magic as nat, 4) + le_bytes(ver.repr() as nat, 4) + le_bytes(
        f.index_offset as nat,
        8,
    ) + le_bytes(f.index_size as nat, 8) + f.hash + frozen + names_bytes(
        f.compression,
        algo_count(f.version) as nat,
    )
}

impl Footer {
    pub fn write(&self, writer: &mut Vec<u8>) -> (r: Result<(), Error>)
        ensures
            r is Ok,
            final(writer)@ == old(writer)@ + footer_bytes(self@),
    {
        broadcast use lemma_append_both;

        let ghost before = writer@;
        if self.version_major.at_least(VersionMajor::EncryptionKeyGuid) {
            put_u128(writer, 0);
        } else {
            assert(writer@ =~= writer@ + Seq::<u8>::empty());
        }
        if self.version_major.at_least(VersionMajor::IndexEncryption) {
            let ghost sofar = writer@;
            put_bool(writer, self.encrypted);
            assert(writer@ =~= sofar + seq![bool_byte(self.encrypted)]);
        } else {
            assert(writer@ =~= writer@ + Seq::<u8>::empty());
        }
        put_u32(writer, self.magic);
        put_u32(writer, self.version_major.repr());
        put_u64(writer, self.index_offset);
        put_u64(writer, self.index_size);
        put_slice(writer, self.hash.as_slice());
        if self.version_major == VersionMajor::FrozenIndex {
            let ghost sofar = writer@;
            put_bool(writer, self.frozen);
            assert(writer@ =~= sofar + seq![bool_byte(self.frozen)]);
        } else {
            assert(writer@ =~= writer@ + Seq::<u8>::empty());
        }
        self.write_names(writer);
        assert(writer@ == before + footer_bytes(self@));
        Ok(())
    }

    fn write_names(&self, writer: &mut Vec<u8>)
        ensures
            final(writer)@ == old(writer)@ + names_bytes(
                self.compression@,
                algo_count(self.version) as nat,
            ),
    {
        let ghost before = writer@;
        let count: usize = algo_count(self.version);
        let mut i: usize = 0;
        assert(before =~= before + names_bytes(self.compression@, 0));
        while i < count
            invariant
                i <= count <= 5,
                writer@ == before + names_bytes(self.compression@, i as nat),
            decreases count - i,
        {
            broadcast use lemma_append_both;

            let method = if i < self.compression.len() {
                self.compression[i]
            } else {
                None
            };
            Footer::write_name(method, writer);
            i += 1;
        }
    }

    fn write_name(method: Option<Compression>, writer: &mut Vec<u8>)
        ensures
            final(writer)@ == old(writer)@ + name_field(method),
    {
        let ghost before = writer@;
        let mut field: [u8; 32] = [0; 32];
        if let Some(algo) = method {
            let name = algo.name().as_bytes();
            let mut i: usize = 0;
            while i < name.len()
                invariant
                    i <= name@.len() <= 5,
                    field@.len() == 32,
                    forall|k: int|
                        0 <= k < 32 ==> field@[k] == (if k < i {
                            name@[k]
                        } else {
                            0
                        }),
                decreases name@.len() - i,
            {
                field[i] = name[i];
                i += 1;
            }
        }
        assert(field@ =~= name_field(method));
        put_slice(writer, field.as_slice());
    }
}

impl FooterView {
    /// What is kept of a footer when it is written.
    pub open spec fn kept(self) -> FooterView {
        let ver = self.version_major;
        FooterView {
            encryption_uuid: if ver.at_least(VersionMajor::EncryptionKeyGuid) {
                Some(0)
            } else {
                None
            },
            encrypted: has_encrypted(ver) && self.encrypted,
            frozen: has_frozen(ver) && self.frozen,
            compression: if ver.at_least(VersionMajor::FNameBasedCompression) {
                Seq::new(
                    algo_count(self.version) as nat,
                    |i: int| method_at(self.compression, i),
                )
            } else {
                legacy_methods()
            },
            ..self
        }
    }
}

/// Zero bytes behind a name that holds none do not change which method it names.
proof fn lemma_padded_name(field: Seq<u8>, name: Seq<u8>)
    requires
        name.len() <= field.len(),
        forall|i: int| 0 <= i < name.len() ==> field[i] == name[i] && name[i] != 0,
        forall|i: int| name.len() <= i < field.len() ==> field[i] == 0,
    ensures
        field.filter(|b: u8| b != 0) == name,
    decreases field.len(),
{
    reveal(Seq::filter);
    if field.len() > 0 {
        if name.len() == field.len() {
            lemma_padded_name(field.drop_last(), name.drop_last());
        } else {
            lemma_padded_name(field.drop_last(), name);
        }
    }
    assert(field.filter(|b: u8| b != 0) =~= name);
}

proof fn lemma_name_field(method: Option<Compression>)
    ensures
        field_method(name_field(method)) == method,
{
    lemma_names_differ();
    match method {
        Some(c) => {
            lemma_padded_name(name_field(method), c.name_bytes());
        },
        None => {
            lemma_padded_name(name_field(method), Seq::empty());
            assert forall|c: Compression| c.name_bytes() != Seq::<u8>::empty() by {
                assert(c.name_bytes().len() > 0);
            }
        },
    }
}

pub(crate) proof fn lemma_names_bytes(methods: Seq<Option<Compression>>, count: nat)
    ensures
        names_bytes(methods, count).len() == 32 * count,
        forall|i: int|
            0 <= i < count ==> #[trigger] names_bytes(methods, count).subrange(32 * i, 32 * i + 32)
                == name_field(method_at(methods, i)),
    decreases count,
{
    if count > 0 {
        let front = names_bytes(methods, (count - 1) as nat);
        let all = names_bytes(methods, count);
        lemma_names_bytes(methods, (count - 1) as nat);
        assert forall|i: int| 0 <= i < count implies #[trigger] all.subrange(32 * i, 32 * i + 32)
            == name_field(method_at(methods, i)) by {
            if i < count - 1 {
                assert(all.subrange(32 * i, 32 * i + 32) =~= front.subrange(32 * i, 32 * i + 32));
            } else {
                assert(all.subrange(32 * i, 32 * i + 32) =~= name_field(method_at(methods, i)));
            }
        }
    }
}

/// Reading a footer gives back what was written of it, whatever follows it, and stops at its end.
pub proof fn law_footer_read_back(f: FooterView, after: Seq<u8>)
    requires
        f.magic == MAGIC,
        f.version_major == f.version.version_major(),
        f.hash.len() == 20,
    ensures
        ({
            let s = footer_bytes(f) + after;
            &&& footer_bytes(f).len() == footer_len(f.version)
            &&& footer_error(s, f.version) is None
            &&& footer_view(s, f.version) == f.kept()
        }),
{
    let s = footer_bytes(f) + after;
    let ver = f.version_major;
    let count = algo_count(f.version) as nat;
    let names = names_bytes(f.compression, count);
    let m = magic_at(ver);
    let n = names_at(ver);
    lemma_le_limits();
    lemma_from_repr(ver);
    lemma_le_bytes_len(0, 16);
    lemma_le_bytes_len(f.magic as nat, 4);
    lemma_le_bytes_len(ver.repr() as nat, 4);
    lemma_le_bytes_len(f.index_offset as nat, 8);
    lemma_le_bytes_len(f.index_size as nat, 8);
    lemma_names_bytes(f.compression, count);
    if ver.at_least(VersionMajor::EncryptionKeyGuid) {
        assert(s.subrange(0, 16) =~= le_bytes(0, 16));
        lemma_found(s, 0, 0, 16);
    }
    assert(s.subrange(m, m + 4) =~= le_bytes(f.magic as nat, 4));
    lemma_found(s, m, f.magic as nat, 4);
    assert(s.subrange(m + 4, m + 8) =~= le_bytes(ver.repr() as nat, 4));
    lemma_found(s, m + 4, ver.repr() as nat, 4);
    assert(s.subrange(m + 8, m + 16) =~= le_bytes(f.index_offset as nat, 8));
    lemma_found(s, m + 8, f.index_offset as nat, 8);
    assert(s.subrange(m + 16, m + 24) =~= le_bytes(f.index_size as nat, 8));
    lemma_found(s, m + 16, f.index_size as nat, 8);
    assert(s.subrange(m + 24, m + 44) =~= f.hash);
    if ver.at_least(VersionMajor::FNameBasedCompression) {
        assert forall|i: int| 0 <= i < count implies footer_methods(s, f.version)[i]
            == f.kept().compression[i] by {
            assert(s.subrange(n + 32 * i, n + 32 * i + 32) =~= names.subrange(32 * i, 32 * i + 32));
            lemma_name_field(method_at(f.compression, i));
        }
    }
    assert(footer_methods(s, f.version) =~= f.kept().compression);
    assert(footer_view(s, f.version) =~= f.kept());
}

} // verus!
