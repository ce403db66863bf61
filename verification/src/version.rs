//! Pak versions, and the compression methods that an archive can name.

use crate::bytes::same_bytes;
use vstd::prelude::*;
use vstd::string::StringSliceAdditionalSpecFns;
use vstd::utf8::{is_ascii_chars, is_ascii_chars_encode_utf8};

verus! {

/// The number that marks a pak footer.
pub const MAGIC: u32 = 0x5A6F12E1;

/// The revisions of the pak format. Two of them, `V8A` and `V8B`, carry the same number on disk.
#[derive(Debug, Clone, Copy, PartialEq, Eq, PartialOrd, Ord, Structural)]
pub enum Version {
    V0,
    V1,
    V2,
    V3,
    V4,
    V5,
    V6,
    V7,
    V8A,
    V8B,
    V9,
    V10,
    V11,
}

/// The version numbers as they are stored, each named after what it brought.
#[derive(Debug, Clone, Copy, PartialEq, Eq, PartialOrd, Ord, Structural)]
pub enum VersionMajor {
    Unknown,
    Initial,
    NoTimestamps,
    CompressionEncryption,
    IndexEncryption,
    RelativeChunkOffsets,
    DeleteRecords,
    EncryptionKeyGuid,
    FNameBasedCompression,
    FrozenIndex,
    PathHashIndex,
    Fnv64BugFix,
}

impl Version {
    /// The position of the revision in the order in which they came out.
    pub open spec fn spec_rank(self) -> u32 {
        match self {
            Version::V0 => 0,
            Version::V1 => 1,
            Version::V2 => 2,
            Version::V3 => 3,
            Version::V4 => 4,
            Version::V5 => 5,
            Version::V6 => 6,
            Version::V7 => 7,
            Version::V8A => 8,
            Version::V8B => 9,
            Version::V9 => 10,
            Version::V10 => 11,
            Version::V11 => 12,
        }
    }

    #[verifier::when_used_as_spec(spec_rank)]
    pub fn rank(self) -> (r: u32)
        ensures
            r == self.spec_rank(),
    {
        match self {
            Version::V0 => 0,
            Version::V1 => 1,
            Version::V2 => 2,
            Version::V3 => 3,
            Version::V4 => 4,
            Version::V5 => 5,
            Version::V6 => 6,
            Version::V7 => 7,
            Version::V8A => 8,
            Version::V8B => 9,
            Version::V9 => 10,
            Version::V10 => 11,
            Version::V11 => 12,
        }
    }

    /// The stored number of a revision.
    pub open spec fn spec_version_major(self) -> VersionMajor {
        match self {
            Version::V0 => VersionMajor::Unknown,
            Version::V1 => VersionMajor::Initial,
            Version::V2 => VersionMajor::NoTimestamps,
            Version::V3 => VersionMajor::CompressionEncryption,
            Version::V4 => VersionMajor::IndexEncryption,
            Version::V5 => VersionMajor::RelativeChunkOffsets,
            Version::V6 => VersionMajor::DeleteRecords,
            Version::V7 => VersionMajor::EncryptionKeyGuid,
            Version::V8A => VersionMajor::FNameBasedCompression,
            Version::V8B => VersionMajor::FNameBasedCompression,
            Version::V9 => VersionMajor::FrozenIndex,
            Version::V10 => VersionMajor::PathHashIndex,
            Version::V11 => VersionMajor::Fnv64BugFix,
        }
    }

    #[verifier::when_used_as_spec(spec_version_major)]
    pub fn version_major(self) -> (r: VersionMajor)
        ensures
            r == self.spec_version_major(),
    {
        match self {
            Version::V0 => VersionMajor::Unknown,
            Version::V1 => VersionMajor::Initial,
            Version::V2 => VersionMajor::NoTimestamps,
            Version::V3 => VersionMajor::CompressionEncryption,
            Version::V4 => VersionMajor::IndexEncryption,
            Version::V5 => VersionMajor::RelativeChunkOffsets,
            Version::V6 => VersionMajor::DeleteRecords,
            Version::V7 => VersionMajor::EncryptionKeyGuid,
            Version::V8A => VersionMajor::FNameBasedCompression,
            Version::V8B => VersionMajor::FNameBasedCompression,
            Version::V9 => VersionMajor::FrozenIndex,
            Version::V10 => VersionMajor::PathHashIndex,
            Version::V11 => VersionMajor::Fnv64BugFix,
        }
    }
}

impl VersionMajor {
    /// The number under which a version is stored.
    pub open spec fn spec_repr(self) -> u32 {
        match self {
            VersionMajor::Unknown => 0,
            VersionMajor::Initial => 1,
            VersionMajor::NoTimestamps => 2,
            VersionMajor::CompressionEncryption => 3,
            VersionMajor::IndexEncryption => 4,
            VersionMajor::RelativeChunkOffsets => 5,
            VersionMajor::DeleteRecords => 6,
            VersionMajor::EncryptionKeyGuid => 7,
            VersionMajor::FNameBasedCompression => 8,
            VersionMajor::FrozenIndex => 9,
            VersionMajor::PathHashIndex => 10,
            VersionMajor::Fnv64BugFix => 11,
        }
    }

    #[verifier::when_used_as_spec(spec_repr)]
    pub fn repr(self) -> (r: u32)
        ensures
            r == self.spec_repr(),
    {
        match self {
            VersionMajor::Unknown => 0,
            VersionMajor::Initial => 1,
            VersionMajor::NoTimestamps => 2,
            VersionMajor::CompressionEncryption => 3,
            VersionMajor::IndexEncryption => 4,
            VersionMajor::RelativeChunkOffsets => 5,
            VersionMajor::DeleteRecords => 6,
            VersionMajor::EncryptionKeyGuid => 7,
            VersionMajor::FNameBasedCompression => 8,
            VersionMajor::FrozenIndex => 9,
            VersionMajor::PathHashIndex => 10,
            VersionMajor::Fnv64BugFix => 11,
        }
    }

    /// Whether this version is `other` or came later.
    pub open spec fn spec_at_least(self, other: VersionMajor) -> bool {
        self.spec_repr() >= other.spec_repr()
    }

    #[verifier::when_used_as_spec(spec_at_least)]
    pub fn at_least(self, other: VersionMajor) -> (r: bool)
        ensures
            r == self.spec_at_least(other),
    {
        self.repr() >= other.repr()
    }

    /// The version stored under a number, if there is one.
    pub open spec fn spec_from_repr(number: u32) -> Option<VersionMajor> {
        if number <= 11 {
            Some(choose|v: VersionMajor| v.spec_repr() == number)
        } else {
            None
        }
    }

    #[verifier::when_used_as_spec(spec_from_repr)]
    pub fn from_repr(number: u32) -> (r: Option<VersionMajor>)
        ensures
            r == VersionMajor::spec_from_repr(number),
            r matches Some(v) ==> v.spec_repr() == number,
    {
        let found = match number {
            0 => VersionMajor::Unknown,
            1 => VersionMajor::Initial,
            2 => VersionMajor::NoTimestamps,
            3 => VersionMajor::CompressionEncryption,
            4 => VersionMajor::IndexEncryption,
            5 => VersionMajor::RelativeChunkOffsets,
            6 => VersionMajor::DeleteRecords,
            7 => VersionMajor::EncryptionKeyGuid,
            8 => VersionMajor::FNameBasedCompression,
            9 => VersionMajor::FrozenIndex,
            10 => VersionMajor::PathHashIndex,
            11 => VersionMajor::Fnv64BugFix,
            _ => return None,
        };
        proof {
            lemma_from_repr(found);
        }
        Some(found)
    }
}

/// No two versions share a number.
pub proof fn lemma_from_repr(v: VersionMajor)
    ensures
        VersionMajor::from_repr(v.repr()) == Some(v),
{
    assert forall|w: VersionMajor| w.spec_repr() == v.spec_repr() implies w == v by {}
}

/// The compression methods that an entry can use.
#[derive(Debug, Clone, Copy, PartialEq, Eq, Structural)]
pub enum Compression {
    Zlib,
    Gzip,
    Oodle,
    Zstd,
    LZ4,
}

impl Compression {
    /// The name under which an archive lists the method.
    pub open spec fn spec_name(self) -> Seq<char> {
        match self {
            Compression::Zlib => "Zlib"@,
            Compression::Gzip => "Gzip"@,
            Compression::Oodle => "Oodle"@,
            Compression::Zstd => "Zstd"@,
            Compression::LZ4 => "LZ4"@,
        }
    }

    /// The bytes of the name.
    pub open spec fn name_bytes(self) -> Seq<u8> {
        match self {
            Compression::Zlib => seq![0x5a, 0x6c, 0x69, 0x62],
            Compression::Gzip => seq![0x47, 0x7a, 0x69, 0x70],
            Compression::Oodle => seq![0x4f, 0x6f, 0x64, 0x6c, 0x65],
            Compression::Zstd => seq![0x5a, 0x73, 0x74, 0x64],
            Compression::LZ4 => seq![0x4c, 0x5a, 0x34],
        }
    }

    pub fn name(self) -> (r: &'static str)
        ensures
            r@ == self.spec_name(),
            r.spec_bytes() == self.name_bytes(),
    {
        let r = match self {
            Compression::Zlib => "Zlib",
            Compression::Gzip => "Gzip",
            Compression::Oodle => "Oodle",
            Compression::Zstd => "Zstd",
            Compression::LZ4 => "LZ4",
        };
        proof {
            reveal_strlit("Zlib");
            reveal_strlit("Gzip");
            reveal_strlit("Oodle");
            reveal_strlit("Zstd");
            reveal_strlit("LZ4");
            assert(is_ascii_chars(r@));
            is_ascii_chars_encode_utf8(r@);
            assert(r.spec_bytes() =~= self.name_bytes());
        }
        r
    }

    /// The method with this name, if there is one.
    pub open spec fn named(name: Seq<u8>) -> Option<Compression> {
        if exists|c: Compression| c.name_bytes() == name {
            Some(choose|c: Compression| c.name_bytes() == name)
        } else {
            None
        }
    }

    pub fn from_name(name: &[u8]) -> (r: Option<Compression>)
        ensures
            r == Compression::named(name@),
            match r {
                Some(c) => c.name_bytes() == name@,
                None => forall|c: Compression| c.name_bytes() != name@,
            },
    {
        proof {
            lemma_names_differ();
        }
        if same_bytes(name, Compression::Zlib.name().as_bytes()) {
            Some(Compression::Zlib)
        } else if same_bytes(name, Compression::Gzip.name().as_bytes()) {
            Some(Compression::Gzip)
        } else if same_bytes(name, Compression::Oodle.name().as_bytes()) {
            Some(Compression::Oodle)
        } else if same_bytes(name, Compression::Zstd.name().as_bytes()) {
            Some(Compression::Zstd)
        } else if same_bytes(name, Compression::LZ4.name().as_bytes()) {
            Some(Compression::LZ4)
        } else {
            assert forall|c: Compression| c.name_bytes() != name@ by {
                match c {
                    Compression::Zlib => {},
                    Compression::Gzip => {},
                    Compression::Oodle => {},
                    Compression::Zstd => {},
                    Compression::LZ4 => {},
                }
            }
            None
        }
    }
}

/// A method is found by its name.
pub proof fn lemma_names_differ()
    ensures
        forall|c: Compression| Compression::named(#[trigger] c.name_bytes()) == Some(c),
{
    assert forall|c: Compression, d: Compression|
        c.name_bytes() == d.name_bytes() implies c == d by {
        let a = c.name_bytes();
        let b = d.name_bytes();
        assert(a.len() == b.len());
        assert(a[0] == b[0] && a[1] == b[1]);
    }
}

} // verus!
