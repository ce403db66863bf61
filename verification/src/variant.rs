//! Deviations from the standard format that some games apply.

use crate::bytes::{le_at, le_read_u64, put_slice};
use crate::cipher::Key;
use crate::data::{pad_length, padded};
use crate::layout::law_little_endian;
use vstd::prelude::*;
use vstd::string::StringExecFns;
use vstd::utf8::encode_utf8;

verus! {

/// Selects the deviations. A variant opts into the quirks of one game and no others.
#[derive(Debug, Clone, Copy, PartialEq, Eq, Structural)]
pub enum PakVariant {
    /// No deviation.
    Standard,
    /// A prefix of the data of each file, after compression, is encrypted, whose length follows
    /// from a hash of the path. The cipher works on blocks whose four words are byte-reversed
    /// before and after, and a fixed trailer stands between the index and the footer.
    MarvelRivals,
}

impl Default for PakVariant {
    fn default() -> (r: PakVariant)
        ensures
            r == PakVariant::Standard,
    {
        PakVariant::Standard
    }
}

/// What decides how the data of a file gets encrypted: the key, the variant, and the path, from
/// which a variant may derive how much of the data that is.
#[derive(Clone, Copy)]
pub struct EncryptionContext<'a> {
    pub key: &'a Key,
    pub variant: PakVariant,
    pub mount_point: &'a str,
    pub path: &'a str,
}

/// How many leading bytes of a buffer get encrypted, and how long the buffer ends up.
#[derive(Debug, Clone, Copy, PartialEq, Eq, Structural)]
pub struct EncryptionPlan {
    pub final_len: usize,
    pub encrypted_len: usize,
}

/// What the trailer of this variant holds.
pub const MARVEL_RIVALS_INDEX_TRAILER: [u8; 35] = [
    0x06, 0x12, 0x24, 0x20, 0x06, 0x00, 0x00, 0x00, 0x01, 0x02, 0x00, 0x10, 0x00, 0x00, 0x00,
    0x00, 0x00, 0x00, 0x01, 0x00, 0x01, 0x00, 0x00, 0x00, 0x00, 0x00, 0x00, 0x00, 0x10, 0x00,
    0x00, 0x00, 0x00, 0x00, 0x00,
];

/// Hashed ahead of the path.
pub const MARVEL_RIVALS_ENCRYPT_LIMIT_SALT: [u8; 4] = [0x11, 0x22, 0x33, 0x44];

/// What `str::to_lowercase` makes of these characters.
pub uninterp spec fn lowercased(s: Seq<char>) -> Seq<char>;

/// `str::to_lowercase`: the characters in lower case, as Unicode defines it. The result depends
/// on the characters alone; which one it is for each character is not stated.
#[verifier::external_body]
fn to_lowercase(s: &str) -> (r: String)
    ensures
        r@ == lowercased(s@),
{
    s.to_lowercase()
}

/// The BLAKE3 hash of these bytes.
pub uninterp spec fn blake3_digest(data: Seq<u8>) -> Seq<u8>;

/// `blake3::Hasher` (`new`, `update` and `finalize`): the hash, 32 bytes, of `data`. It depends
/// on `data` alone; the algorithm is not stated.
#[verifier::external_body]
fn blake3_hash(data: &[u8]) -> (r: [u8; 32])
    ensures
        r@ == blake3_digest(data@),
{
    let mut hasher = blake3::Hasher::new();
    hasher.update(data);
    *hasher.finalize().as_bytes()
}

/// `String::push`: appends a character.
pub assume_specification[ String::push ](s: &mut String, c: char)
    ensures
        final(s)@ == old(s)@.push(c),
;

/// `s` without any slash that follows another.
pub open spec fn collapsed(s: Seq<char>) -> Seq<char>
    decreases s.len(),
{
    if s.len() == 0 {
        Seq::empty()
    } else if s.last() == '/' && s.len() > 1 && s[s.len() - 2] == '/' {
        collapsed(s.drop_last())
    } else {
        collapsed(s.drop_last()).push(s.last())
    }
}

/// What a mount point may start with that is not part of the hashed path: three times `../`.
pub open spec fn mount_prefix() -> Seq<char> {
    seq!['.', '.', '/', '.', '.', '/', '.', '.', '/']
}

/// The path that gets hashed: mount point and path with a slash between them, doubled slashes
/// collapsed, and then without the usual start of a mount point.
pub open spec fn mounted_path(mount_point: Seq<char>, path: Seq<char>) -> Seq<char> {
    let s = collapsed(mount_point.push('/') + path);
    if mount_prefix().is_prefix_of(s) {
        s.skip(9)
    } else {
        s
    }
}

fn collapse(s: &str) -> (r: Vec<char>)
    ensures
        r@ == collapsed(s@),
{
    broadcast use vstd::string::axiom_spec_iter;

    let mut r: Vec<char> = Vec::new();
    let mut last_was_slash: bool = false;
    for c in it: s.chars()
        invariant
            it.seq() == s@,
            r@ == collapsed(s@.take(it.index())),
            last_was_slash == (it.index() > 0 && s@[it.index() - 1] == '/'),
    {
        let ghost i = it.index();
        assert(s@.take(i + 1).drop_last() =~= s@.take(i));
        if c != '/' || !last_was_slash {
            r.push(c);
        }
        last_was_slash = c == '/';
    }
    assert(s@.take(s@.len() as int) =~= s@);
    r
}

/// Joins a mount point and the path of an entry the way the game hashes them. A mount point that
/// does not start in the usual way is left as it is.
pub fn join_mount_path(mount_point: &str, path: &str) -> (r: String)
    ensures
        r@ == mounted_path(mount_point@, path@),
{
    let mut joined = String::new();
    joined.append(mount_point);
    joined.push('/');
    joined.append(path);
    assert(joined@ =~= mount_point@.push('/') + path@);
    let s = collapse(joined.as_str());
    let prefix: [char; 9] = ['.', '.', '/', '.', '.', '/', '.', '.', '/'];
    let mut k: usize = 0;
    while k < 9 && k < s.len() && s[k] == prefix[k]
        invariant
            k <= 9,
            k <= s@.len(),
            prefix@ =~= mount_prefix(),
            forall|i: int| 0 <= i < k ==> s@[i] == prefix@[i],
        decreases 9 - k,
    {
        k += 1;
    }
    let start: usize = if k == 9 { 9 } else { 0 };
    assert(start == 9 <==> mount_prefix().is_prefix_of(s@)) by {
        if mount_prefix().is_prefix_of(s@) && k < 9 {
            assert(s@[k as int] == mount_prefix()[k as int]);
        }
        if k == 9 {
            assert(mount_prefix() =~= s@.subrange(0, 9));
        }
    }
    let mut r = String::new();
    let mut i: usize = start;
    assert(r@ =~= s@.subrange(start as int, start as int));
    while i < s.len()
        invariant
            start <= i <= s@.len(),
            r@ == s@.subrange(start as int, i as int),
        decreases s@.len() - i,
    {
        r.push(s[i]);
        assert(r@ =~= s@.subrange(start as int, i + 1));
        i += 1;
    }
    assert(r@ =~= mounted_path(mount_point@, path@));
    r
}

/// The length of the encrypted prefix for a seed: a multiple of 64, from 256 to 4096.
pub open spec fn prefix_for_seed(seed: nat) -> nat {
    ((seed % 0x3d * 63 + 319) / 64 * 64) as nat
}

pub fn prefix_len_for_seed(seed: u64) -> (r: usize)
    ensures
        r == prefix_for_seed(seed as nat),
        256 <= r <= 4096,
        r % 64 == 0,
{
    let raw: u64 = (seed % 0x3D) * 63 + 319;
    assert(raw & !0x3F == raw / 64 * 64) by (bit_vector);
    let limit: u64 = raw & !0x3F;
    if limit == 0 {
        0x1000
    } else {
        limit as usize
    }
}

/// What is hashed for a path: the salt, and the path in lower case.
pub open spec fn salted(lower: Seq<char>) -> Seq<u8> {
    MARVEL_RIVALS_ENCRYPT_LIMIT_SALT@ + encode_utf8(lower)
}

pub fn salted_path(lower: &str) -> (r: Vec<u8>)
    ensures
        r@ == salted(lower@),
{
    let salt: [u8; 4] = MARVEL_RIVALS_ENCRYPT_LIMIT_SALT;
    let mut hashed: Vec<u8> = Vec::new();
    put_slice(&mut hashed, salt.as_slice());
    put_slice(&mut hashed, lower.as_bytes());
    assert(hashed@ =~= salted(lower@));
    hashed
}

/// The length of the encrypted prefix for a hash: its first eight bytes are the seed.
pub open spec fn prefix_for_digest(digest: Seq<u8>) -> nat {
    prefix_for_seed(le_at(digest, 0, 8))
}

pub fn prefix_len_for_digest(digest: &[u8; 32]) -> (r: usize)
    ensures
        r == prefix_for_digest(digest@),
        256 <= r <= 4096,
        r % 64 == 0,
{
    let seed: u64 = le_read_u64(vstd::slice::slice_subrange(digest.as_slice(), 0, 8));
    prefix_len_for_seed(seed)
}

/// The length of the prefix that gets encrypted of the file at this path.
pub open spec fn path_prefix_len(mount_point: Seq<char>, path: Seq<char>) -> nat {
    prefix_for_digest(blake3_digest(salted(lowercased(mounted_path(mount_point, path)))))
}

pub fn marvel_rivals_encrypted_prefix_len(mount_point: &str, path: &str) -> (r: usize)
    ensures
        r == path_prefix_len(mount_point@, path@),
        256 <= r <= 4096,
        r % 64 == 0,
{
    let full_path = join_mount_path(mount_point, path);
    let lower = to_lowercase(full_path.as_str());
    let hashed = salted_path(lower.as_str());
    let digest = blake3_hash(hashed.as_slice());
    prefix_len_for_digest(&digest)
}

/// The plan for a buffer of `data_len` bytes of which the first `prefix` are to be encrypted. A
/// shorter buffer is encrypted as a whole: it is padded to full cipher blocks if it may grow, and
/// otherwise what is left over from the last full block stays as it is.
pub open spec fn plan_for(prefix: nat, data_len: usize, can_grow: bool) -> EncryptionPlan {
    if prefix < data_len {
        EncryptionPlan { final_len: data_len, encrypted_len: prefix as usize }
    } else if prefix == 0 {
        EncryptionPlan { final_len: data_len, encrypted_len: 0 }
    } else if can_grow {
        let final_len = padded(data_len as int, 16) as usize;
        EncryptionPlan { final_len, encrypted_len: final_len }
    } else {
        EncryptionPlan { final_len: data_len, encrypted_len: (data_len - data_len % 16) as usize }
    }
}

pub fn plan_with_prefix(prefix: usize, data_len: usize, can_grow: bool) -> (r: EncryptionPlan)
    requires
        prefix > 0 && prefix >= data_len && can_grow ==> padded(data_len as int, 16) <= usize::MAX,
    ensures
        r == plan_for(prefix as nat, data_len, can_grow),
{
    let requested: usize = if prefix < data_len { prefix } else { data_len };
    if requested == 0 || requested < data_len {
        EncryptionPlan { final_len: data_len, encrypted_len: requested }
    } else if can_grow {
        let final_len: usize = pad_length(data_len, 16);
        EncryptionPlan { final_len, encrypted_len: final_len }
    } else {
        EncryptionPlan { final_len: data_len, encrypted_len: data_len - (data_len % 16) }
    }
}

impl PakVariant {
    /// How long the prefix of a file is that gets encrypted, whatever the length of the file.
    pub open spec fn prefix_len(self, mount_point: Seq<char>, path: Seq<char>) -> nat {
        match self {
            PakVariant::Standard => 0,
            PakVariant::MarvelRivals => path_prefix_len(mount_point, path),
        }
    }

    /// The standard format does not encrypt the data of files on its own account.
    pub fn raw_encrypted_prefix_len(&self, mount_point: &str, path: &str) -> (r: usize)
        ensures
            r == self.prefix_len(mount_point@, path@),
            r <= 4096,
            r % 64 == 0,
            *self == PakVariant::Standard ==> r == 0,
    {
        match self {
            PakVariant::Standard => 0,
            PakVariant::MarvelRivals => marvel_rivals_encrypted_prefix_len(mount_point, path),
        }
    }

    pub open spec fn plan(
        self,
        mount_point: Seq<char>,
        path: Seq<char>,
        data_len: usize,
        can_grow: bool,
    ) -> EncryptionPlan {
        plan_for(self.prefix_len(mount_point, path), data_len, can_grow)
    }

    /// Decides how many leading bytes of a buffer get encrypted, and whether it grows first. An
    /// entry whose compressed size is not stored apart from the uncompressed one must not grow.
    pub fn encryption_plan(
        &self,
        mount_point: &str,
        path: &str,
        data_len: usize,
        can_grow: bool,
    ) -> (r: EncryptionPlan)
        ensures
            r == self.plan(mount_point@, path@, data_len, can_grow),
            r.encrypted_len % 16 == 0,
            r.encrypted_len <= r.final_len,
            data_len <= r.final_len < data_len + 16,
            !can_grow ==> r.final_len == data_len,
            *self == PakVariant::Standard ==> r.encrypted_len == 0 && r.final_len == data_len,
    {
        let prefix: usize = self.raw_encrypted_prefix_len(mount_point, path);
        plan_with_prefix(prefix, data_len, can_grow)
    }

    pub open spec fn encrypted_len_read(
        self,
        mount_point: Seq<char>,
        path: Seq<char>,
        compressed_len: usize,
        can_grow: bool,
        aligned_len: usize,
    ) -> usize {
        match self {
            PakVariant::Standard => aligned_len,
            PakVariant::MarvelRivals => {
                let n = self.plan(mount_point, path, compressed_len, can_grow).encrypted_len;
                if n < aligned_len {
                    n
                } else {
                    aligned_len
                }
            },
        }
    }

    /// How many of the bytes of an entry that is marked as encrypted are encrypted. In the
    /// standard format these are all of them, up to a full cipher block.
    pub fn read_encrypted_len(
        &self,
        mount_point: &str,
        path: &str,
        compressed_len: usize,
        can_grow: bool,
        aligned_len: usize,
    ) -> (r: usize)
        ensures
            r == self.encrypted_len_read(
                mount_point@,
                path@,
                compressed_len,
                can_grow,
                aligned_len,
            ),
            r <= aligned_len,
            aligned_len % 16 == 0 ==> r % 16 == 0,
    {
        match self {
            PakVariant::Standard => aligned_len,
            PakVariant::MarvelRivals => {
                let n: usize = self.encryption_plan(
                    mount_point,
                    path,
                    compressed_len,
                    can_grow,
                ).encrypted_len;
                if n < aligned_len {
                    n
                } else {
                    aligned_len
                }
            },
        }
    }

    pub open spec fn spec_reverse_word_order(&self) -> bool {
        *self is MarvelRivals
    }

    /// Whether the four words of a cipher block are byte-reversed before and after the cipher.
    #[verifier::when_used_as_spec(spec_reverse_word_order)]
    pub fn reverse_word_order(&self) -> (r: bool)
        ensures
            r == self.spec_reverse_word_order(),
    {
        matches!(self, PakVariant::MarvelRivals)
    }

    pub open spec fn trailer(self) -> Seq<u8> {
        match self {
            PakVariant::Standard => Seq::empty(),
            PakVariant::MarvelRivals => MARVEL_RIVALS_INDEX_TRAILER@,
        }
    }

    /// What stands between the index and the footer.
    pub fn index_trailer(&self) -> (r: &'static [u8])
        ensures
            r@ == self.trailer(),
    {
        match self {
            PakVariant::Standard => &[],
            PakVariant::MarvelRivals => &MARVEL_RIVALS_INDEX_TRAILER,
        }
    }
}

proof fn lemma_collapsed(s: Seq<char>)
    ensures
        collapsed(s).len() == 0 <==> s.len() == 0,
        s.len() > 0 ==> collapsed(s).last() == s.last(),
        forall|i: int|
            0 <= i < collapsed(s).len() - 1 ==> !(#[trigger] collapsed(s)[i] == '/' && collapsed(
                s,
            )[i + 1] == '/'),
    decreases s.len(),
{
    if s.len() > 0 {
        lemma_collapsed(s.drop_last());
        if s.len() > 1 {
            assert(s.drop_last().last() == s[s.len() - 2]);
        }
    }
}

proof fn lemma_slash_again(a: Seq<char>, b: Seq<char>)
    ensures
        collapsed(a.push('/').push('/') + b) == collapsed(a.push('/') + b),
    decreases b.len(),
{
    let once = a.push('/') + b;
    let twice = a.push('/').push('/') + b;
    if b.len() == 0 {
        assert(once =~= a.push('/'));
        assert(twice =~= a.push('/').push('/'));
        assert(twice.drop_last() =~= once);
    } else {
        lemma_slash_again(a, b.drop_last());
        assert(once.drop_last() =~= a.push('/') + b.drop_last());
        assert(twice.drop_last() =~= a.push('/').push('/') + b.drop_last());
        assert(once.last() == b.last() && twice.last() == b.last());
        assert(once[once.len() - 2] == twice[twice.len() - 2]);
    }
}

/// The hashed path holds no two slashes in a row.
pub proof fn law_no_doubled_slash(mount_point: Seq<char>, path: Seq<char>)
    ensures
        forall|i: int|
            0 <= i < mounted_path(mount_point, path).len() - 1 ==> !(#[trigger] mounted_path(
                mount_point,
                path,
            )[i] == '/' && mounted_path(mount_point, path)[i + 1] == '/'),
{
    let s = collapsed(mount_point.push('/') + path);
    lemma_collapsed(mount_point.push('/') + path);
    let r = mounted_path(mount_point, path);
    if mount_prefix().is_prefix_of(s) {
        assert forall|i: int| 0 <= i < r.len() - 1 implies !(#[trigger] r[i] == '/' && r[i + 1]
            == '/') by {
            assert(r[i] == s[i + 9] && r[i + 1] == s[i + 10]);
        }
    }
}

/// A slash at the end of the mount point, or at the start of the path, makes no difference to
/// the hashed path, and so none to the length of the encrypted prefix.
pub proof fn law_slash_between(mount_point: Seq<char>, path: Seq<char>)
    ensures
        mounted_path(mount_point.push('/'), path) == mounted_path(mount_point, path),
        mounted_path(mount_point, seq!['/'] + path) == mounted_path(mount_point, path),
        path_prefix_len(mount_point.push('/'), path) == path_prefix_len(mount_point, path),
        path_prefix_len(mount_point, seq!['/'] + path) == path_prefix_len(mount_point, path),
{
    lemma_slash_again(mount_point, path);
    assert(mount_point.push('/') + (seq!['/'] + path) =~= mount_point.push('/').push('/') + path);
}

/// For a variant that encrypts a prefix, the reader finds as many encrypted bytes as the writer
/// encrypted, whether or not the data had to grow.
pub proof fn law_read_matches_write(
    mount_point: Seq<char>,
    path: Seq<char>,
    data_len: usize,
    can_grow: bool,
    aligned_len: usize,
)
    requires
        PakVariant::MarvelRivals.plan(mount_point, path, data_len, can_grow).final_len
            <= aligned_len,
    ensures
        ({
            let plan = PakVariant::MarvelRivals.plan(mount_point, path, data_len, can_grow);
            PakVariant::MarvelRivals.encrypted_len_read(
                mount_point,
                path,
                plan.final_len,
                can_grow,
                aligned_len,
            ) == plan.encrypted_len
        }),
{
}

/// The length for a seed is the multiple of 64 at or below 319 and 63 times the seed's rest by 61.
pub proof fn law_prefix_for_seed(seed: nat)
    ensures
        ({
            let x = 319 + 63 * (seed % 61);
            let r = prefix_for_seed(seed);
            r % 64 == 0 && r <= x < r + 64
        }),
{
}

/// How the length of the prefix follows from the path: the BLAKE3 hash of four fixed bytes and the
/// path in lower case gives, in its first eight bytes, the seed. The standard variant has none.
pub proof fn law_prefix_from_path(mount_point: Seq<char>, path: Seq<char>)
    requires
        ({
            let d = blake3_digest(
                seq![0x11u8, 0x22, 0x33, 0x44] + encode_utf8(
                    lowercased(mounted_path(mount_point, path)),
                ),
            );
            d.len() >= 8
        }),
    ensures
        ({
            let d = blake3_digest(
                seq![0x11u8, 0x22, 0x33, 0x44] + encode_utf8(
                    lowercased(mounted_path(mount_point, path)),
                ),
            );
            let seed = d[0] + 0x100 * d[1] + 0x1_0000 * d[2] + 0x100_0000 * d[3] + 0x1_0000_0000 * (
            d[4] + 0x100 * d[5] + 0x1_0000 * d[6] + 0x100_0000 * d[7]);
            let x = 319 + 63 * (seed % 61);
            let r = PakVariant::MarvelRivals.prefix_len(mount_point, path);
            &&& r % 64 == 0
            &&& r <= x < r + 64
            &&& PakVariant::Standard.prefix_len(mount_point, path) == 0
        }),
{
    let salt = MARVEL_RIVALS_ENCRYPT_LIMIT_SALT@;
    assert(salt =~= seq![0x11u8, 0x22, 0x33, 0x44]);
    let d = blake3_digest(salted(lowercased(mounted_path(mount_point, path))));
    law_little_endian(d, 0);
}

/// A path without doubled slashes is hashed as mount point, slash and path, less three times `../`
/// at the start. Together with `law_doubled_slash` and `law_slash_between` this tells the hashed
/// path for all paths.
pub proof fn law_path_without_doubled_slash(mount_point: Seq<char>, path: Seq<char>)
    requires
        ({
            let s = mount_point + seq!['/'] + path;
            forall|i: int| 0 <= i < s.len() - 1 ==> !(#[trigger] s[i] == '/' && s[i + 1] == '/')
        }),
    ensures
        ({
            let s = mount_point + seq!['/'] + path;
            let up = seq!['.', '.', '/', '.', '.', '/', '.', '.', '/'];
            mounted_path(mount_point, path) == if s.len() >= 9 && s.take(9) == up {
                s.skip(9)
            } else {
                s
            }
        }),
{
    let s = mount_point + seq!['/'] + path;
    assert(s =~= mount_point.push('/') + path);
    lemma_collapsed_single(s);
    if s.len() >= 9 {
        assert(s.take(9) =~= s.subrange(0, 9));
    }
    assert(mount_prefix() =~= seq!['.', '.', '/', '.', '.', '/', '.', '.', '/']);
}

proof fn lemma_collapsed_single(s: Seq<char>)
    requires
        forall|i: int| 0 <= i < s.len() - 1 ==> !(#[trigger] s[i] == '/' && s[i + 1] == '/'),
    ensures
        collapsed(s) == s,
    decreases s.len(),
{
    if s.len() > 0 {
        let front = s.drop_last();
        assert forall|i: int| 0 <= i < front.len() - 1 implies !(#[trigger] front[i] == '/'
            && front[i + 1] == '/') by {
            assert(s[i] == front[i] && s[i + 1] == front[i + 1]);
        }
        lemma_collapsed_single(front);
        if s.len() > 1 {
            let k = s.len() - 2;
            assert(!(s[k] == '/' && s[k + 1] == '/'));
        }
        assert(front.push(s.last()) =~= s);
    }
    assert(collapsed(s) =~= s);
}

/// One of two slashes in a row makes no difference, wherever they stand.
pub proof fn law_doubled_slash(a: Seq<char>, b: Seq<char>, other: Seq<char>)
    ensures
        mounted_path(a + seq!['/', '/'] + b, other) == mounted_path(a + seq!['/'] + b, other),
        mounted_path(other, a + seq!['/', '/'] + b) == mounted_path(other, a + seq!['/'] + b),
{
    let tail = b.push('/') + other;
    lemma_slash_again(a, tail);
    assert((a + seq!['/', '/'] + b).push('/') + other =~= a.push('/').push('/') + tail);
    assert((a + seq!['/'] + b).push('/') + other =~= a.push('/') + tail);
    let head = other.push('/') + a;
    lemma_slash_again(head, b);
    assert(other.push('/') + (a + seq!['/', '/'] + b) =~= head.push('/').push('/') + b);
    assert(other.push('/') + (a + seq!['/'] + b) =~= head.push('/') + b);
}

/// What a plan says. The standard variant encrypts nothing and changes no length. Otherwise the
/// prefix is encrypted if the data is longer; data that is not longer is encrypted up to a
/// multiple of sixteen: the next one if it may grow, and the last one if not.
pub proof fn law_plan(
    mount_point: Seq<char>,
    path: Seq<char>,
    data_len: usize,
    can_grow: bool,
)
    ensures
        ({
            let plan = PakVariant::Standard.plan(mount_point, path, data_len, can_grow);
            plan.encrypted_len == 0 && plan.final_len == data_len
        }),
        ({
            let plan = PakVariant::MarvelRivals.plan(mount_point, path, data_len, can_grow);
            let prefix = PakVariant::MarvelRivals.prefix_len(mount_point, path);
            &&& 256 <= prefix <= 4096
            &&& if data_len > prefix {
                plan.encrypted_len == prefix && plan.final_len == data_len
            } else if can_grow {
                &&& plan.final_len % 16 == 0
                &&& data_len <= plan.final_len < data_len + 16
                &&& plan.encrypted_len == plan.final_len
            } else {
                &&& plan.final_len == data_len
                &&& plan.encrypted_len % 16 == 0
                &&& plan.encrypted_len <= data_len < plan.encrypted_len + 16
            }
        }),
{
}

/// How much of what was read is encrypted: in the standard variant all of it, otherwise what the
/// plan for its length says, as far as it was read.
pub proof fn law_encrypted_len_read(
    mount_point: Seq<char>,
    path: Seq<char>,
    compressed_len: usize,
    can_grow: bool,
    aligned_len: usize,
)
    ensures
        PakVariant::Standard.encrypted_len_read(
            mount_point,
            path,
            compressed_len,
            can_grow,
            aligned_len,
        ) == aligned_len,
        ({
            let n = PakVariant::MarvelRivals.plan(
                mount_point,
                path,
                compressed_len,
                can_grow,
            ).encrypted_len;
            let r = PakVariant::MarvelRivals.encrypted_len_read(
                mount_point,
                path,
                compressed_len,
                can_grow,
                aligned_len,
            );
            r <= n && r <= aligned_len && (r == n || r == aligned_len)
        }),
{
}

/// Which deviations the variants have: the word order, and the 35 bytes behind the index.
pub proof fn law_deviations()
    ensures
        !PakVariant::Standard.reverse_word_order(),
        PakVariant::MarvelRivals.reverse_word_order(),
        PakVariant::Standard.trailer() == Seq::<u8>::empty(),
        PakVariant::MarvelRivals.trailer() == seq![
            0x06u8, 0x12, 0x24, 0x20, 0x06, 0x00, 0x00, 0x00, 0x01, 0x02, 0x00, 0x10, 0x00, 0x00,
            0x00, 0x00, 0x00, 0x00, 0x01, 0x00, 0x01, 0x00, 0x00, 0x00, 0x00, 0x00, 0x00, 0x00,
            0x10, 0x00, 0x00, 0x00, 0x00, 0x00, 0x00,
        ],
{
    assert(MARVEL_RIVALS_INDEX_TRAILER@ =~= seq![
        0x06u8, 0x12, 0x24, 0x20, 0x06, 0x00, 0x00, 0x00, 0x01, 0x02, 0x00, 0x10, 0x00, 0x00, 0x00,
        0x00, 0x00, 0x00, 0x01, 0x00, 0x01, 0x00, 0x00, 0x00, 0x00, 0x00, 0x00, 0x00, 0x10, 0x00,
        0x00, 0x00, 0x00, 0x00, 0x00,
    ]);
}

} // verus!
