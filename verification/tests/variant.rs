use repak::{EncryptionPlan, PakVariant};
use repak::variant::{
    join_mount_path, marvel_rivals_encrypted_prefix_len, plan_with_prefix, prefix_len_for_digest,
    prefix_len_for_seed, salted_path,
};

#[test]
fn test_join_mount_path() {
    assert_eq!(
        join_mount_path("../../../MyGame/Content", "Foo/Bar.uasset"),
        "MyGame/Content/Foo/Bar.uasset"
    );
    // doubled slash between mount point and path is collapsed
    assert_eq!(
        join_mount_path("../../../MyGame/Content/", "Foo/Bar.uasset"),
        "MyGame/Content/Foo/Bar.uasset"
    );
    // an unrecognized mount point convention is left alone instead of panicking
    assert_eq!(join_mount_path("/Game/", "Foo.uasset"), "/Game/Foo.uasset");
}

#[test]
fn test_standard_variant_never_encrypts_file_data() {
    let plan = PakVariant::Standard.encryption_plan("../../../A/", "b.uasset", 12345, true);
    assert_eq!(plan.encrypted_len, 0);
    assert_eq!(plan.final_len, 12345);
    assert!(!PakVariant::Standard.reverse_word_order());
    assert!(PakVariant::Standard.index_trailer().is_empty());
}

#[test]
fn test_marvel_rivals_large_compressed_file_encrypts_a_block_aligned_prefix_without_growing() {
    let plan = PakVariant::MarvelRivals.encryption_plan(
        "../../../MyGame/Content",
        "Foo/Bar.uasset",
        1_000_000,
        true,
    );
    assert_eq!(plan.final_len, 1_000_000, "a large file is never padded");
    assert_eq!(plan.encrypted_len % 16, 0, "prefix must be AES-block-aligned");
    // ((seed % 0x3D) * 63 + 319) ranges 319..=4099 before rounding down to a multiple of
    // 64, giving 256..=4096.
    assert!(
        (256..=4096).contains(&plan.encrypted_len),
        "len was {}",
        plan.encrypted_len
    );
    // deterministic: same inputs, same result
    assert_eq!(
        plan,
        PakVariant::MarvelRivals.encryption_plan(
            "../../../MyGame/Content",
            "Foo/Bar.uasset",
            1_000_000,
            true,
        )
    );
}

#[test]
fn test_marvel_rivals_small_compressed_file_is_padded_and_fully_encrypted() {
    // A compressed entry's compressed size is already independent of its uncompressed
    // size in the format, so padding to grow it is safe.
    let plan = PakVariant::MarvelRivals.encryption_plan("../../../A/", "b.uasset", 10, true);
    assert_eq!(plan.final_len % 16, 0);
    assert!(plan.final_len >= 10);
    assert_eq!(plan.encrypted_len, plan.final_len, "the whole padded file is encrypted");
}

#[test]
fn test_marvel_rivals_small_uncompressed_file_is_never_padded() {
    // An uncompressed entry has no way to record a compressed size that differs from its
    // uncompressed size, so growth is not allowed - the buffer's length must come back
    // out unchanged even though the file is smaller than the hash-derived limit.
    let plan = PakVariant::MarvelRivals.encryption_plan("../../../A/", "b.uasset", 10, false);
    assert_eq!(plan.final_len, 10, "an uncompressed entry must never grow");
    assert_eq!(plan.encrypted_len, 0, "10 bytes is under one AES block");

    let plan14 = PakVariant::MarvelRivals.encryption_plan("../../../A/", "b.uasset", 14, false);
    assert_eq!(plan14.final_len, 14);
    assert_eq!(plan14.encrypted_len, 0, "14 bytes is still under one AES block");
}

#[test]
fn test_standard_read_encrypted_len_assumes_whole_buffer() {
    // Standard assumes an entry marked encrypted was fully encrypted, matching how a
    // real Unreal Engine pak encrypts a whole file - unrelated to whether this crate's
    // own writer ever proactively encrypts file data for the standard variant.
    assert_eq!(
        PakVariant::Standard.read_encrypted_len("../../../A/", "b.uasset", 100, true, 112),
        112
    );
}

#[test]
fn test_marvel_rivals_read_encrypted_len_matches_write_side_when_uncompressed_and_unchanged() {
    // Reading back with the exact same (unchanged, since uncompressed never grows) length
    // written must reproduce the same encrypted-byte count.
    let write_plan =
        PakVariant::MarvelRivals.encryption_plan("../../../A/", "b.uasset", 1_000_000, false);
    assert_eq!(
        PakVariant::MarvelRivals.read_encrypted_len(
            "../../../A/",
            "b.uasset",
            write_plan.final_len,
            false,
            write_plan.final_len,
        ),
        write_plan.encrypted_len
    );
}

#[test]
fn the_prefix_length_follows_from_the_hash_of_the_path() {
    assert_eq!(
        marvel_rivals_encrypted_prefix_len("../../../MyGame/Content", "Foo/Bar.uasset"),
        256
    );
    assert_eq!(marvel_rivals_encrypted_prefix_len("../../../A/", "b.uasset"), 1856);
    assert_eq!(marvel_rivals_encrypted_prefix_len("/Game/", "Foo.uasset"), 2496);
    assert_eq!(
        PakVariant::MarvelRivals.raw_encrypted_prefix_len("../../../A/", "b.uasset"),
        1856
    );
    assert_eq!(PakVariant::Standard.raw_encrypted_prefix_len("../../../A/", "b.uasset"), 0);
}

#[test]
fn the_case_of_the_path_does_not_matter_to_the_prefix_length() {
    assert_eq!(
        marvel_rivals_encrypted_prefix_len("../../../MARVEL/Content", "paks/A.BIN"),
        1024
    );
    assert_eq!(
        marvel_rivals_encrypted_prefix_len("../../../Marvel/Content", "Paks/a.bin"),
        1024
    );
}

#[test]
fn a_slash_at_the_seam_does_not_matter() {
    for (mount, path) in [("../../../A", "b"), ("../../../A/", "b"), ("../../../A", "/b")] {
        assert_eq!(join_mount_path(mount, path), "A/b");
    }
    assert_eq!(join_mount_path("a//b", "c///d/"), "a/b/c/d/");
    assert_eq!(join_mount_path("", ""), "/");
    assert_eq!(join_mount_path("../../..", "x"), "x");
    assert_eq!(join_mount_path("../../", "x"), "../../x");
}

#[test]
fn prefix_lengths_at_the_ends_of_the_range() {
    assert_eq!(prefix_len_for_seed(0), 256);
    assert_eq!(prefix_len_for_seed(60), 4096);
    assert_eq!(prefix_len_for_seed(61), 256);
    assert_eq!(prefix_len_for_seed(2), 384);
    assert_eq!(prefix_len_for_seed(u64::MAX), ((u64::MAX % 61 * 63 + 319) / 64 * 64) as usize);
}

#[test]
fn plans_at_the_seams() {
    let plan = |final_len, encrypted_len| EncryptionPlan { final_len, encrypted_len };
    assert_eq!(plan_with_prefix(256, 257, true), plan(257, 256));
    assert_eq!(plan_with_prefix(256, 256, true), plan(256, 256));
    assert_eq!(plan_with_prefix(256, 250, true), plan(256, 256));
    assert_eq!(plan_with_prefix(256, 250, false), plan(250, 240));
    assert_eq!(plan_with_prefix(256, 0, true), plan(0, 0));
    assert_eq!(plan_with_prefix(0, 100, true), plan(100, 0));
}

#[test]
fn the_reader_finds_the_encrypted_length_of_data_that_grew() {
    let variant = PakVariant::MarvelRivals;
    for len in [0usize, 1, 15, 16, 17, 1855, 1856, 1857, 5000] {
        for can_grow in [false, true] {
            let plan = variant.encryption_plan("../../../A/", "b.uasset", len, can_grow);
            let aligned = (plan.final_len + 15) / 16 * 16;
            assert_eq!(
                variant.read_encrypted_len(
                    "../../../A/",
                    "b.uasset",
                    plan.final_len,
                    can_grow,
                    aligned
                ),
                plan.encrypted_len
            );
        }
    }
}

#[test]
fn the_trailer_of_the_variant() {
    let trailer = PakVariant::MarvelRivals.index_trailer();
    assert_eq!(trailer.len(), 35);
    assert_eq!(&trailer[..12], &[6, 0x12, 0x24, 0x20, 6, 0, 0, 0, 1, 2, 0, 0x10]);
    assert!(PakVariant::MarvelRivals.reverse_word_order());
    assert_eq!(PakVariant::default(), PakVariant::Standard);
}

#[test]
fn the_hashed_bytes_and_the_seed() {
    assert_eq!(salted_path("a/\u{e9}"), [0x11, 0x22, 0x33, 0x44, b'a', b'/', 0xc3, 0xa9]);
    let mut digest = [0xffu8; 32];
    digest[..8].copy_from_slice(&[60, 0, 0, 0, 0, 0, 0, 0]);
    assert_eq!(prefix_len_for_digest(&digest), 4096);
    digest[1] = 1; // 316 % 61 is 11
    assert_eq!(prefix_len_for_digest(&digest), 960);
}
