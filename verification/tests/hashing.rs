use tiny_poe2smoother::hashing::{filepath_hash, hash_path, murmur2_32, murmur_hash64a, HashMode};

#[test]
fn hashing_filepath_hash_is_case_insensitive() {
    assert_eq!(
        filepath_hash("Metadata/Foo.ot"),
        filepath_hash("metadata/foo.ot")
    );
}

#[test]
fn hashing_ignores_slashes_at_the_end() {
    for mode in [HashMode::Murmur64A, HashMode::Fnv1A] {
        assert_eq!(
            hash_path(mode, "metadata/foo//"),
            hash_path(mode, "metadata/foo")
        );
    }
}

#[test]
fn hashing_empty_path_has_the_sentinels() {
    assert_eq!(hash_path(HashMode::Murmur64A, ""), 0xF42A94E69CFF42FE);
    assert_eq!(hash_path(HashMode::Fnv1A, ""), 0x07E47507B4A92E53);
    assert_eq!(filepath_hash("/"), 0x07E47507B4A92E53);
}

#[test]
fn hashing_murmur_covers_blocks_and_tails() {
    assert_eq!(murmur2_32(b""), 0);
    let a = murmur_hash64a(b"metadata");
    let b = murmur_hash64a(b"metadata/");
    assert_ne!(a, b);
    assert_ne!(murmur2_32(b"abc"), murmur2_32(b"abd"));
    assert_ne!(murmur2_32(b"abcd"), murmur2_32(b"abce"));
}
