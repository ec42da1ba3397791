use sha0::Sha0;

fn hash(input: &[u8]) -> String {
    let mut hasher = Sha0::new();
    hasher.update(input);
    hasher.finalize()
}

#[test]
fn test_sha0_known_vectors() {
    let mut hasher = Sha0::new();
    hasher.update(b"abc");
    let digest = hasher.finalize();
    assert_eq!(digest, "0164b8a914cd2a5e74c4f7ff082c4d97f1edf880");

    let mut hasher = Sha0::new();
    hasher.update(b"");
    let digest = hasher.finalize();
    assert_eq!(digest, "f96cea198ad1dd5617ac084a3d92c6107708c0ef");

    let mut hasher = Sha0::new();
    hasher.update(b"The quick brown fox jumps over the lazy dog");
    let digest = hasher.finalize();
    assert_eq!(digest, "b03b401ba92d77666221e843feebf8c561cea5f7");
}

#[test]
fn no_update_at_all_is_the_empty_message() {
    assert_eq!(Sha0::new().finalize(), "f96cea198ad1dd5617ac084a3d92c6107708c0ef");
}

#[test]
fn padding_fits_in_the_last_block_at_55_bytes() {
    assert_eq!(hash(&[b'a'; 55]), "0ff59f7cb9afc10d7abcdc9ab8c00e0e7b02034f");
}

#[test]
fn padding_spills_into_a_new_block_at_56_bytes() {
    assert_eq!(hash(&[b'a'; 56]), "f826f1db56ddb270e25f21a7a40c4163b51c47ff");
}

#[test]
fn padding_spills_at_63_bytes() {
    assert_eq!(hash(&[b'a'; 63]), "61191abbfdb5d1c77bceae556de82b39bfbfcb9a");
}

#[test]
fn one_whole_block_gets_a_block_of_padding() {
    assert_eq!(hash(&[b'a'; 64]), "6381391134b901db7a5a03699339bca31c409dde");
}

#[test]
fn padding_fits_after_a_block_at_119_bytes() {
    assert_eq!(hash(&[b'a'; 119]), "86683a324cedc63bef20d6425cb1680e4054cf57");
}

#[test]
fn padding_spills_after_a_block_at_120_bytes() {
    assert_eq!(hash(&[b'a'; 120]), "451fa4e832121c06da75b5a4d4bcf705a1deec9c");
}

#[test]
fn two_whole_blocks() {
    assert_eq!(hash(&[b'a'; 128]), "6096274b54f470b623bbfa1ddefb1399f9f83808");
}

#[test]
fn schedule_is_not_rotated() {
    let digest = hash(b"abc");
    assert_ne!(digest, "a9993e364706816aba3e25717850c26c9cd0d89d");
    assert_eq!(digest, "0164b8a914cd2a5e74c4f7ff082c4d97f1edf880");
}

fn all_byte_values_twice() -> Vec<u8> {
    let mut data = Vec::new();
    for _ in 0..2 {
        for b in 0..=255u8 {
            data.push(b);
        }
    }
    data
}

#[test]
fn all_byte_values() {
    assert_eq!(hash(&all_byte_values_twice()), "d3deef7e1d4b306b523757732ecab0377239af1b");
}

#[test]
fn every_split_point_gives_the_same_digest() {
    let data = all_byte_values_twice();
    let whole = hash(&data);
    for split in 0..=data.len() {
        let mut hasher = Sha0::new();
        hasher.update(&data[..split]);
        hasher.update(&data[split..]);
        assert_eq!(hasher.finalize(), whole, "split at {}", split);
    }
}

#[test]
fn byte_at_a_time_and_empty_chunks() {
    let data = all_byte_values_twice();
    let mut hasher = Sha0::new();
    hasher.update(&[]);
    for b in &data {
        hasher.update(&[*b]);
        hasher.update(&[]);
    }
    assert_eq!(hasher.finalize(), "d3deef7e1d4b306b523757732ecab0377239af1b");
}

#[test]
fn chunks_of_many_sizes() {
    let data = all_byte_values_twice();
    for size in [1usize, 3, 55, 56, 63, 64, 65, 127, 200] {
        let mut hasher = Sha0::new();
        for chunk in data.chunks(size) {
            hasher.update(chunk);
        }
        assert_eq!(hasher.finalize(), "d3deef7e1d4b306b523757732ecab0377239af1b", "chunks of {}", size);
    }
}

#[test]
fn hashing_twice_gives_the_same_digest() {
    let input = b"The quick brown fox jumps over the lazy dog";
    assert_eq!(hash(input), hash(input));
    assert_eq!(hash(&[b'a'; 119]), hash(&[b'a'; 119]));
}

#[test]
fn order_of_chunks_matters() {
    let mut ab = Sha0::new();
    ab.update(b"ab");
    ab.update(b"cd");
    let mut ba = Sha0::new();
    ba.update(b"cd");
    ba.update(b"ab");
    assert_ne!(ab.finalize(), ba.finalize());
}

#[test]
fn digest_is_forty_lowercase_hex_digits() {
    for len in [0usize, 1, 55, 56, 64, 119, 1000] {
        let digest = hash(&vec![0x5a; len]);
        assert_eq!(digest.len(), 40);
        assert!(digest.chars().all(|c| c.is_ascii_digit() || ('a'..='f').contains(&c)));
    }
}
