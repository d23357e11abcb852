use brotli_dec::transforms::{Transform, WordTransformType};

fn tf(prefix: &[u8], t: WordTransformType, suffix: &[u8]) -> Transform {
    Transform { prefix: prefix.to_vec(), transform: t, suffix: suffix.to_vec() }
}

#[test]
fn test_transform() {
    let word: Vec<u8> = b"hello".to_vec();
    let mut dst: Vec<u8> = vec![0u8; 20];

    // Transform 4 of the standard catalog: uppercase the first character,
    // then a space.
    let bytes = tf(b"", WordTransformType::UppercaseFirst, b" ").transform(&word, &mut dst);
    assert_eq!(&dst[..bytes], b"Hello ");
    assert_eq!(bytes, 6);

    // Transform 85: a leading space, all characters uppercased.
    let bytes = tf(b" ", WordTransformType::UppercaseAll, b"").transform(&word, &mut dst);
    assert_eq!(&dst[..bytes], b" HELLO");
    assert_eq!(bytes, 6);

    // Transform 11: the first two bytes omitted.
    let bytes = tf(b"", WordTransformType::OmitFirst(2), b"").transform(&word, &mut dst);
    assert_eq!(&dst[..bytes], b"llo");
    assert_eq!(bytes, 3);
}

#[test]
fn identity_keeps_word_between_prefix_and_suffix() {
    let word: Vec<u8> = b"word".to_vec();
    let mut dst: Vec<u8> = vec![0u8; 32];
    let bytes = tf(b" the ", WordTransformType::Identity, b" of ").transform(&word, &mut dst);
    assert_eq!(&dst[..bytes], b" the word of ");
    assert_eq!(bytes, 13);
}

#[test]
fn omit_last_drops_trailing_bytes() {
    let word: Vec<u8> = b"evening".to_vec();
    let mut dst: Vec<u8> = vec![0u8; 32];
    let bytes = tf(b"", WordTransformType::OmitLast(3), b"").transform(&word, &mut dst);
    assert_eq!(&dst[..bytes], b"even");
}

#[test]
fn uppercase_maps_ascii_only_in_letter_range() {
    let mut word: Vec<u8> = b"a2z{ }".to_vec();
    Transform::to_uppercase(&mut word, false);
    assert_eq!(word, b"A2Z{ }");
}

#[test]
fn uppercase_two_byte_group_flips_second_byte() {
    // 0xC3 0xA9 is a two-byte group: the second byte is flipped by 32.
    let mut word: Vec<u8> = vec![0xC3, 0xA9, b'x'];
    Transform::to_uppercase(&mut word, false);
    assert_eq!(word, vec![0xC3, 0x89, b'X']);
}

#[test]
fn uppercase_three_byte_group_flips_third_byte() {
    // A lead byte of 224 or more heads a three-byte group: the third byte
    // is flipped by 5.
    let mut word: Vec<u8> = vec![0xE2, 0x82, 0xAC];
    Transform::to_uppercase(&mut word, false);
    assert_eq!(word, vec![0xE2, 0x82, 0xA9]);
}

#[test]
fn uppercase_first_touches_only_the_first_group() {
    let mut word: Vec<u8> = b"abc".to_vec();
    Transform::to_uppercase(&mut word, true);
    assert_eq!(word, b"Abc");
}

#[test]
fn uppercase_leaves_truncated_trailing_group_alone() {
    let mut word: Vec<u8> = vec![b'a', 0xC3];
    Transform::to_uppercase(&mut word, false);
    assert_eq!(word, vec![b'A', 0xC3]);
}
