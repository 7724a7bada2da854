use leech::utils::{
    byte_slice_to_u32, byte_slice_to_u64, from_bits, my_peer_id, sha1, to_bits, u32_to_byte_slice,
    u64_to_byte_slice, BLOCK_SIZE,
};

#[test]
fn block_size_is_two_to_the_fourteenth() {
    assert_eq!(BLOCK_SIZE, 16384);
}

#[test]
fn u32_is_written_big_endian() {
    assert_eq!(u32_to_byte_slice(0x01020304), vec![1, 2, 3, 4]);
    assert_eq!(u32_to_byte_slice(0), vec![0, 0, 0, 0]);
    assert_eq!(u32_to_byte_slice(u32::MAX), vec![255, 255, 255, 255]);
    assert_eq!(u32_to_byte_slice(16384), vec![0, 0, 0x40, 0]);
}

#[test]
fn u64_is_written_big_endian() {
    assert_eq!(u64_to_byte_slice(0x41727101980), vec![0, 0, 0x04, 0x17, 0x27, 0x10, 0x19, 0x80]);
    assert_eq!(u64_to_byte_slice(u64::MAX), vec![255; 8]);
}

#[test]
fn big_endian_bytes_are_read_back() {
    assert_eq!(byte_slice_to_u32(&[0, 0, 0, 7]), 7);
    assert_eq!(byte_slice_to_u32(&[0x12, 0x34, 0x56, 0x78]), 0x12345678);
    assert_eq!(byte_slice_to_u64(&[0, 0, 0x04, 0x17, 0x27, 0x10, 0x19, 0x80]), 0x41727101980);
    for x in [0u32, 1, 255, 256, 65535, 65536, 0xdeadbeef, u32::MAX] {
        assert_eq!(byte_slice_to_u32(&u32_to_byte_slice(x)), x);
    }
    for x in [0u64, 1, 0xffff_ffff, 0x1_0000_0000, 0x0123_4567_89ab_cdef, u64::MAX] {
        assert_eq!(byte_slice_to_u64(&u64_to_byte_slice(x)), x);
    }
}

#[test]
fn bits_are_unpacked_most_significant_first() {
    assert_eq!(to_bits(&[0b1000_0001]), vec![1, 0, 0, 0, 0, 0, 0, 1]);
    assert_eq!(
        to_bits(&[0xa5, 0x0f]),
        vec![1, 0, 1, 0, 0, 1, 0, 1, 0, 0, 0, 0, 1, 1, 1, 1]
    );
    assert_eq!(to_bits(&[]), Vec::<u8>::new());
}

#[test]
fn bits_are_packed_most_significant_first_and_padded() {
    assert_eq!(from_bits(&[1, 0, 0, 0, 0, 0, 0, 1]), vec![0b1000_0001]);
    assert_eq!(from_bits(&[1]), vec![0b1000_0000]);
    assert_eq!(from_bits(&[0, 0, 0, 0, 0, 0, 0, 0, 1]), vec![0, 0b1000_0000]);
    assert_eq!(from_bits(&[]), Vec::<u8>::new());
    // an entry counts as set when it is not zero
    assert_eq!(from_bits(&[0, 7]), vec![0b0100_0000]);
}

#[test]
fn packing_the_bits_of_bytes_gives_the_bytes() {
    let all: Vec<u8> = (0..=255).collect();
    assert_eq!(from_bits(&to_bits(&all)), all);
}

#[test]
fn unpacking_packed_bits_gives_the_bits_padded() {
    let bits = vec![1, 0, 1, 1, 0, 0, 1, 0, 1, 1];
    let mut padded = bits.clone();
    padded.extend_from_slice(&[0; 6]);
    assert_eq!(to_bits(&from_bits(&bits)), padded);
}

#[test]
fn sha1_of_known_inputs() {
    let digest = sha1(&b"Hello World!".to_vec());
    assert_eq!(digest.len(), 20);
    assert_eq!(leech::utils::Hash::from_vec(&digest).to_hex(), "2ef7bde608ce5404e97d5f042f95f89f1c232871");
    let empty = sha1(&Vec::new());
    assert_eq!(leech::utils::Hash::from_vec(&empty).to_hex(), "da39a3ee5e6b4b0d3255bfef95601890afd80709");
    assert_ne!(sha1(&b"abc".to_vec()), b"abc".to_vec());
}

#[test]
fn hash_from_slice_keeps_the_bytes() {
    let bytes: Vec<u8> = (1..=20).collect();
    let hash = leech::utils::Hash::from_slice(&bytes);
    assert_eq!(hash.0.to_vec(), bytes);
    assert_eq!(hash.to_vec(), bytes);
    assert_eq!(leech::utils::Hash::from_vec(&bytes), hash);
    assert!(hash.same_as(&leech::utils::Hash::from_vec(&bytes)));
    assert!(!hash.same_as(&leech::utils::Hash::default()));
}

#[test]
fn hash_of_wrong_length_is_refused() {
    assert!(leech::utils::Hash::try_from_slice(&[0u8; 19]).is_none());
    assert!(leech::utils::Hash::try_from_slice(&[0u8; 21]).is_none());
    assert_eq!(leech::utils::Hash::try_from_slice(&[7u8; 20]), Some(leech::utils::Hash([7u8; 20])));
}

#[test]
fn hash_is_shown_as_forty_lowercase_hex_digits() {
    let mut bytes = [0u8; 20];
    bytes[0] = 0xab;
    bytes[1] = 0x0c;
    bytes[19] = 0xff;
    assert_eq!(leech::utils::Hash(bytes).to_hex(), "ab0c0000000000000000000000000000000000ff");
    assert_eq!(leech::utils::Hash::default().to_hex(), "0".repeat(40));
}

#[test]
fn hash_is_percent_encoded_bytewise() {
    let mut bytes = [0u8; 20];
    bytes[0] = 0xab;
    bytes[1] = 0x20;
    let text = leech::utils::Hash(bytes).url_encoded();
    assert_eq!(text.len(), 60);
    assert!(text.starts_with("%ab%20%00"));
    assert_eq!(my_peer_id().url_encoded(), "%33%31%34%31%35%39%32%36%35%33%35%38%39%37%39%33%32%33%38%35");
}

#[test]
fn peer_id_is_twenty_ascii_digits() {
    assert_eq!(my_peer_id().0.to_vec(), b"31415926535897932385".to_vec());
}
