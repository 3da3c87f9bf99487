use secure_transfer::checksum::{chunk_hash, FileHasher};
use secure_transfer::crypto::{build_counter, decrypt_chunk, encrypt_chunk};

#[test]
fn hashes_of_known_strings() {
    assert_eq!(chunk_hash(b""), 0xEF46DB3751D8E999);
    assert_eq!(chunk_hash(b"a"), 0xD24EC4F1A98C6E5B);
    assert_eq!(chunk_hash(b"abc"), 0x44BC2CF5AD770999);
}

#[test]
fn streaming_hash_does_not_depend_on_the_pieces() {
    let data: Vec<u8> = (0..10_000u32).map(|i| (i * 7 % 256) as u8).collect();
    let whole = chunk_hash(&data);
    for step in [1usize, 7, 31, 32, 33, 1400, 10_000] {
        let mut hasher = FileHasher::new();
        for piece in data.chunks(step) {
            hasher.update(piece);
        }
        assert_eq!(hasher.finish(), whole);
    }
}

#[test]
fn hash_of_nothing_streamed() {
    let mut hasher = FileHasher::new();
    hasher.update(&[]);
    assert_eq!(hasher.finish(), chunk_hash(&[]));
    assert_eq!(FileHasher::new().finish(), 0xEF46DB3751D8E999);
}

#[test]
fn counter_is_half_nonce_half_chunk_id() {
    let nonce = [1, 2, 3, 4, 5, 6, 7, 8, 9, 10, 11, 12, 13, 14, 15, 16];
    assert_eq!(
        build_counter(&nonce, 0x0a0b0c0d),
        [1, 2, 3, 4, 5, 6, 7, 8, 0, 0, 0, 0, 0x0a, 0x0b, 0x0c, 0x0d]
    );
}

#[test]
fn keystream_of_the_zero_key() {
    let mut data = [0u8; 48];
    encrypt_chunk(&mut data, &[0; 32], &[0; 16], 0);
    assert_eq!(
        data[..16],
        [
            0xdc, 0x95, 0xc0, 0x78, 0xa2, 0x40, 0x89, 0x89, 0xad, 0x48, 0xa2, 0x14, 0x92, 0x84, 0x20,
            0x87
        ]
    );
    assert_eq!(
        data[16..32],
        [
            0x53, 0x0f, 0x8a, 0xfb, 0xc7, 0x45, 0x36, 0xb9, 0xa9, 0x63, 0xb4, 0xf1, 0xc4, 0xcb, 0x73,
            0x8b
        ]
    );
    assert_eq!(
        data[32..],
        [
            0xce, 0xa7, 0x40, 0x3d, 0x4d, 0x60, 0x6b, 0x6e, 0x07, 0x4e, 0xc5, 0xd3, 0xba, 0xf3, 0x9d,
            0x18
        ]
    );
}

#[test]
fn chunk_id_moves_the_counter() {
    let mut data = [0u8; 16];
    encrypt_chunk(&mut data, &[0; 32], &[0; 16], 2);
    assert_eq!(data[..4], [0xce, 0xa7, 0x40, 0x3d]);
}

#[test]
fn second_half_of_the_nonce_is_not_used() {
    let mut a = [7u8; 100];
    let mut b = [7u8; 100];
    let mut nonce = [3u8; 16];
    encrypt_chunk(&mut a, &[9; 32], &nonce, 5);
    nonce[15] = 99;
    encrypt_chunk(&mut b, &[9; 32], &nonce, 5);
    assert_eq!(a, b);
    nonce[0] = 99;
    let mut c = [7u8; 100];
    encrypt_chunk(&mut c, &[9; 32], &nonce, 5);
    assert_ne!(a, c);
}

#[test]
fn decrypting_gives_the_chunk_back() {
    let key: [u8; 32] = [0x5a; 32];
    let nonce: [u8; 16] = [0xc3; 16];
    for len in [0usize, 1, 15, 16, 17, 1400] {
        let plain: Vec<u8> = (0..len).map(|i| i as u8).collect();
        let mut data = plain.clone();
        encrypt_chunk(&mut data, &key, &nonce, 1234);
        if len > 0 {
            assert_ne!(data, plain);
        }
        decrypt_chunk(&mut data, &key, &nonce, 1234);
        assert_eq!(data, plain);
    }
}
