use rsa::{BigUint, RsaPrivateKey, RsaPublicKey};
use secure_transfer::handshake::{
    answer_public_key, decrypt_session_key, encrypt_session_key, generate_keypair,
    offer_public_key, open_session_key, public_key_from_bytes, public_key_to_bytes, HandshakeError,
};
use secure_transfer::session::{
    decode_header, encode_header, frame_length, fresh_secrets, key_from_bytes, nonce_from_bytes,
    push_frame, secrets_from, HEADER_LEN,
};

const P: &str = "f637bfe52626ff63c3ad204a01908298fc631e7e885f290cd845151d809891a0\
                 4ad13d9e9d57b758520c8d8297c86e54215dfb298d91f7318d1e9d2ecf4f0c9b";
const Q: &str = "fc63569f1e5a02820d5c0441e06ec9235390ae64b9ec631c78dafe6a7029a434\
                 9e98f100bdd7909de56605232eaf8fd4848a29e25b954473fc599fd573d7abc5";

/// A key pair of 1024 bits.
fn small_pair() -> (RsaPrivateKey, RsaPublicKey) {
    let p = BigUint::parse_bytes(P.as_bytes(), 16).unwrap();
    let q = BigUint::parse_bytes(Q.as_bytes(), 16).unwrap();
    let private = RsaPrivateKey::from_p_q(p, q, BigUint::from(65537u32)).unwrap();
    let public = RsaPublicKey::from(&private);
    (private, public)
}

#[test]
fn new_key_pair_carries_a_session_key() {
    let (private, public) = generate_keypair().unwrap();
    let encrypted = encrypt_session_key(&public, &[0x42; 32]).unwrap();
    assert_eq!(encrypted.len(), 256);
    assert_eq!(open_session_key(&private, &encrypted).unwrap(), [0x42; 32]);
}

#[test]
fn session_key_and_nonce_reach_the_other_side() {
    let (private, public) = small_pair();

    let offer = offer_public_key(&public).unwrap();
    let prefix: [u8; 4] = offer[..4].try_into().unwrap();
    assert_eq!(frame_length(&prefix), offer.len() - 4);

    let session_key = [0x42u8; 32];
    let nonce = [0x17u8; 16];
    let answer = answer_public_key(&offer[4..], &session_key, &nonce).unwrap();
    let prefix: [u8; 4] = answer[..4].try_into().unwrap();
    let len = frame_length(&prefix);
    assert_eq!(len, 128);
    assert_eq!(answer.len(), 4 + len + 16);
    assert_eq!(answer[4 + len..], nonce);
    let encrypted = &answer[4..4 + len];
    assert_ne!(encrypted[..32], session_key);
    assert_eq!(open_session_key(&private, encrypted).unwrap(), session_key);
}

#[test]
fn public_key_survives_its_text() {
    let (_, public) = small_pair();
    let pem = public_key_to_bytes(&public).unwrap();
    assert!(pem.starts_with(b"-----BEGIN PUBLIC KEY-----"));
    assert!(public_key_from_bytes(&pem).unwrap() == public);
}

#[test]
fn keys_that_are_written_but_not_read() {
    let (_, public) = small_pair();
    let n = rsa::traits::PublicKeyParts::n(&public).clone();
    let even = RsaPublicKey::new_unchecked(n.clone() + 1u32, BigUint::from(65537u32));
    let large = RsaPublicKey::new_unchecked((n << 4000usize) + 1u32, BigUint::from(65537u32));
    for key in [even, large] {
        let pem = public_key_to_bytes(&key).unwrap();
        assert!(matches!(
            public_key_from_bytes(&pem),
            Err(HandshakeError::Encoding(_))
        ));
        assert_eq!(offer_public_key(&key).unwrap()[4..], pem);
    }
}

#[test]
fn encryption_differs_from_call_to_call() {
    let (private, public) = small_pair();
    let one = encrypt_session_key(&public, b"message").unwrap();
    let two = encrypt_session_key(&public, b"message").unwrap();
    assert_ne!(one, two);
    assert_eq!(decrypt_session_key(&private, &one).unwrap(), b"message");
    assert_eq!(decrypt_session_key(&private, &two).unwrap(), b"message");
}

#[test]
fn longest_message_and_one_byte_more() {
    let (private, public) = small_pair();
    let encrypted = encrypt_session_key(&public, &[1; 128 - 66]).unwrap();
    assert_eq!(decrypt_session_key(&private, &encrypted).unwrap(), vec![1; 128 - 66]);
    assert!(matches!(
        encrypt_session_key(&public, &[1; 128 - 65]),
        Err(HandshakeError::Rsa(_))
    ));
    let nothing = encrypt_session_key(&public, &[]).unwrap();
    assert!(decrypt_session_key(&private, &nothing).unwrap().is_empty());
}

#[test]
fn unacceptable_keys_encrypt_nothing() {
    let (_, public) = small_pair();
    let even = RsaPublicKey::new_unchecked(
        rsa::traits::PublicKeyParts::n(&public).clone() + 1u32,
        BigUint::from(65537u32),
    );
    assert!(matches!(
        encrypt_session_key(&even, &[1; 32]),
        Err(HandshakeError::Rsa(_))
    ));
}

#[test]
fn a_message_of_another_length_is_no_session_key() {
    let (private, public) = small_pair();
    let encrypted = encrypt_session_key(&public, &[1; 16]).unwrap();
    assert!(matches!(
        open_session_key(&private, &encrypted),
        Err(HandshakeError::KeyLength(16))
    ));
}

#[test]
fn damaged_messages_are_refused() {
    let (private, public) = small_pair();
    let encrypted = encrypt_session_key(&public, &[1; 32]).unwrap();
    let mut damaged = encrypted.clone();
    damaged[100] ^= 1;
    assert!(matches!(
        open_session_key(&private, &damaged),
        Err(HandshakeError::Rsa(_))
    ));
    assert!(matches!(
        decrypt_session_key(&private, &encrypted[1..]),
        Err(HandshakeError::Rsa(_))
    ));
}

#[test]
fn texts_that_hold_no_key() {
    assert!(matches!(
        public_key_from_bytes(&[0xff, 0xfe]),
        Err(HandshakeError::NotUtf8)
    ));
    assert!(matches!(
        public_key_from_bytes(b"no key"),
        Err(HandshakeError::Encoding(_))
    ));
    assert!(matches!(
        answer_public_key(&[0xff], &[0; 32], &[0; 16]),
        Err(HandshakeError::NotUtf8)
    ));
    assert!(matches!(
        answer_public_key(b"", &[0; 32], &[0; 16]),
        Err(HandshakeError::Encoding(_))
    ));
}

#[test]
fn a_small_key_has_no_room_for_a_session_key() {
    // 521 bits: 66 bytes, all of which the padding takes.
    let n = (BigUint::from(1u32) << 520usize) + 1u32;
    let public = RsaPublicKey::new(n, BigUint::from(65537u32)).unwrap();
    let pem = public_key_to_bytes(&public).unwrap();
    assert!(matches!(
        answer_public_key(&pem, &[0; 32], &[0; 16]),
        Err(HandshakeError::Rsa(_))
    ));
    assert_eq!(encrypt_session_key(&public, &[]).unwrap().len(), 66);
}

#[test]
fn frames_hold_their_length() {
    let mut out = vec![7];
    push_frame(&mut out, b"abc");
    assert_eq!(out, vec![7, 0, 0, 0, 3, b'a', b'b', b'c']);
    assert_eq!(frame_length(&[0x01, 0x02, 0x03, 0x04]), 0x01020304);
}

#[test]
fn header_round_trip() {
    let bytes = encode_header(0x01020304, 0x1122334455667788);
    assert_eq!(bytes, vec![1, 2, 3, 4, 0x11, 0x22, 0x33, 0x44, 0x55, 0x66, 0x77, 0x88]);
    assert_eq!(bytes.len(), HEADER_LEN);
    let bytes: [u8; 12] = bytes.try_into().unwrap();
    assert_eq!(decode_header(&bytes), (0x01020304, 0x1122334455667788));
}

#[test]
fn secrets_are_drawn_anew() {
    let one = fresh_secrets().unwrap();
    let two = fresh_secrets().unwrap();
    assert_ne!(one.session_key, two.session_key);
    assert_ne!(one.nonce, two.nonce);
    assert_ne!(one.session_key, [0; 32]);
}

#[test]
fn keys_and_nonces_have_their_length() {
    let bytes: Vec<u8> = (0..32).collect();
    assert_eq!(key_from_bytes(&bytes).unwrap().to_vec(), bytes);
    assert!(key_from_bytes(&bytes[1..]).is_none());
    assert_eq!(nonce_from_bytes(&bytes[..16]).unwrap().to_vec(), &bytes[..16]);
    assert!(nonce_from_bytes(&bytes).is_none());
    let secrets = secrets_from(&bytes, &bytes[16..]).unwrap();
    assert_eq!(secrets.session_key.to_vec(), bytes);
    assert_eq!(secrets.nonce.to_vec(), &bytes[16..]);
    assert!(secrets_from(&bytes, &bytes).is_none());
}
