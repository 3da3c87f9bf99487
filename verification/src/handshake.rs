//! The exchange of the session key: the receiver offers an RSA public key, the
//! sender answers with the session key encrypted under it.

use rand::rngs::OsRng;
use rsa::pkcs8::{DecodePublicKey, EncodePublicKey};
use rsa::{Oaep, RsaPrivateKey, RsaPublicKey};
use sha2::Sha256;
use vstd::prelude::*;
#[allow(unused_imports)]
use vstd::utf8::{decode_utf8, encode_utf8_decode_utf8, encode_utf8_valid_utf8, valid_utf8};
use crate::codec::push_bytes;
use crate::session::{key_from_bytes, push_frame};
#[allow(unused_imports)]
use crate::codec::be_bytes;
#[allow(unused_imports)]
use crate::session::{frame_bytes, law_frame_layout, KEY_LEN};

verus! {

// ---------------------------------------------------------------------------
// Keys and their numbers
// ---------------------------------------------------------------------------

/// The public key of `rsa`.
#[verifier::external_type_specification]
#[verifier::external_body]
pub struct ExRsaPublicKey(rsa::RsaPublicKey);

/// The private key of `rsa`.
#[verifier::external_type_specification]
#[verifier::external_body]
pub struct ExRsaPrivateKey(rsa::RsaPrivateKey);

/// The error of `rsa`'s arithmetic and padding.
#[verifier::external_type_specification]
#[verifier::external_body]
pub struct ExRsaError(rsa::Error);

/// The error of `rsa`'s key encodings.
#[verifier::external_type_specification]
#[verifier::external_body]
pub struct ExSpkiError(rsa::pkcs8::spki::Error);

/// The numbers in a public key: modulus and exponent.
pub uninterp spec fn public_numbers(key: RsaPublicKey) -> (nat, nat);

/// The modulus and the public exponent in a private key.
pub uninterp spec fn private_numbers(key: RsaPrivateKey) -> (nat, nat);

/// The private exponent of a private key.
pub uninterp spec fn private_exponent(key: RsaPrivateKey) -> nat;

/// The factors of the modulus of a private key.
pub uninterp spec fn factors(key: RsaPrivateKey) -> Seq<nat>;

/// What OAEP decryption with SHA-256 makes of a byte string; `None` if it
/// refuses it.
pub uninterp spec fn oaep_opened(key: RsaPrivateKey, encrypted: Seq<u8>) -> Option<Seq<u8>>;

/// The numbers of the public key that a PEM text holds, if it holds one.
pub uninterp spec fn pem_numbers(text: Seq<char>) -> Option<(nat, nat)>;

/// The number of bytes that it takes to write `n`.
pub open spec fn byte_len(n: nat) -> nat
    decreases n,
{
    if n == 0 {
        0
    } else {
        1 + byte_len(n / 256)
    }
}

/// Modulus and exponent are acceptable: both are odd, and the exponent is less
/// than the modulus and in the range from 2 to 2^33 - 1.
pub open spec fn acceptable(numbers: (nat, nat)) -> bool {
    &&& numbers.0 % 2 == 1
    &&& numbers.1 % 2 == 1
    &&& 2 <= numbers.1 <= 0x1_ffff_ffff
    &&& numbers.1 < numbers.0
}

/// Bytes in the largest modulus that is read from a PEM text.
pub const MAX_MODULUS_LEN: usize = 512;

/// Bytes up to which modulus and exponent are known to fit into a PEM text.
pub const MAX_NUMBER_LEN: usize = 65536;

/// A public key with these numbers can be written as a PEM text.
pub open spec fn writable(numbers: (nat, nat)) -> bool {
    byte_len(numbers.0) <= MAX_NUMBER_LEN && byte_len(numbers.1) <= MAX_NUMBER_LEN
}

/// A public key with these numbers is read from its PEM text: it is acceptable
/// and not too large.
pub open spec fn readable(numbers: (nat, nat)) -> bool {
    acceptable(numbers) && byte_len(numbers.0) <= MAX_MODULUS_LEN
}

/// What is read from the PEM text of a public key with these numbers.
pub open spec fn read_back(numbers: (nat, nat)) -> Option<(nat, nat)> {
    if readable(numbers) {
        Some(numbers)
    } else {
        None
    }
}

/// Bits in the modulus of a new key.
pub const KEY_BITS: usize = 2048;

/// Bytes that OAEP with SHA-256 takes from the modulus: two hashes and two
/// bytes.
pub const OAEP_OVERHEAD: usize = 66;

/// `n` has no divisors but one and itself.
pub open spec fn is_prime(n: nat) -> bool {
    n > 1 && forall|d: nat| 1 < d < n ==> #[trigger] (n % d) != 0
}

/// The numbers of a private key fit together: two different factors make up the
/// modulus, and raising to the public and then to the private exponent `d` is a
/// full turn for each of them.
pub open spec fn consistent(numbers: (nat, nat), d: nat, f: Seq<nat>) -> bool {
    &&& acceptable(numbers)
    &&& f.len() == 2
    &&& f[0] > 1 && f[1] > 1 && f[0] != f[1]
    &&& f[0] * f[1] == numbers.0
    &&& (numbers.1 * d) % (f[0] - 1) as nat == 1
    &&& (numbers.1 * d) % (f[1] - 1) as nat == 1
}

/// A private key that decrypts what its public key encrypts: its numbers fit
/// together, and its factors are prime.  Key generation finds factors by a test
/// that a composite number passes only with negligible probability.
pub open spec fn sound(key: RsaPrivateKey) -> bool {
    &&& consistent(private_numbers(key), private_exponent(key), factors(key))
    &&& is_prime(factors(key)[0])
    &&& is_prime(factors(key)[1])
}

/// A message of this length fits under a public key with these numbers.
pub open spec fn fits(numbers: (nat, nat), len: nat) -> bool {
    acceptable(numbers) && len + OAEP_OVERHEAD <= byte_len(numbers.0)
}

/// Bytes in the largest modulus that a message can be padded for: OAEP masks all
/// but 33 of them, and its mask ends at 4 GiB.
pub const MAX_PADDED_LEN: u64 = 0x1_0000_0021;

/// Bytes in the largest modulus whose padding can be taken off: the place where
/// the message starts is a 32-bit number.
pub const MAX_OPENED_LEN: u64 = 0xffff_ffff;

/// A public key with these numbers is refused, or not too large to encrypt with.
pub open spec fn paddable(numbers: (nat, nat)) -> bool {
    acceptable(numbers) ==> byte_len(numbers.0) <= MAX_PADDED_LEN
}

/// The second factor is not out of all proportion to the first one.
pub open spec fn near(f: Seq<nat>) -> bool {
    f.len() >= 2 && f[1] <= f[0] * 0x1_0000_0000
}

/// An encrypted message of this length is refused, or the private key can be
/// worked with: it is not too large, and its first two factors are near.
pub open spec fn workable(key: RsaPrivateKey, len: nat) -> bool {
    acceptable(private_numbers(key)) && len == byte_len(private_numbers(key).0) ==> {
        &&& len <= MAX_OPENED_LEN
        &&& near(factors(key))
    }
}

/// Every sound private key with these numbers opens the encrypted message.
pub open spec fn opens_to(encrypted: Seq<u8>, numbers: (nat, nat), message: Seq<u8>) -> bool {
    forall|private: RsaPrivateKey| #[trigger]
        sound(private) && private_numbers(private) == numbers ==> oaep_opened(private, encrypted)
            == Some(message)
}

// ---------------------------------------------------------------------------
// Calls
// ---------------------------------------------------------------------------

/// `RsaPrivateKey::new` with `rand::rngs::OsRng`: a new key whose modulus has
/// this many bits, with the exponent 65537.  From 64 bits on it tries until it
/// has found one.  The key has passed the checks of `RsaPrivateKey::validate`;
/// that its factors are prime is only probable.  Both have their highest bit
/// set, and the second is at most one bit longer than the first.  It panics if
/// the operating system gives no random numbers.
#[verifier::external_body]
fn rsa_generate(bits: usize) -> (r: Result<RsaPrivateKey, rsa::Error>)
    requires
        bits >= 64,
    ensures
        r is Ok,
        r matches Ok(key) ==> {
            &&& consistent(private_numbers(key), private_exponent(key), factors(key))
            &&& near(factors(key))
            &&& private_numbers(key).1 == 65537
            &&& byte_len(private_numbers(key).0) == (bits + 7) / 8
        },
{
    RsaPrivateKey::new(&mut OsRng, bits)
}

/// `RsaPublicKey::from` a private key: its modulus and public exponent.
#[verifier::external_body]
fn rsa_public(private: &RsaPrivateKey) -> (public: RsaPublicKey)
    ensures
        public_numbers(public) == private_numbers(*private),
{
    RsaPublicKey::from(private)
}

/// `EncodePublicKey::to_public_key_pem` with the line ends of the operating
/// system: a text that holds the key.  Keys with numbers of up to 64 KiB can be
/// written (the encoding ends at 256 MiB); whether a larger one can is left
/// open.  What is written is read back if the key is acceptable and has up to
/// 4096 bits, and refused by the reader otherwise.  The text itself is not the
/// same everywhere.
#[verifier::external_body]
fn rsa_to_pem(public: &RsaPublicKey) -> (r: Result<String, rsa::pkcs8::spki::Error>)
    ensures
        writable(public_numbers(*public)) ==> r is Ok,
        r matches Ok(text) ==> pem_numbers(text@) == read_back(public_numbers(*public)),
{
    public.to_public_key_pem(Default::default())
}

/// `DecodePublicKey::from_public_key_pem`: the key that a text holds.  Only
/// acceptable keys of up to 4096 bits are read.
#[verifier::external_body]
fn rsa_from_pem(text: &str) -> (r: Result<RsaPublicKey, rsa::pkcs8::spki::Error>)
    ensures
        r is Ok <==> pem_numbers(text@) is Some,
        r matches Ok(key) ==> {
            &&& pem_numbers(text@) == Some(public_numbers(key))
            &&& readable(public_numbers(key))
        },
{
    RsaPublicKey::from_public_key_pem(text)
}

/// `RsaPublicKey::encrypt` with OAEP, SHA-256 and `rand::rngs::OsRng`: encrypts
/// a message if the key is acceptable and the message and the padding fit into
/// the modulus.  The result has the size of the modulus and differs from call
/// to call, but every sound private key with the same numbers opens it.  It
/// panics where the masked part of the padding has more than 2^32 bytes, and if
/// the operating system gives no random numbers.
#[verifier::external_body]
fn rsa_encrypt(public: &RsaPublicKey, message: &[u8]) -> (r: Result<Vec<u8>, rsa::Error>)
    requires
        paddable(public_numbers(*public)),
    ensures
        r is Ok <==> fits(public_numbers(*public), message@.len()),
        r matches Ok(encrypted) ==> encrypted@.len() == byte_len(public_numbers(*public).0),
        r matches Ok(encrypted) ==> opens_to(encrypted@, public_numbers(*public), message@),
{
    public.encrypt(&mut OsRng, Oaep::new::<Sha256>(), message)
}

/// `RsaPrivateKey::decrypt` with OAEP and SHA-256: opens an encrypted message.
/// No random numbers are used.  A message that does not have the size of the
/// modulus is refused, and so is a key that is not acceptable.  Otherwise the
/// first factor is added to a difference until that is no longer negative, which
/// can take as many turns as the second factor is times the first; and where the
/// modulus has more than 2^32 - 1 bytes, the call can panic.
#[verifier::external_body]
fn rsa_decrypt(private: &RsaPrivateKey, encrypted: &[u8]) -> (r: Result<Vec<u8>, rsa::Error>)
    requires
        workable(*private, encrypted@.len()),
    ensures
        r is Ok <==> oaep_opened(*private, encrypted@) is Some,
        r matches Ok(message) ==> oaep_opened(*private, encrypted@) == Some(message@),
{
    private.decrypt(Oaep::new::<Sha256>(), encrypted)
}

/// `std::str::from_utf8`: the text that a byte string encodes, if it is valid
/// UTF-8.
#[verifier::external_body]
fn utf8_text(bytes: &[u8]) -> (r: Option<&str>)
    ensures
        r is Some <==> valid_utf8(bytes@),
        r matches Some(text) ==> text@ == decode_utf8(bytes@),
{
    std::str::from_utf8(bytes).ok()
}

// ---------------------------------------------------------------------------
// The exchange
// ---------------------------------------------------------------------------

/// Why a step of the exchange failed.
#[derive(Debug)]
pub enum HandshakeError {
    /// The key is not acceptable, the message is too long, or the encrypted
    /// message was not made for this key.
    Rsa(rsa::Error),
    /// A key could not be written or read.
    Encoding(rsa::pkcs8::spki::Error),
    /// The text of a key is not valid UTF-8.
    NotUtf8,
    /// The message is not a session key: it has this many bytes.
    KeyLength(usize),
}

/// A new key pair of [`KEY_BITS`] bits.
pub fn generate_keypair() -> (r: Result<(RsaPrivateKey, RsaPublicKey), HandshakeError>)
    ensures
        r is Ok,
        r matches Ok((private, public)) ==> {
            &&& consistent(private_numbers(private), private_exponent(private), factors(private))
            &&& near(factors(private))
            &&& public_numbers(public) == private_numbers(private)
            &&& public_numbers(public).1 == 65537
            &&& byte_len(public_numbers(public).0) == KEY_BITS / 8
        },
{
    match rsa_generate(KEY_BITS) {
        Ok(private) => {
            let public = rsa_public(&private);
            Ok((private, public))
        },
        Err(e) => Err(HandshakeError::Rsa(e)),
    }
}

/// The bytes are a text, and this is what is read from it.
pub open spec fn reads_as(bytes: Seq<u8>, numbers: Option<(nat, nat)>) -> bool {
    valid_utf8(bytes) && pem_numbers(decode_utf8(bytes)) == numbers
}

/// The PEM text of a public key.
pub fn public_key_to_bytes(public: &RsaPublicKey) -> (r: Result<Vec<u8>, HandshakeError>)
    ensures
        writable(public_numbers(*public)) ==> r is Ok,
        r matches Ok(bytes) ==> reads_as(bytes@, read_back(public_numbers(*public))),
        r matches Err(e) ==> e is Encoding,
{
    match rsa_to_pem(public) {
        Ok(pem) => {
            let bytes = vstd::slice::slice_to_vec(pem.as_str().as_bytes());
            proof {
                encode_utf8_valid_utf8(pem@);
                encode_utf8_decode_utf8(pem@);
            }
            Ok(bytes)
        },
        Err(e) => Err(HandshakeError::Encoding(e)),
    }
}

/// The public key that a PEM text holds.
pub fn public_key_from_bytes(bytes: &[u8]) -> (r: Result<RsaPublicKey, HandshakeError>)
    ensures
        r matches Ok(key) ==> {
            &&& reads_as(bytes@, Some(public_numbers(key)))
            &&& readable(public_numbers(key))
        },
        r is Ok <==> valid_utf8(bytes@) && pem_numbers(decode_utf8(bytes@)) is Some,
        (r matches Err(e) && e is NotUtf8) <==> !valid_utf8(bytes@),
        r matches Err(e) ==> e is NotUtf8 || e is Encoding,
{
    match utf8_text(bytes) {
        Some(text) => match rsa_from_pem(text) {
            Ok(key) => Ok(key),
            Err(e) => Err(HandshakeError::Encoding(e)),
        },
        None => Err(HandshakeError::NotUtf8),
    }
}

/// Encrypts a session key under the receiver's public key.
pub fn encrypt_session_key(public: &RsaPublicKey, session_key: &[u8]) -> (r: Result<
    Vec<u8>,
    HandshakeError,
>)
    requires
        paddable(public_numbers(*public)),
    ensures
        r is Ok <==> fits(public_numbers(*public), session_key@.len()),
        r matches Ok(encrypted) ==> {
            &&& encrypted@.len() == byte_len(public_numbers(*public).0)
            &&& opens_to(encrypted@, public_numbers(*public), session_key@)
        },
        r matches Err(e) ==> e is Rsa,
{
    match rsa_encrypt(public, session_key) {
        Ok(encrypted) => Ok(encrypted),
        Err(e) => Err(HandshakeError::Rsa(e)),
    }
}

/// Decrypts a session key.
pub fn decrypt_session_key(private: &RsaPrivateKey, encrypted: &[u8]) -> (r: Result<
    Vec<u8>,
    HandshakeError,
>)
    requires
        workable(*private, encrypted@.len()),
    ensures
        r is Ok <==> oaep_opened(*private, encrypted@) is Some,
        r matches Ok(message) ==> oaep_opened(*private, encrypted@) == Some(message@),
        r matches Err(e) ==> e is Rsa,
{
    match rsa_decrypt(private, encrypted) {
        Ok(message) => Ok(message),
        Err(e) => Err(HandshakeError::Rsa(e)),
    }
}

/// The receiver's first message: its public key as a frame.
pub fn offer_public_key(public: &RsaPublicKey) -> (r: Result<Vec<u8>, HandshakeError>)
    ensures
        writable(public_numbers(*public)) ==> r is Ok,
        r matches Ok(message) ==> exists|pem: Seq<u8>| #[trigger]
            frame_bytes(pem) == message@ && reads_as(pem, read_back(public_numbers(*public))),
        r matches Err(e) ==> e is Encoding,
{
    match public_key_to_bytes(public) {
        Ok(pem) => {
            let mut message: Vec<u8> = Vec::new();
            push_frame(&mut message, pem.as_slice());
            proof {
                assert(message@ =~= frame_bytes(pem@));
            }
            Ok(message)
        },
        Err(e) => Err(e),
    }
}

/// The sender's answer to a public key: the encrypted session key as a frame,
/// and the nonce behind it.
pub open spec fn answer_bytes(encrypted: Seq<u8>, nonce: Seq<u8>) -> Seq<u8> {
    frame_bytes(encrypted) + nonce
}

/// The sender's answer to the PEM text of a public key.
pub fn answer_public_key(pem: &[u8], session_key: &[u8; 32], nonce: &[u8; 16]) -> (r: Result<
    Vec<u8>,
    HandshakeError,
>)
    ensures
        r is Ok <==> {
            &&& valid_utf8(pem@)
            &&& pem_numbers(decode_utf8(pem@)) is Some
            &&& fits(pem_numbers(decode_utf8(pem@))->0, KEY_LEN as nat)
        },
        r matches Ok(message) ==> {
            let numbers = pem_numbers(decode_utf8(pem@))->0;
            exists|encrypted: Seq<u8>| #[trigger]
                answer_bytes(encrypted, nonce@) == message@ && encrypted.len() == byte_len(
                    numbers.0,
                ) && opens_to(encrypted, numbers, session_key@)
        },
        (r matches Err(e) && e is NotUtf8) <==> !valid_utf8(pem@),
        (r matches Err(e) && e is Encoding) <==> valid_utf8(pem@) && pem_numbers(
            decode_utf8(pem@),
        ) is None,
        r matches Err(e) ==> e !is KeyLength,
{
    let public = match public_key_from_bytes(pem) {
        Ok(public) => public,
        Err(e) => {
            return Err(e);
        },
    };
    match encrypt_session_key(&public, session_key.as_slice()) {
        Ok(encrypted) => {
            let mut message: Vec<u8> = Vec::new();
            push_frame(&mut message, encrypted.as_slice());
            push_bytes(&mut message, nonce.as_slice());
            proof {
                assert(message@ =~= answer_bytes(encrypted@, nonce@));
            }
            Ok(message)
        },
        Err(e) => Err(e),
    }
}

/// The receiver opens the sender's answer.
pub fn open_session_key(private: &RsaPrivateKey, encrypted: &[u8]) -> (r: Result<
    [u8; 32],
    HandshakeError,
>)
    requires
        workable(*private, encrypted@.len()),
    ensures
        match oaep_opened(*private, encrypted@) {
            Some(message) => if message.len() == KEY_LEN {
                r matches Ok(key) && key@ == message
            } else {
                r matches Err(HandshakeError::KeyLength(n)) && n == message.len()
            },
            None => r matches Err(e) && e is Rsa,
        },
{
    let message = match decrypt_session_key(private, encrypted) {
        Ok(message) => message,
        Err(e) => {
            return Err(e);
        },
    };
    match key_from_bytes(message.as_slice()) {
        Some(key) => Ok(key),
        None => Err(HandshakeError::KeyLength(message.len())),
    }
}

/// Both sides end up with the same session key: what the sender encrypted under
/// the public key of a sound pair opens to the session key.
pub proof fn law_session_key_is_shared(
    private: RsaPrivateKey,
    public: RsaPublicKey,
    encrypted: Seq<u8>,
    session_key: Seq<u8>,
)
    requires
        sound(private),
        public_numbers(public) == private_numbers(private),
        opens_to(encrypted, public_numbers(public), session_key),
    ensures
        oaep_opened(private, encrypted) == Some(session_key),
{
}

/// A smaller number takes no more bytes.
proof fn lemma_byte_len_monotonic(small: nat, large: nat)
    requires
        small <= large,
    ensures
        byte_len(small) <= byte_len(large),
    decreases large,
{
    if small > 0 {
        lemma_byte_len_monotonic(small / 256, large / 256);
    }
}

/// A key that can be read can be written.
pub proof fn law_readable_keys_are_writable(numbers: (nat, nat))
    requires
        readable(numbers),
    ensures
        writable(numbers),
        read_back(numbers) == Some(numbers),
{
    lemma_byte_len_monotonic(numbers.1, numbers.0);
}

/// A key of [`KEY_BITS`] bits has room for a session key, can be encrypted with,
/// and can be written and read back.
pub proof fn law_new_keys_have_room(numbers: (nat, nat))
    requires
        acceptable(numbers),
        byte_len(numbers.0) == KEY_BITS / 8,
    ensures
        fits(numbers, KEY_LEN as nat),
        paddable(numbers),
        writable(numbers),
        read_back(numbers) == Some(numbers),
{
    law_readable_keys_are_writable(numbers);
}

/// A private key of [`KEY_BITS`] bits whose factors are near opens, or refuses,
/// an answer of any length.
pub proof fn law_new_keys_are_workable(private: RsaPrivateKey, len: nat)
    requires
        near(factors(private)),
        byte_len(private_numbers(private).0) == KEY_BITS / 8,
    ensures
        workable(private, len),
{
}

/// The sender's answer is the length of the encrypted session key in four bytes,
/// the encrypted session key, and behind it the whole nonce.
pub proof fn law_answer_layout(encrypted: Seq<u8>, nonce: Seq<u8>)
    ensures
        answer_bytes(encrypted, nonce).len() == 4 + encrypted.len() + nonce.len(),
        answer_bytes(encrypted, nonce).take(4) == be_bytes(encrypted.len(), 4),
        answer_bytes(encrypted, nonce).subrange(4, 4 + encrypted.len() as int) == encrypted,
        answer_bytes(encrypted, nonce).skip(4 + encrypted.len() as int) == nonce,
{
    law_frame_layout(encrypted);
    let answer = answer_bytes(encrypted, nonce);
    assert(answer.take(4) =~= frame_bytes(encrypted).take(4));
    assert(answer.subrange(4, 4 + encrypted.len() as int) =~= frame_bytes(encrypted).skip(4));
    assert(answer.skip(4 + encrypted.len() as int) =~= nonce);
}

/// Which messages fit under a key, and which keys are read back: the exponent
/// must be odd, at least 2 and of at most 33 bits, the modulus odd and larger;
/// a message must leave 66 bytes of the modulus free; and a key is read back as
/// it was if its modulus has at most 512 bytes, and not at all otherwise.
pub proof fn law_what_fits_a_key(numbers: (nat, nat), len: nat)
    ensures
        ({
            let sane = numbers.0 % 2 == 1 && numbers.1 % 2 == 1 && 2 <= numbers.1 <= 0x1_ffff_ffff
                && numbers.1 < numbers.0;
            &&& fits(numbers, len) <==> sane && len + 66 <= byte_len(numbers.0)
            &&& read_back(numbers) is Some <==> sane && byte_len(numbers.0) <= 512
            &&& read_back(numbers) matches Some(read) ==> read == numbers
            &&& byte_len(numbers.0) <= 65536 && byte_len(numbers.1) <= 65536 ==> writable(numbers)
        }),
{
}

} // verus!
