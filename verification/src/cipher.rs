//! The cryptographic primitives of the archive codec, as far as the codec
//! relies on them: ChaCha20-Poly1305 under the STREAM construction with a
//! big-endian 32-bit counter, Argon2id key derivation, the system's random
//! number generator, and wiping of secrets.

use crate::error::ArchiveError;
use aead::generic_array::GenericArray;
use aead::stream::{NewStream, StreamBE32, StreamPrimitive};
use argon2::Argon2;
use chacha20poly1305::{ChaCha20Poly1305, KeyInit};
use rand::rngs::OsRng;
use rand::TryRngCore;
use vstd::prelude::*;
use zeroize::Zeroize;

verus! {

/// Bytes in a cipher key.
pub const KEY_LEN: usize = 32;

/// Bytes in the nonce that a stream is created with.
pub const STREAM_NONCE_LEN: usize = 7;

/// Bytes that sealing adds to a segment: the authentication tag.
pub const TAG_LEN: usize = 16;

/// Bytes in the salt of a new archive.
pub const SALT_LEN: usize = 16;

/// Most plaintext bytes in one segment.
pub const PLAIN_CHUNK: usize = 0x1_0000;

/// The ciphertext, tag included, of one segment of a stream: what
/// `StreamBE32::encrypt` returns for ChaCha20-Poly1305 under `key`, with the
/// stream's `nonce`, at `position`, with or without the last-segment flag.
pub uninterp spec fn sealed(
    key: Seq<u8>,
    nonce: Seq<u8>,
    position: u32,
    last: bool,
    plain: Seq<u8>,
) -> Seq<u8>;

/// The plaintext that `StreamBE32::decrypt` returns for a segment, or `None`
/// where it reports that the segment does not authenticate.
pub uninterp spec fn opened(
    key: Seq<u8>,
    nonce: Seq<u8>,
    position: u32,
    last: bool,
    bytes: Seq<u8>,
) -> Option<Seq<u8>>;

/// The key that Argon2id with its default parameters derives from a password
/// and a salt, or `None` where it refuses them.
pub uninterp spec fn derived_key(password: Seq<char>, salt: Seq<u8>) -> Option<Seq<u8>>;

/// The bytes an optional vector holds.
pub open spec fn opt_bytes(o: Option<Vec<u8>>) -> Option<Seq<u8>> {
    match o {
        Some(v) => Some(v@),
        None => None,
    }
}

/// Whether sealing `plain` gives bytes that open to `plain` again and are
/// longer than it by the tag.
pub open spec fn seal_opens(
    key: Seq<u8>,
    nonce: Seq<u8>,
    position: u32,
    last: bool,
    plain: Seq<u8>,
) -> bool {
    &&& sealed(key, nonce, position, last, plain).len() == plain.len() + TAG_LEN
    &&& opened(key, nonce, position, last, sealed(key, nonce, position, last, plain)) == Some(
        plain,
    )
}

/// Seals one segment with `StreamBE32::<ChaCha20Poly1305>::encrypt`.
///
/// Trusted: the result is the named ciphertext; it is 16 bytes longer than
/// the plaintext, and the same stream opens it to the plaintext again. The
/// cipher refuses only plaintexts of 256 GiB and more, so a segment within
/// the chunk size is always sealed.
#[verifier::external_body]
pub(crate) fn seal_segment(
    key: &[u8],
    nonce: &[u8],
    position: u32,
    last: bool,
    plain: &[u8],
) -> (r: Option<Vec<u8>>)
    requires
        key@.len() == KEY_LEN,
        nonce@.len() == STREAM_NONCE_LEN,
    ensures
        plain@.len() <= PLAIN_CHUNK ==> r is Some,
        r matches Some(ct) ==> ct@ == sealed(key@, nonce@, position, last, plain@) && seal_opens(
            key@,
            nonce@,
            position,
            last,
            plain@,
        ),
{
    let cipher = ChaCha20Poly1305::new(GenericArray::from_slice(key));
    let stream = StreamBE32::from_aead(cipher, GenericArray::from_slice(nonce));
    stream.encrypt(position, last, plain).ok()
}

/// Opens one segment with `StreamBE32::<ChaCha20Poly1305>::decrypt`.
///
/// Trusted: the result is the named plaintext, `None` where the segment does
/// not authenticate; a plaintext is 16 bytes shorter than the segment.
#[verifier::external_body]
pub(crate) fn open_segment(
    key: &[u8],
    nonce: &[u8],
    position: u32,
    last: bool,
    bytes: &[u8],
) -> (r: Option<Vec<u8>>)
    requires
        key@.len() == KEY_LEN,
        nonce@.len() == STREAM_NONCE_LEN,
    ensures
        opt_bytes(r) == opened(key@, nonce@, position, last, bytes@),
        r matches Some(p) ==> p@.len() + TAG_LEN == bytes@.len(),
{
    let cipher = ChaCha20Poly1305::new(GenericArray::from_slice(key));
    let stream = StreamBE32::from_aead(cipher, GenericArray::from_slice(nonce));
    stream.decrypt(position, last, bytes).ok()
}

/// Derives 32 bytes with `Argon2::default().hash_password_into`.
///
/// Trusted: the result is the named key, `None` where Argon2 returns an
/// error; a key has 32 bytes.
#[verifier::external_body]
fn argon2_key(password: &str, salt: &[u8]) -> (r: Option<Vec<u8>>)
    ensures
        opt_bytes(r) == derived_key(password@, salt@),
        r matches Some(k) ==> k@.len() == KEY_LEN,
{
    let mut out = vec![0u8; 32];
    match Argon2::default().hash_password_into(password.as_bytes(), salt, &mut out) {
        Ok(()) => Some(out),
        Err(_) => None,
    }
}

/// Asks `OsRng::try_fill_bytes` for `n` random bytes.
///
/// Trusted: where bytes come back, there are `n` of them.
#[verifier::external_body]
fn os_random(n: usize) -> (r: Option<Vec<u8>>)
    ensures
        r matches Some(v) ==> v@.len() == n,
{
    let mut out = vec![0u8; n];
    match OsRng.try_fill_bytes(&mut out) {
        Ok(()) => Some(out),
        Err(_) => None,
    }
}

/// Overwrites a buffer with zeros and empties it, with `Zeroize::zeroize`.
///
/// Trusted: the vector is empty afterwards.
#[verifier::external_body]
fn zeroize_bytes(bytes: &mut Vec<u8>)
    ensures
        final(bytes)@.len() == 0,
{
    bytes.zeroize()
}

/// Derives the cipher key from a password and a salt.
pub fn derive_key(password: &str, salt: &[u8]) -> (r: Result<Vec<u8>, ArchiveError>)
    ensures
        match derived_key(password@, salt@) {
            Some(k) => r matches Ok(v) && v@ == k && v@.len() == KEY_LEN,
            None => r == Err::<Vec<u8>, ArchiveError>(ArchiveError::KdfFailed),
        },
{
    match argon2_key(password, salt) {
        Some(k) => Ok(k),
        None => Err(ArchiveError::KdfFailed),
    }
}

/// Draws `n` bytes from the system's random number generator.
pub fn random_bytes(n: usize) -> (r: Result<Vec<u8>, ArchiveError>)
    ensures
        match r {
            Ok(v) => v@.len() == n,
            Err(e) => e == ArchiveError::RngFailed,
        },
{
    match os_random(n) {
        Some(v) => Ok(v),
        None => Err(ArchiveError::RngFailed),
    }
}

/// Wipes a secret: its bytes are overwritten and the buffer is left empty.
pub fn wipe(secret: &mut Vec<u8>)
    ensures
        final(secret)@.len() == 0,
{
    zeroize_bytes(secret)
}

} // verus!
