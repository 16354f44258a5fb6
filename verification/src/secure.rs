//! Encryption of stored content: key derivation, keyed fingerprints, and
//! sealing and opening text.
use crate::text;
use argon2::Argon2;
use base64::engine::general_purpose::STANDARD as BASE64;
use base64::Engine;
use blake2::digest::consts::U32;
use blake2::digest::{KeyInit as MacKeyInit, Mac as _};
use blake2::Blake2bMac;
use chacha20poly1305::aead::{Aead, AeadCore, OsRng, Payload};
use chacha20poly1305::{XChaCha20Poly1305, XNonce};
use vstd::prelude::*;
use vstd::string::*;
use vstd::utf8::*;
use zeroize::Zeroizing;

verus! {

/// Marks a fingerprint as keyed. Stores written before keying contain bare hex
/// digests, and this tag is what lets migration tell the two apart.
pub const KEYED_FINGERPRINT_PREFIX: &'static str = "k1:";

/// Separates the fingerprint key from the content key it is expanded from.
pub const FINGERPRINT_DOMAIN: &'static str = "zex/memory/fingerprint/v1";

pub const KEY_BYTES: usize = 32;

pub const NONCE_BYTES: usize = 24;

/// The length of the tag behind a sealed message.
pub const TAG_BYTES: usize = 16;

/// The longest message that can be sealed. The block counter of the cipher has
/// 32 bits, the first block makes the key of the tag, and the last is not used.
pub const MAX_SEALED_BYTES: u64 = 274_877_906_816;

/// Bytes that are overwritten when they are dropped (`zeroize::Zeroizing`).
#[verifier::external_body]
pub struct SecretBytes {
    bytes: Zeroizing<Vec<u8>>,
}

/// The bytes that a secret buffer holds.
pub uninterp spec fn secret_bytes(secret: SecretBytes) -> Seq<u8>;

// ---------------------------------------------------------------------------
// Outside functions
// ---------------------------------------------------------------------------

/// The 32-byte key that Argon2 (its default parameters) derives from a
/// password and a salt, or its message on why it derives none.
pub uninterp spec fn argon2_key(password: Seq<u8>, salt: Seq<u8>) -> Result<Seq<u8>, Seq<char>>;

/// The 32-byte BLAKE2b MAC of a message under a key.
pub uninterp spec fn blake2b_mac(key: Seq<u8>, message: Seq<u8>) -> Seq<u8>;

/// What XChaCha20-Poly1305 seals a message to.
pub uninterp spec fn sealed(
    key: Seq<u8>,
    nonce: Seq<u8>,
    associated: Seq<u8>,
    message: Seq<u8>,
) -> Seq<u8>;

/// What XChaCha20-Poly1305 opens a sealed message to; nothing where the
/// message is not authentic.
pub uninterp spec fn opened(
    key: Seq<u8>,
    nonce: Seq<u8>,
    associated: Seq<u8>,
    ciphertext: Seq<u8>,
) -> Option<Seq<u8>>;

/// The standard base64 text of some bytes, with padding.
pub uninterp spec fn base64_text(bytes: Seq<u8>) -> Seq<char>;

/// The bytes that a standard base64 text denotes, or why it denotes none.
pub uninterp spec fn base64_bytes(encoded: Seq<char>) -> Result<Seq<u8>, Seq<char>>;

/// The message of `String::from_utf8` on bytes that are not UTF-8.
pub uninterp spec fn utf8_complaint(bytes: Seq<u8>) -> Seq<char>;

/// `Argon2::hash_password_into` with the default parameters and a 32-byte
/// output. The result depends on the password and the salt alone; a derived
/// key has 32 bytes.
#[verifier::external_body]
fn derive_key(password: &[u8], salt: &[u8]) -> (r: Result<SecretBytes, String>)
    ensures
        match r {
            Ok(key) => argon2_key(password@, salt@) is Ok && argon2_key(password@, salt@)->Ok_0
                == secret_bytes(key) && secret_bytes(key).len() == KEY_BYTES,
            Err(message) => argon2_key(password@, salt@) is Err && argon2_key(
                password@,
                salt@,
            )->Err_0 == message@,
        },
{
    let mut key = Zeroizing::new(vec![0u8; KEY_BYTES]);
    match Argon2::default().hash_password_into(password, salt, &mut key) {
        Ok(()) => Ok(SecretBytes { bytes: key }),
        Err(error) => Err(error.to_string()),
    }
}

/// `Blake2bMac` with a 32-byte output: `new_from_slice`, which takes keys of
/// at most 64 bytes, then `update` and `finalize`.
#[verifier::external_body]
fn keyed_digest(key: &SecretBytes, bytes: &[u8]) -> (digest: SecretBytes)
    requires
        secret_bytes(*key).len() <= 64,
    ensures
        secret_bytes(digest) == blake2b_mac(secret_bytes(*key), bytes@),
        secret_bytes(digest).len() == 32,
{
    let mut mac = <Blake2bMac<U32> as MacKeyInit>::new_from_slice(&key.bytes).expect("key fits");
    mac.update(bytes);
    SecretBytes { bytes: Zeroizing::new(mac.finalize().into_bytes().to_vec()) }
}

/// The bytes inside a `Zeroizing` buffer, by its `Deref`.
#[verifier::external_body]
fn expose_bytes(secret: &SecretBytes) -> (bytes: &Vec<u8>)
    ensures
        bytes@ == secret_bytes(*secret),
{
    &secret.bytes
}

/// `XChaCha20Poly1305::generate_nonce` from the system's random source: 24
/// bytes, of which nothing more is known.
#[verifier::external_body]
fn random_nonce() -> (nonce: Vec<u8>)
    ensures
        nonce@.len() == NONCE_BYTES,
{
    XChaCha20Poly1305::generate_nonce(&mut OsRng).to_vec()
}

/// `Aead::encrypt` of `XChaCha20Poly1305`: the sealed message, with its tag
/// behind it. It fails for messages whose length comes to 2^32 - 1 blocks of 64
/// bytes or more, and panics where one more block is begun than the 2^32 - 2
/// that its key stream has; shorter messages are always sealed.
#[verifier::external_body]
fn seal(key: &SecretBytes, nonce: &[u8], associated: &[u8], message: &[u8]) -> (r: Vec<u8>)
    requires
        secret_bytes(*key).len() == KEY_BYTES,
        nonce@.len() == NONCE_BYTES,
        message@.len() <= MAX_SEALED_BYTES,
    ensures
        r@ == sealed(secret_bytes(*key), nonce@, associated@, message@),
        r@.len() == message@.len() + TAG_BYTES,
{
    let cipher = <XChaCha20Poly1305 as MacKeyInit>::new_from_slice(&key.bytes).expect("key fits");
    let payload = Payload { msg: message, aad: associated };
    cipher.encrypt(XNonce::from_slice(nonce), payload).expect("message fits")
}

/// `Aead::decrypt` of `XChaCha20Poly1305`. It gives back every message that
/// `encrypt` sealed under the same key, nonce and associated data. Like
/// `encrypt`, it can panic on messages that are too long.
#[verifier::external_body]
fn unseal(key: &SecretBytes, nonce: &[u8], associated: &[u8], ciphertext: &[u8]) -> (r:
    Option<Vec<u8>>)
    requires
        secret_bytes(*key).len() == KEY_BYTES,
        nonce@.len() == NONCE_BYTES,
        ciphertext@.len() <= MAX_SEALED_BYTES + TAG_BYTES,
    ensures
        text::opt(r) == opened(secret_bytes(*key), nonce@, associated@, ciphertext@),
        forall|message: Seq<u8>|
            message.len() <= MAX_SEALED_BYTES && #[trigger] sealed(
                secret_bytes(*key),
                nonce@,
                associated@,
                message,
            ) == ciphertext@ ==> text::opt(r) == Some(message),
{
    let cipher = <XChaCha20Poly1305 as MacKeyInit>::new_from_slice(&key.bytes).ok()?;
    cipher.decrypt(XNonce::from_slice(nonce), Payload { msg: ciphertext, aad: associated }).ok()
}

/// `Engine::encode` of base64's `STANDARD` engine.
#[verifier::external_body]
fn base64_encode(bytes: &[u8]) -> (encoded: String)
    ensures
        encoded@ == base64_text(bytes@),
{
    BASE64.encode(bytes)
}

/// `Engine::decode` of base64's `STANDARD` engine. It gives back what `encode`
/// wrote.
#[verifier::external_body]
fn base64_decode(encoded: &str) -> (r: Result<Vec<u8>, String>)
    ensures
        text::res(r) == base64_bytes(encoded@),
        forall|bytes: Seq<u8>| #[trigger]
            base64_text(bytes) == encoded@ ==> r is Ok && r->Ok_0@ == bytes,
{
    BASE64.decode(encoded).map_err(|error| error.to_string())
}

/// `String::from_utf8`: the text whose UTF-8 form is `bytes`, if they are valid
/// UTF-8, and else a message.
#[verifier::external_body]
pub(crate) fn utf8_text(bytes: Vec<u8>) -> (r: Result<String, String>)
    ensures
        match r {
            Ok(text) => valid_utf8(bytes@) && encode_utf8(text@) == bytes@,
            Err(message) => !valid_utf8(bytes@) && message@ == utf8_complaint(bytes@),
        },
{
    String::from_utf8(bytes).map_err(|error| error.to_string())
}

// ---------------------------------------------------------------------------
// Keys
// ---------------------------------------------------------------------------

/// A secret from which session keys are derived.
pub struct EncryptionKey {
    secret: SecretBytes,
}

impl View for EncryptionKey {
    type V = Seq<u8>;

    closed spec fn view(&self) -> Seq<u8> {
        secret_bytes(self.secret)
    }
}

/// A text's bytes, kept in a buffer that is overwritten when dropped
/// (`Zeroizing::new`).
#[verifier::external_body]
fn keep_secret(value: &str) -> (secret: SecretBytes)
    ensures
        secret_bytes(secret) == encode_utf8(value@),
{
    SecretBytes { bytes: Zeroizing::new(value.as_bytes().to_vec()) }
}

/// A second buffer with the same bytes (`Zeroizing::clone`).
#[verifier::external_body]
fn copy_secret(secret: &SecretBytes) -> (copy: SecretBytes)
    ensures
        secret_bytes(copy) == secret_bytes(*secret),
{
    SecretBytes { bytes: secret.bytes.clone() }
}

impl EncryptionKey {
    /// A key made of `value`, unless it is blank.
    pub fn new(value: String) -> (r: Option<EncryptionKey>)
        ensures
            r is Some <==> text::trim(value@).len() > 0,
            r matches Some(key) ==> key@ == encode_utf8(value@),
    {
        if text::trim_of(value.as_str()).as_str().is_empty() {
            None
        } else {
            Some(EncryptionKey { secret: keep_secret(value.as_str()) })
        }
    }

    fn expose(&self) -> (r: &Vec<u8>)
        ensures
            r@ == self@,
    {
        expose_bytes(&self.secret)
    }

    /// A copy of this key.
    pub fn copy(&self) -> (r: EncryptionKey)
        ensures
            r@ == self@,
    {
        EncryptionKey { secret: copy_secret(&self.secret) }
    }

    /// What may be shown of a key.
    pub fn debug_text(&self) -> (r: String)
        ensures
            r@ == "EncryptionKey([redacted])"@,
    {
        "EncryptionKey([redacted])".to_owned()
    }
}

// ---------------------------------------------------------------------------
// Cipher
// ---------------------------------------------------------------------------

/// How a content was encrypted: the format and the nonce in base64.
#[derive(Debug, PartialEq, Eq)]
pub struct EncryptedContent {
    pub format: u8,
    pub nonce: String,
}

/// What an [`EncryptedContent`] holds.
pub struct EncryptionView {
    pub format: u8,
    pub nonce: Seq<char>,
}

impl View for EncryptedContent {
    type V = EncryptionView;

    open spec fn view(&self) -> EncryptionView {
        EncryptionView { format: self.format, nonce: self.nonce@ }
    }
}

impl EncryptedContent {
    pub fn copy(&self) -> (r: EncryptedContent)
        ensures
            r@ == self@,
    {
        EncryptedContent { format: self.format, nonce: self.nonce.clone() }
    }
}

/// The keys of one session.
pub struct Cipher {
    key: SecretBytes,
    fingerprint_key: SecretBytes,
}

/// What a [`Cipher`] holds.
pub struct CipherView {
    pub key: Seq<u8>,
    pub fingerprint_key: Seq<u8>,
}

impl View for Cipher {
    type V = CipherView;

    closed spec fn view(&self) -> CipherView {
        CipherView {
            key: secret_bytes(self.key),
            fingerprint_key: secret_bytes(self.fingerprint_key),
        }
    }
}

/// The keys that a secret gives in a context.
pub open spec fn derived_cipher(secret: Seq<u8>, context: Seq<char>) -> Result<
    CipherView,
    Seq<char>,
> {
    match argon2_key(secret, encode_utf8(context)) {
        Ok(key) => Ok(
            CipherView { key, fingerprint_key: blake2b_mac(key, encode_utf8(FINGERPRINT_DOMAIN@)) },
        ),
        Err(message) => Err("failed to derive encryption key: "@ + message),
    }
}

/// The first `n` bytes in hexadecimal, two digits each.
pub open spec fn hex_bytes(bytes: Seq<u8>, n: nat) -> Seq<char>
    decreases n,
{
    if n == 0 {
        Seq::empty()
    } else {
        hex_bytes(bytes, (n - 1) as nat) + text::hex_fixed(bytes[n - 1] as nat, 2)
    }
}

/// The keyed fingerprint of some bytes.
pub open spec fn keyed_fingerprint(fingerprint_key: Seq<u8>, bytes: Seq<u8>) -> Seq<char> {
    KEYED_FINGERPRINT_PREFIX@ + hex_bytes(blake2b_mac(fingerprint_key, bytes), 16)
}

/// Whether a text is short enough to be encrypted.
pub open spec fn sealable(plain: Seq<char>) -> bool {
    encode_utf8(plain).len() <= MAX_SEALED_BYTES
}

/// `content` and `encryption` are a result of encrypting `plain` under `key`,
/// bound to `associated`, with some nonce.
pub open spec fn encrypts_to(
    key: Seq<u8>,
    associated: Seq<char>,
    plain: Seq<char>,
    content: Seq<char>,
    encryption: EncryptionView,
) -> bool {
    exists|nonce: Seq<u8>, ciphertext: Seq<u8>|
        encrypts_with(key, associated, plain, nonce, ciphertext) && encryption.format == 1
            && encryption.nonce == base64_text(nonce) && content == base64_text(ciphertext)
}

pub open spec fn encrypts_with(
    key: Seq<u8>,
    associated: Seq<char>,
    plain: Seq<char>,
    nonce: Seq<u8>,
    ciphertext: Seq<u8>,
) -> bool {
    &&& sealable(plain)
    &&& nonce.len() == NONCE_BYTES
    &&& ciphertext == sealed(key, nonce, encode_utf8(associated), encode_utf8(plain))
    &&& ciphertext.len() == encode_utf8(plain).len() + TAG_BYTES
}

/// What decrypting a content gives.
pub open spec fn decrypted(
    key: Seq<u8>,
    associated: Seq<char>,
    content: Seq<char>,
    encryption: EncryptionView,
) -> Result<Seq<char>, Seq<char>> {
    if encryption.format != 1 {
        Err("unsupported content encryption format "@ + text::decimal(encryption.format as nat))
    } else {
        match base64_bytes(encryption.nonce) {
            Err(message) => Err("failed to decode encryption nonce: "@ + message),
            Ok(nonce) => if nonce.len() != NONCE_BYTES {
                Err("encryption nonce has the wrong length"@)
            } else {
                match base64_bytes(content) {
                    Err(message) => Err("failed to decode encrypted content: "@ + message),
                    Ok(ciphertext) => if ciphertext.len() > MAX_SEALED_BYTES + TAG_BYTES {
                        Err("content authentication failed"@)
                    } else {
                        match opened(key, nonce, encode_utf8(associated), ciphertext) {
                            None => Err("content authentication failed"@),
                            Some(plain) => if valid_utf8(plain) {
                                Ok(decode_utf8(plain))
                            } else {
                                Err("decrypted content is not UTF-8: "@ + utf8_complaint(plain))
                            },
                        }
                    },
                }
            },
        }
    }
}

impl Cipher {
    /// The keys have the sizes that the algorithms ask for.
    pub closed spec fn wf(&self) -> bool {
        &&& secret_bytes(self.key).len() == KEY_BYTES
        &&& secret_bytes(self.fingerprint_key).len() == KEY_BYTES
    }

    /// The keys that `secret` gives in `context`.
    pub fn new(secret: &EncryptionKey, context: &str) -> (r: Result<Cipher, String>)
        ensures
            text::res(r) == derived_cipher(secret@, context@),
            r matches Ok(cipher) ==> cipher.wf(),
    {
        match derive_key(secret.expose().as_slice(), context.as_bytes()) {
            Ok(key) => {
                let fingerprint_key = keyed_digest(&key, FINGERPRINT_DOMAIN.as_bytes());
                Ok(Cipher { key, fingerprint_key })
            },
            Err(message) => Err(text::concat("failed to derive encryption key: ", message.as_str())),
        }
    }

    /// A copy of these keys.
    pub fn copy(&self) -> (r: Cipher)
        ensures
            r@ == self@,
            r.wf() == self.wf(),
    {
        Cipher { key: copy_secret(&self.key), fingerprint_key: copy_secret(&self.fingerprint_key) }
    }

    /// Keyed digest for deduplication metadata. Fingerprints stay in plaintext
    /// so the dedupe index can be rebuilt at open without decrypting the whole
    /// store, which means an unkeyed digest would let anyone holding the file
    /// confirm a guess about what was observed. Keying removes that while
    /// keeping the value stable within the session.
    pub fn fingerprint(&self, bytes: &[u8]) -> (r: String)
        requires
            self.wf(),
        ensures
            r@ == keyed_fingerprint(self@.fingerprint_key, bytes@),
    {
        let secret = keyed_digest(&self.fingerprint_key, bytes);
        let digest = expose_bytes(&secret);
        let mut hex = String::new();
        let mut i: usize = 0;
        while i < 16
            invariant
                i <= 16,
                digest@.len() == 32,
                hex@ == hex_bytes(digest@, i as nat),
            decreases 16 - i,
        {
            let pair = text::hex_fixed_of(digest[i] as u64, 2);
            hex.append(pair.as_str());
            i = i + 1;
        }
        text::concat(KEYED_FINGERPRINT_PREFIX, hex.as_str())
    }

    /// Encrypts `content` under a fresh random nonce. It fails just where the
    /// content is too long.
    pub fn encrypt(&self, associated: &str, content: &str) -> (r: Result<
        (String, EncryptedContent),
        String,
    >)
        requires
            self.wf(),
        ensures
            match r {
                Ok((encrypted, encryption)) => sealable(content@) && encrypts_to(
                    self@.key,
                    associated@,
                    content@,
                    encrypted@,
                    encryption@,
                ),
                Err(message) => !sealable(content@) && message@ == "failed to encrypt content"@,
            },
    {
        let nonce = random_nonce();
        self.encrypt_with(nonce.as_slice(), associated, content)
    }

    /// Encrypts `content` under a given nonce.
    pub fn encrypt_with(&self, nonce: &[u8], associated: &str, content: &str) -> (r: Result<
        (String, EncryptedContent),
        String,
    >)
        requires
            self.wf(),
            nonce@.len() == NONCE_BYTES,
        ensures
            match r {
                Ok((encrypted, encryption)) => sealable(content@) && encrypted@ == base64_text(
                    sealed(self@.key, nonce@, encode_utf8(associated@), encode_utf8(content@)),
                ) && encryption.format == 1 && encryption.nonce@ == base64_text(nonce@)
                    && encrypts_to(
                    self@.key,
                    associated@,
                    content@,
                    encrypted@,
                    encryption@,
                ),
                Err(message) => !sealable(content@) && message@ == "failed to encrypt content"@,
            },
    {
        let message = content.as_bytes();
        if message.len() as u64 > MAX_SEALED_BYTES {
            return Err("failed to encrypt content".to_owned());
        }
        let ciphertext = seal(&self.key, nonce, associated.as_bytes(), message);
        let encrypted = base64_encode(ciphertext.as_slice());
        let encryption = EncryptedContent { format: 1, nonce: base64_encode(nonce) };
        assert(encrypts_with(self@.key, associated@, content@, nonce@, ciphertext@));
        Ok((encrypted, encryption))
    }

    /// Decrypts what [`Cipher::encrypt`] produced under the same keys and with
    /// the same associated text: every such content comes back as it was.
    pub fn decrypt(&self, associated: &str, content: &str, encryption: &EncryptedContent) -> (r:
        Result<String, String>)
        requires
            self.wf(),
        ensures
            text::res(r) == decrypted(self@.key, associated@, content@, encryption@),
            forall|plain: Seq<char>| #[trigger]
                encrypts_to(self@.key, associated@, plain, content@, encryption@) ==> (r matches Ok(
                    got,
                ) && got@ == plain),
    {
        if encryption.format != 1 {
            let format = text::decimal_of(encryption.format as u64);
            return Err(
                text::concat("unsupported content encryption format ", format.as_str()),
            );
        }
        let nonce = match base64_decode(encryption.nonce.as_str()) {
            Ok(nonce) => nonce,
            Err(message) => {
                return Err(
                    text::concat("failed to decode encryption nonce: ", message.as_str()),
                );
            },
        };
        if nonce.len() != NONCE_BYTES {
            return Err("encryption nonce has the wrong length".to_owned());
        }
        let ciphertext = match base64_decode(content) {
            Ok(ciphertext) => ciphertext,
            Err(message) => {
                return Err(
                    text::concat("failed to decode encrypted content: ", message.as_str()),
                );
            },
        };
        let opened_bytes = if ciphertext.len() as u64 > MAX_SEALED_BYTES + TAG_BYTES as u64 {
            None
        } else {
            unseal(
                &self.key,
                nonce.as_slice(),
                associated.as_bytes(),
                ciphertext.as_slice(),
            )
        };
        assert forall|plain: Seq<char>| #[trigger]
            encrypts_to(
                self@.key,
                associated@,
                plain,
                content@,
                encryption@,
            ) implies text::opt(opened_bytes) == Some(encode_utf8(plain)) by {
            let (n, c) = choose|n: Seq<u8>, c: Seq<u8>|
                encrypts_with(self@.key, associated@, plain, n, c) && encryption@.format == 1
                    && encryption@.nonce == base64_text(n) && content@ == base64_text(c);
            assert(n == nonce@);
            assert(c == ciphertext@);
        }
        match opened_bytes {
            Some(plain) => {
                let ghost bytes = plain@;
                let r = utf8_text(plain);
                proof {
                    if r is Ok {
                        encode_utf8_decode_utf8(r->Ok_0@);
                    }
                    assert forall|p: Seq<char>| #[trigger]
                        encrypts_to(
                            self@.key,
                            associated@,
                            p,
                            content@,
                            encryption@,
                        ) implies r matches Ok(got) && got@ == p by {
                        encode_utf8_valid_utf8(p);
                        encode_utf8_decode_utf8(p);
                    }
                }
                match r {
                    Ok(plain) => Ok(plain),
                    Err(message) => Err(
                        text::concat("decrypted content is not UTF-8: ", message.as_str()),
                    ),
                }
            },
            None => Err("content authentication failed".to_owned()),
        }
    }
}

} // verus!
