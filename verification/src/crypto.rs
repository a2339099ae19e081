//! Passphrase-based encryption of byte blobs, bound to one file location.
//! Key material is derived from the passphrase per invocation and never
//! persisted. The embedding program moves the bytes to and from disk; every
//! decision about them is made here.

use vstd::prelude::*;

verus! {

use vstd::string::StringExecFns;

/// The failure modes of the encrypted store.
#[derive(PartialEq, Eq, Structural, Clone, Copy, Debug)]
pub enum CryptoError {
    /// Decryption failed: wrong passphrase, corrupted ciphertext, or a
    /// work factor this machine refuses. Never silently recovered.
    DecryptError,
    /// Encryption failed.
    EncryptError,
    /// The file was absent or unreadable; recoverable by treating the state
    /// as empty.
    IO,
}

impl CryptoError {
    /// A human-readable description of the failure.
    pub fn message(&self) -> (r: String)
        ensures
            *self == CryptoError::DecryptError ==> r@ == "Decryption failed"@,
            *self == CryptoError::EncryptError ==> r@ == "Encryption failed"@,
            *self == CryptoError::IO ==> r@ == "IO error"@,
    {
        match self {
            CryptoError::DecryptError => "Decryption failed".to_owned(),
            CryptoError::EncryptError => "Encryption failed".to_owned(),
            CryptoError::IO => "IO error".to_owned(),
        }
    }
}

/// What a ciphertext decrypts to under a passphrase, if anything: the
/// in-principle result, a function of the two alone. A run of the
/// decryption routine returns this value when it succeeds; it may still
/// fail on a decryptable ciphertext.
pub uninterp spec fn decrypted(passphrase: Seq<char>, ciphertext: Seq<u8>) -> Option<Seq<u8>>;

/// Relies on age::encrypt with an age::scrypt::Recipient derived from the
/// passphrase: every ciphertext it produces decrypts, under the scrypt
/// identity of the same passphrase, to exactly the plaintext given.
#[verifier::external_body]
fn age_encrypt(passphrase: &str, plaintext: &[u8]) -> (r: Result<Vec<u8>, CryptoError>)
    ensures
        match r {
            Ok(c) => decrypted(passphrase@, c@) == Some(plaintext@),
            Err(e) => e == CryptoError::EncryptError,
        },
{
    let recipient = age::scrypt::Recipient::new(passphrase.to_owned().into());
    match age::encrypt(&recipient, plaintext) {
        Ok(c) => Ok(c),
        Err(_) => Err(CryptoError::EncryptError),
    }
}

/// Relies on age::decrypt with an age::scrypt::Identity derived from the
/// passphrase: a returned plaintext is what the ciphertext decrypts to under
/// that passphrase. Failure proves nothing of the ciphertext: the identity
/// also refuses work factors above a machine-dependent cap, so a decryptable
/// ciphertext can still be rejected here.
#[verifier::external_body]
fn age_decrypt(passphrase: &str, ciphertext: &[u8]) -> (r: Result<Vec<u8>, CryptoError>)
    ensures
        match r {
            Ok(p) => decrypted(passphrase@, ciphertext@) == Some(p@),
            Err(e) => e == CryptoError::DecryptError,
        },
{
    let identity = age::scrypt::Identity::new(passphrase.to_owned().into());
    match age::decrypt(&identity, ciphertext) {
        Ok(p) => Ok(p),
        Err(_) => Err(CryptoError::DecryptError),
    }
}

/// An encrypted byte store bound to one file location, with identity and
/// recipient keys derived from one passphrase.
pub struct PasswdProtectedFile {
    passphrase: String,
    path: String,
}

impl PasswdProtectedFile {
    /// The passphrase the keys are derived from.
    pub closed spec fn passphrase_view(&self) -> Seq<char> {
        self.passphrase@
    }

    /// The bound location, in display form.
    pub closed spec fn path_view(&self) -> Seq<char> {
        self.path@
    }

    /// Binds a passphrase to a file location.
    pub fn new(passwd: &str, path: String) -> (s: Self)
        ensures
            s.passphrase_view() == passwd@,
            s.path_view() == path@,
    {
        PasswdProtectedFile { passphrase: passwd.to_owned(), path }
    }

    /// The display form of the bound location.
    pub fn path(&self) -> (r: String)
        ensures
            r@ == self.path_view(),
    {
        self.path.clone()
    }

    /// Decrypts the bytes the embedding program read from the bound file;
    /// absent content (the file missing or unreadable) is an `IO` failure,
    /// present but undecryptable content a `DecryptError`.
    pub fn read(&self, content: Option<&Vec<u8>>) -> (r: Result<Vec<u8>, CryptoError>)
        ensures
            match r {
                Ok(p) => match content {
                    Some(c) => decrypted(self.passphrase_view(), c@) == Some(p@),
                    None => false,
                },
                Err(e) => match content {
                    None => e == CryptoError::IO,
                    Some(_) => e == CryptoError::DecryptError,
                },
            },
    {
        match content {
            None => Err(CryptoError::IO),
            Some(c) => age_decrypt(self.passphrase.as_str(), c.as_slice()),
        }
    }

    /// Encrypts the bytes for the bound file; the embedding program writes
    /// the returned ciphertext out, replacing the file whole.
    pub fn write(&self, content: &[u8]) -> (r: Result<Vec<u8>, CryptoError>)
        ensures
            match r {
                Ok(c) => decrypted(self.passphrase_view(), c@) == Some(content@),
                Err(e) => e == CryptoError::EncryptError,
            },
    {
        age_encrypt(self.passphrase.as_str(), content)
    }
}

} // verus!
