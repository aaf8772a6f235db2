//! Signing keys and signature checks.
//!
//! The cryptography itself is a collaborator: signing and verification go
//! through Ed25519, armoring through standard base64. The library holds keys
//! as plain byte strings (a key pair is two 32-byte secrets; a public key is
//! two 32-byte verifying keys) and verifies all the surrounding logic; only
//! the outside calls are taken on trust, under the named results below.
//!
//! `sig_of`, `vkey_of`, `is_vkey`, `verify_of` and `b64_of` name what the
//! outside functions return; they are deterministic functions of their
//! arguments alone.

use ed25519_dalek::Signer;
use vstd::prelude::*;

verus! {

/// The base64 text (standard alphabet, padded) of a byte string.
pub uninterp spec fn b64_of(data: Seq<u8>) -> Seq<char>;

/// The Ed25519 signature of `data` under the 32-byte secret key `secret`.
pub uninterp spec fn sig_of(secret: Seq<u8>, data: Seq<u8>) -> Seq<u8>;

/// The 32-byte verifying key derived from a 32-byte secret key.
pub uninterp spec fn vkey_of(secret: Seq<u8>) -> Seq<u8>;

/// Whether 32 bytes are a well-formed Ed25519 verifying key.
pub uninterp spec fn is_vkey(bytes: Seq<u8>) -> bool;

/// The strict Ed25519 verification verdict for a key, message and signature.
pub uninterp spec fn verify_of(vkey: Seq<u8>, data: Seq<u8>, sig: Seq<u8>) -> bool;

#[derive(Debug)]
pub enum CryptoError {
    InvalidKeyFormat(String),
    KeyGenerationError(String),
    InvalidKey,
}

/// Relies on base64's standard engine: `encode` returns the padded base64
/// text of the input bytes.
#[verifier::external_body]
pub fn b64_encode(data: &[u8]) -> (r: String)
    ensures
        r@ == b64_of(data@),
{
    base64::Engine::encode(&base64::engine::general_purpose::STANDARD, data)
}

/// Relies on base64's standard engine: `decode` accepts exactly the canonical
/// padded encodings (padding is required and trailing bits must be zero) and
/// inverts `encode` on them.
#[verifier::external_body]
pub fn b64_decode(data: &str) -> (r: Result<Vec<u8>, CryptoError>)
    ensures
        match r {
            Result::Ok(v) => data@ == b64_of(v@) && (forall|b: Seq<u8>|
                data@ == b64_of(b) ==> b == v@),
            Result::Err(e) => e matches CryptoError::InvalidKey && (forall|b: Seq<u8>|
                data@ != b64_of(b)),
        },
{
    base64::Engine::decode(&base64::engine::general_purpose::STANDARD, data)
        .map_err(|_| CryptoError::InvalidKey)
}

/// Relies on rand's thread-local generator: `fill_bytes` fills the whole
/// buffer. Nothing is assumed about the values.
#[verifier::external_body]
pub fn random_bytes(n: usize) -> (r: Vec<u8>)
    ensures
        r@.len() == n,
{
    let mut buf = vec![0u8; n];
    rand::RngCore::fill_bytes(&mut rand::thread_rng(), &mut buf);
    buf
}

/// Relies on ed25519-dalek's `SigningKey::sign` (RFC 8032, deterministic) and
/// on `verify_strict` accepting a signature that key produced.
#[verifier::external_body]
fn ed25519_sign(secret: &[u8], data: &[u8]) -> (r: Vec<u8>)
    requires
        secret@.len() == 32,
    ensures
        r@ == sig_of(secret@, data@),
        r@.len() == 64,
        verify_of(vkey_of(secret@), data@, r@),
{
    let key = ed25519_dalek::SigningKey::from_bytes(secret.try_into().unwrap());
    key.sign(data).to_vec()
}

/// Relies on ed25519-dalek's `SigningKey::verifying_key`: the verifying key
/// is a function of the secret key, and its 32-byte encoding parses back.
#[verifier::external_body]
fn ed25519_public(secret: &[u8]) -> (r: Vec<u8>)
    requires
        secret@.len() == 32,
    ensures
        r@ == vkey_of(secret@),
        r@.len() == 32,
        is_vkey(r@),
{
    let key = ed25519_dalek::SigningKey::from_bytes(secret.try_into().unwrap());
    key.verifying_key().as_bytes().to_vec()
}

/// Relies on ed25519-dalek's `VerifyingKey::try_from`: it succeeds exactly on
/// well-formed key encodings.
#[verifier::external_body]
fn ed25519_valid_key(bytes: &[u8]) -> (r: bool)
    requires
        bytes@.len() == 32,
    ensures
        r == is_vkey(bytes@),
{
    ed25519_dalek::VerifyingKey::try_from(bytes).is_ok()
}

/// Relies on ed25519-dalek's `verify_strict`; a signature that is not 64
/// bytes long never verifies.
#[verifier::external_body]
fn ed25519_verify(vkey: &[u8], data: &[u8], sig: &[u8]) -> (r: bool)
    requires
        vkey@.len() == 32,
        is_vkey(vkey@),
    ensures
        r == verify_of(vkey@, data@, sig@),
{
    match ed25519_dalek::Signature::from_slice(sig) {
        Ok(s) => {
            let key = ed25519_dalek::VerifyingKey::try_from(vkey).unwrap();
            key.verify_strict(data, &s).is_ok()
        },
        Err(_) => false,
    }
}

/// Copies a byte vector.
pub(crate) fn copy_bytes(b: &[u8]) -> (r: Vec<u8>)
    ensures
        r@ == b@,
{
    let mut out: Vec<u8> = Vec::new();
    let n = b.len();
    let mut i: usize = 0;
    while i < n
        invariant
            n == b@.len(),
            i <= n,
            out@ == b@.subrange(0, i as int),
        decreases n - i,
    {
        out.push(*vstd::slice::slice_index_get(b, i));
        proof {
            assert(b@.subrange(0, i + 1 as int) =~= b@.subrange(0, i as int).push(b@[i as int]));
        }
        i = i + 1;
    }
    proof {
        assert(b@.subrange(0, n as int) =~= b@);
    }
    out
}

/// Concatenates two byte vectors.
pub(crate) fn concat_bytes(a: &Vec<u8>, b: &Vec<u8>) -> (r: Vec<u8>)
    ensures
        r@ == a@ + b@,
{
    let mut out = copy_bytes(a.as_slice());
    let mut tail = copy_bytes(b.as_slice());
    out.append(&mut tail);
    out
}

/// A replica's public identity: the two 32-byte Ed25519 verifying keys it
/// exports, one for signing and one reserved for encryption.
#[derive(Debug, Clone, PartialEq, Eq)]
pub struct PublicKey {
    pub verifying: Vec<u8>,
    pub encrypting: Vec<u8>,
}

impl PublicKey {
    pub open spec fn wf(self) -> bool {
        &&& self.verifying@.len() == 32
        &&& self.encrypting@.len() == 32
        &&& is_vkey(self.verifying@)
        &&& is_vkey(self.encrypting@)
    }

    /// The 64-byte export: verifying key then encrypting key.
    pub open spec fn export_spec(self) -> Seq<u8> {
        self.verifying@ + self.encrypting@
    }

    /// Imports a 64-byte export; both halves must parse as verifying keys.
    pub fn import(data: &[u8]) -> (r: Result<PublicKey, CryptoError>)
        ensures
            match r {
                Result::Ok(p) => data@.len() == 64 && p.wf() && p.verifying@ == data@.subrange(
                    0,
                    32,
                ) && p.encrypting@ == data@.subrange(32, 64),
                Result::Err(e) => e matches CryptoError::InvalidKey && !(data@.len() == 64
                    && is_vkey(data@.subrange(0, 32)) && is_vkey(data@.subrange(32, 64))),
            },
    {
        if data.len() != 64 {
            return Result::Err(CryptoError::InvalidKey);
        }
        let verifying = copy_bytes(vstd::slice::slice_subrange(data, 0, 32));
        let encrypting = copy_bytes(vstd::slice::slice_subrange(data, 32, 64));
        if !ed25519_valid_key(verifying.as_slice()) {
            return Result::Err(CryptoError::InvalidKey);
        }
        if !ed25519_valid_key(encrypting.as_slice()) {
            return Result::Err(CryptoError::InvalidKey);
        }
        Result::Ok(PublicKey { verifying, encrypting })
    }

    /// Imports from base64 armor.
    pub fn import_armored(data: &str) -> (r: Result<PublicKey, CryptoError>)
        ensures
            r matches Result::Ok(p) ==> p.wf() && data@ == b64_of(p.export_spec()),
            forall|b: Seq<u8>|
                data@ == b64_of(b) && b.len() == 64 && is_vkey(b.subrange(0, 32)) && is_vkey(
                    b.subrange(32, 64),
                ) ==> (r matches Result::Ok(p2) && p2.verifying@ == b.subrange(0, 32)
                    && p2.encrypting@ == b.subrange(32, 64)),
    {
        let bytes = match b64_decode(data) {
            Result::Ok(v) => v,
            Result::Err(e) => {
                return Result::Err(e);
            },
        };
        let r = Self::import(bytes.as_slice());
        proof {
            match &r {
                Result::Ok(p) => {
                    assert(p.export_spec() =~= bytes@);
                },
                Result::Err(_) => {},
            }
        }
        r
    }

    /// The 64-byte export, verifying key first.
    pub fn export(&self) -> (r: Vec<u8>)
        ensures
            r@ == self.export_spec(),
    {
        concat_bytes(&self.verifying, &self.encrypting)
    }

    /// The base64 armor of the export.
    pub fn armor(&self) -> (r: String)
        ensures
            r@ == b64_of(self.export_spec()),
    {
        let e = self.export();
        b64_encode(e.as_slice())
    }

    /// Checks `signature` over `data` under this identity's verifying key.
    pub fn verify(&self, data: &[u8], signature: &[u8]) -> (r: bool)
        requires
            self.wf(),
        ensures
            r == verify_of(self.verifying@, data@, signature@),
    {
        ed25519_verify(self.verifying.as_slice(), data, signature)
    }
}

/// A replica's secret identity: two 32-byte Ed25519 secret keys, one used
/// for signing and one reserved for encryption.
#[derive(Debug, Clone, PartialEq, Eq)]
pub struct KeyPair {
    pub signing: Vec<u8>,
    pub encrypting: Vec<u8>,
}

impl KeyPair {
    pub open spec fn wf(self) -> bool {
        self.signing@.len() == 32 && self.encrypting@.len() == 32
    }

    pub open spec fn export_public_spec(self) -> Seq<u8> {
        vkey_of(self.signing@) + vkey_of(self.encrypting@)
    }

    /// A fresh pair of random secret keys.
    pub fn generate() -> (r: KeyPair)
        ensures
            r.wf(),
    {
        KeyPair { signing: random_bytes(32), encrypting: random_bytes(32) }
    }

    /// Imports a 64-byte private export; any 64 bytes form a valid pair.
    pub fn import(data: &[u8]) -> (r: Result<KeyPair, CryptoError>)
        ensures
            match r {
                Result::Ok(p) => data@.len() == 64 && p.wf() && p.signing@ == data@.subrange(0, 32)
                    && p.encrypting@ == data@.subrange(32, 64),
                Result::Err(e) => e matches CryptoError::InvalidKey && data@.len() != 64,
            },
    {
        if data.len() != 64 {
            return Result::Err(CryptoError::InvalidKey);
        }
        let signing = copy_bytes(vstd::slice::slice_subrange(data, 0, 32));
        let encrypting = copy_bytes(vstd::slice::slice_subrange(data, 32, 64));
        Result::Ok(KeyPair { signing, encrypting })
    }

    /// Imports from base64 armor.
    pub fn import_armored(data: &str) -> (r: Result<KeyPair, CryptoError>)
        ensures
            r matches Result::Ok(p) ==> p.wf() && data@ == b64_of(
                p.signing@ + p.encrypting@,
            ),
            forall|b: Seq<u8>|
                data@ == b64_of(b) && b.len() == 64 ==> (r matches Result::Ok(p2) && p2.signing@
                    == b.subrange(0, 32) && p2.encrypting@ == b.subrange(32, 64)),
    {
        let bytes = match b64_decode(data) {
            Result::Ok(v) => v,
            Result::Err(e) => {
                return Result::Err(e);
            },
        };
        let r = Self::import(bytes.as_slice());
        proof {
            match &r {
                Result::Ok(p) => {
                    assert(p.signing@ + p.encrypting@ =~= bytes@);
                },
                Result::Err(_) => {},
            }
        }
        r
    }

    /// The public identity derived from this pair.
    pub fn public(&self) -> (r: PublicKey)
        requires
            self.wf(),
        ensures
            r.wf(),
            r.verifying@ == vkey_of(self.signing@),
            r.encrypting@ == vkey_of(self.encrypting@),
    {
        PublicKey {
            verifying: ed25519_public(self.signing.as_slice()),
            encrypting: ed25519_public(self.encrypting.as_slice()),
        }
    }

    /// The 64-byte private export, signing secret first.
    pub fn export_private(&self) -> (r: Vec<u8>)
        ensures
            r@ == self.signing@ + self.encrypting@,
    {
        concat_bytes(&self.signing, &self.encrypting)
    }

    /// The 64-byte public export: both derived verifying keys.
    pub fn export_public(&self) -> (r: Vec<u8>)
        requires
            self.wf(),
        ensures
            r@ == self.export_public_spec(),
            r@.len() == 64,
            is_vkey(vkey_of(self.signing@)),
            is_vkey(vkey_of(self.encrypting@)),
            vkey_of(self.signing@).len() == 32,
            vkey_of(self.encrypting@).len() == 32,
    {
        let a = ed25519_public(self.signing.as_slice());
        let b = ed25519_public(self.encrypting.as_slice());
        concat_bytes(&a, &b)
    }

    pub fn armor_private(&self) -> (r: String)
        ensures
            r@ == b64_of(self.signing@ + self.encrypting@),
    {
        let e = self.export_private();
        b64_encode(e.as_slice())
    }

    pub fn armor_public(&self) -> (r: String)
        requires
            self.wf(),
        ensures
            r@ == b64_of(self.export_public_spec()),
    {
        let e = self.export_public();
        b64_encode(e.as_slice())
    }

    /// Signs `data` with the signing secret.
    pub fn sign(&self, data: &[u8]) -> (r: Vec<u8>)
        requires
            self.wf(),
        ensures
            r@ == sig_of(self.signing@, data@),
            r@.len() == 64,
            verify_of(vkey_of(self.signing@), data@, r@),
    {
        ed25519_sign(self.signing.as_slice(), data)
    }

    /// Checks a signature against this pair's own verifying key.
    pub fn verify(&self, data: &[u8], signature: &[u8]) -> (r: bool)
        requires
            self.wf(),
        ensures
            r == verify_of(vkey_of(self.signing@), data@, signature@),
    {
        let vk = ed25519_public(self.signing.as_slice());
        ed25519_verify(vk.as_slice(), data, signature)
    }
}

} // verus!
