//! ECDSA over secp256k1: keys, signatures, and PEM serialization of
//! public keys.
//!
//! Keys and signatures are carried as plain bytes — a public key as its
//! 33-byte compressed SEC1 encoding, a private key as its 32 scalar
//! bytes, a signature as its 64 fixed-size bytes — so the ledger logic
//! over them is verified; only the curve arithmetic itself is trusted,
//! behind the named results below.

use vstd::prelude::*;

verus! {

/// Whether 32 bytes are a canonical nonzero secp256k1 scalar, i.e.
/// whether `ecdsa::SigningKey::from_slice` accepts them.
pub uninterp spec fn scalar_valid(key: Seq<u8>) -> bool;

/// The compressed SEC1 encoding of the public key belonging to a
/// private scalar, as `ecdsa::VerifyingKey::to_encoded_point` returns it.
pub uninterp spec fn pubkey_of(key: Seq<u8>) -> Seq<u8>;

/// The RFC 6979 (deterministic) ECDSA signature of a message under a
/// private scalar, as `ecdsa::SigningKey::sign` computes it.
pub uninterp spec fn sign_of(key: Seq<u8>, msg: Seq<u8>) -> Seq<u8>;

/// Whether standard ECDSA verification accepts a signature over a
/// message under a public key, as `ecdsa::VerifyingKey::verify` decides.
pub uninterp spec fn ecdsa_verifies(sig: Seq<u8>, msg: Seq<u8>, pubkey: Seq<u8>) -> bool;

/// The PEM (SubjectPublicKeyInfo) text of a SEC1-encoded public key, as
/// `spki::EncodePublicKey::to_public_key_pem` writes it.
pub uninterp spec fn pem_of(pubkey: Seq<u8>) -> Seq<char>;

/// The SEC1 bytes of the public key a PEM text parses to, as
/// `str::parse::<ecdsa::VerifyingKey<_>>` reads it.
pub uninterp spec fn pem_parse_of(text: Seq<char>) -> Seq<u8>;

/// An ECDSA signature: 64 fixed-size bytes.
#[derive(Debug, PartialEq, Eq)]
pub struct Signature {
    pub bytes: Vec<u8>,
}

impl View for Signature {
    type V = Seq<u8>;

    open spec fn view(&self) -> Seq<u8> {
        self.bytes@
    }
}

/// A secp256k1 public key: its 33-byte compressed SEC1 encoding.
#[derive(Debug, PartialEq, Eq)]
pub struct PublicKey {
    pub bytes: Vec<u8>,
}

impl View for PublicKey {
    type V = Seq<u8>;

    open spec fn view(&self) -> Seq<u8> {
        self.bytes@
    }
}

/// A secp256k1 private key: its 32 scalar bytes.
#[derive(Debug)]
pub struct PrivateKey {
    pub bytes: Vec<u8>,
}

impl View for PrivateKey {
    type V = Seq<u8>;

    open spec fn view(&self) -> Seq<u8> {
        self.bytes@
    }
}

impl Clone for Signature {
    /// A clone carries the same bytes.
    fn clone(&self) -> (r: Self)
        ensures
            r@ == self@,
    {
        let r = Signature { bytes: self.bytes.clone() };
        proof {
            assert(r.bytes@ =~= self.bytes@);
        }
        r
    }
}

impl Clone for PublicKey {
    /// A clone carries the same bytes.
    fn clone(&self) -> (r: Self)
        ensures
            r@ == self@,
    {
        let r = PublicKey { bytes: self.bytes.clone() };
        proof {
            assert(r.bytes@ =~= self.bytes@);
        }
        r
    }
}

impl Clone for PrivateKey {
    /// A clone carries the same bytes.
    fn clone(&self) -> (r: Self)
        ensures
            r@ == self@,
    {
        let r = PrivateKey { bytes: self.bytes.clone() };
        proof {
            assert(r.bytes@ =~= self.bytes@);
        }
        r
    }
}

impl PublicKey {
    /// Byte equality; two keys are the same point exactly when their
    /// compressed encodings agree.
    pub fn key_eq(&self, other: &PublicKey) -> (r: bool)
        ensures
            r == (self@ == other@),
    {
        let n = self.bytes.len();
        if n != other.bytes.len() {
            return false;
        }
        let mut i: usize = 0;
        while i < n
            invariant
                i <= n,
                n == self.bytes@.len() == other.bytes@.len(),
                forall|j: int| 0 <= j < i ==> self.bytes@[j] == other.bytes@[j],
            decreases n - i,
        {
            if self.bytes[i] != other.bytes[i] {
                return false;
            }
            i = i + 1;
        }
        proof {
            assert(self.bytes@ =~= other.bytes@);
        }
        true
    }
}

impl Signature {
    /// Sign a hash (its 32 big-endian bytes) with a private key.
    /// `None` exactly when the key bytes are not a valid scalar.
    ///
    /// Relies on `ecdsa::SigningKey::from_slice` (accepts exactly the
    /// canonical nonzero scalars) and `ecdsa::SigningKey::sign`
    /// (deterministic RFC 6979, a function of key and message alone).
    #[verifier::external_body]
    pub fn sign_output(output_hash: &crate::hash::Hash, private_key: &PrivateKey) -> (r: Option<
        Signature,
    >)
        ensures
            r is Some <==> scalar_valid(private_key@),
            r matches Some(s) ==> s@ == sign_of(
                private_key@,
                crate::bytes::bytes_of(output_hash.as_nat(), 32),
            ),
    {
        let key = match k256::ecdsa::SigningKey::from_slice(&private_key.bytes) {
            Ok(key) => key,
            Err(_) => {
                return None;
            },
        };
        let msg = output_hash.as_bytes();
        let sig: k256::ecdsa::Signature = <k256::ecdsa::SigningKey as k256::ecdsa::signature::Signer<
            k256::ecdsa::Signature,
        >>::sign(&key, &msg);
        Some(Signature { bytes: sig.to_bytes().to_vec() })
    }

    /// Whether this signature is valid over a hash under a public key.
    ///
    /// Relies on `ecdsa::VerifyingKey::from_sec1_bytes`,
    /// `ecdsa::Signature::from_slice` and `ecdsa::VerifyingKey::verify`:
    /// verification is a function of signature, message and key bytes
    /// alone; malformed keys or signatures verify as false.
    #[verifier::external_body]
    pub fn verify(&self, output_hash: &crate::hash::Hash, public_key: &PublicKey) -> (r: bool)
        ensures
            r == ecdsa_verifies(
                self@,
                crate::bytes::bytes_of(output_hash.as_nat(), 32),
                public_key@,
            ),
    {
        let key = k256::ecdsa::VerifyingKey::from_sec1_bytes(&public_key.bytes);
        let sig = k256::ecdsa::Signature::from_slice(&self.bytes);
        let msg = output_hash.as_bytes();
        match (key, sig) {
            (Ok(key), Ok(sig)) => <k256::ecdsa::VerifyingKey as k256::ecdsa::signature::Verifier<
                k256::ecdsa::Signature,
            >>::verify(&key, &msg, &sig).is_ok(),
            _ => false,
        }
    }
}

impl PrivateKey {
    /// Generate a fresh random key.
    ///
    /// Relies on `ecdsa::SigningKey::random`: the scalar drawn is
    /// nonzero and canonical, so its 32 bytes parse back.
    #[verifier::external_body]
    pub fn new_key() -> (r: PrivateKey)
        ensures
            r@.len() == 32,
            scalar_valid(r@),
    {
        let key = k256::ecdsa::SigningKey::random(&mut rand_core::OsRng);
        PrivateKey { bytes: key.to_bytes().to_vec() }
    }

    /// The public key belonging to this private key, `None` exactly
    /// when the key bytes are not a valid scalar.
    ///
    /// Relies on `ecdsa::SigningKey::from_slice` and
    /// `ecdsa::VerifyingKey::to_encoded_point` (compressed): the
    /// public key is a function of the scalar alone.
    #[verifier::external_body]
    pub fn public_key(&self) -> (r: Option<PublicKey>)
        ensures
            r is Some <==> scalar_valid(self@),
            r matches Some(p) ==> p@ == pubkey_of(self@),
    {
        let key = match k256::ecdsa::SigningKey::from_slice(&self.bytes) {
            Ok(key) => key,
            Err(_) => {
                return None;
            },
        };
        let point = key.verifying_key().to_encoded_point(true);
        Some(PublicKey { bytes: point.as_bytes().to_vec() })
    }
}

/// The PEM (SubjectPublicKeyInfo) text of a public key, `None` when the
/// bytes are not a curve point.
///
/// Relies on `ecdsa::VerifyingKey::from_sec1_bytes` and
/// `spki::EncodePublicKey::to_public_key_pem`: the text is a function of
/// the key bytes alone.
#[verifier::external_body]
pub fn pubkey_to_pem(key: &PublicKey) -> (r: Option<String>)
    ensures
        r matches Some(s) ==> s@ == pem_of(key@),
{
    let key = match k256::ecdsa::VerifyingKey::from_sec1_bytes(&key.bytes) {
        Ok(key) => key,
        Err(_) => {
            return None;
        },
    };
    match spki::EncodePublicKey::to_public_key_pem(&key, Default::default()) {
        Ok(text) => Some(text),
        Err(_) => None,
    }
}

/// The public key a PEM (SubjectPublicKeyInfo) text denotes, in
/// compressed SEC1 bytes; `None` when the text does not parse.
///
/// Relies on `str::parse::<ecdsa::VerifyingKey<_>>` and
/// `ecdsa::VerifyingKey::to_encoded_point` (compressed).
#[verifier::external_body]
pub fn pubkey_from_pem(text: &String) -> (r: Option<PublicKey>)
    ensures
        r matches Some(p) ==> p@ == pem_parse_of(text@),
{
    let key: k256::ecdsa::VerifyingKey = match text.parse() {
        Ok(key) => key,
        Err(_) => {
            return None;
        },
    };
    let point = key.to_encoded_point(true);
    Some(PublicKey { bytes: point.as_bytes().to_vec() })
}

} // verus!
