//! Node identity: the self-certifying node id derived from the long-term
//! public key, and the layout of the identity record on disk.
use vstd::prelude::*;

verus! {

use crate::encryption::{EncryptionManager, base64_of};
use crate::error::MeshError;

/// The only identity record version this node reads or writes.
pub const IDENTITY_VERSION: u8 = 1;

/// What SHA-256 digests a byte string to; a pure function of the bytes.
pub uninterp spec fn sha256_of(b: Seq<u8>) -> Seq<u8>;

/// What the Bitcoin-alphabet base58 coding prints for a byte string; a pure
/// function of the bytes.
pub uninterp spec fn base58_of(b: Seq<u8>) -> Seq<char>;

/// Relies on sha2's Sha256: the 32-byte digest of the input.
#[verifier::external_body]
pub fn sha256(b: &[u8]) -> (r: Vec<u8>)
    ensures
        r@ == sha256_of(b@),
        r@.len() == 32,
{
    let mut hasher = <sha2::Sha256 as sha2::Digest>::new();
    sha2::Digest::update(&mut hasher, b);
    sha2::Digest::finalize(hasher).to_vec()
}

/// Relies on bs58's encode: the base58 printing of the input.
#[verifier::external_body]
pub fn bs58_encode(b: &[u8]) -> (r: String)
    ensures
        r@ == base58_of(b@),
{
    bs58::encode(b).into_string()
}

/// The node id belonging to a serialized public key: the base58 printing of
/// its SHA-256 digest.
pub open spec fn spec_node_id_of(der: Seq<u8>) -> Seq<char> {
    base58_of(sha256_of(der))
}

/// Derive the self-certifying node id from a serialized public key.
pub fn derive_node_id_from_der(public_key_der: &[u8]) -> (r: String)
    ensures
        r@ == spec_node_id_of(public_key_der@),
{
    let hash = sha256(public_key_der);
    bs58_encode(hash.as_slice())
}

/// A persistent node identity: the derived id, the key pair, and the data
/// directory it lives in.
pub struct NodeIdentity {
    pub node_id: String,
    pub encryption: EncryptionManager,
    pub data_dir: String,
}

/// The directory holding key material under a data directory.
pub fn keys_dir(data_dir: &str) -> (r: String)
    ensures
        r@ == data_dir@ + "/keys"@,
{
    String::from_str(data_dir).concat("/keys")
}

/// The identity record's path under a data directory.
pub fn identity_path(data_dir: &str) -> (r: String)
    ensures
        r@ == data_dir@ + "/keys"@ + "/identity.json"@,
{
    keys_dir(data_dir).concat("/identity.json")
}

/// Validate a stored identity record's version: only the supported version
/// loads; anything else is a configuration error.
pub fn validate_identity_version(version: u8) -> (r: Result<(), MeshError>)
    ensures
        r is Ok <==> version == IDENTITY_VERSION,
        r matches Err(e) ==> e is Config,
{
    if version == IDENTITY_VERSION {
        Ok(())
    } else {
        Err(MeshError::Config(String::from_str("Unsupported identity file version")))
    }
}

} // verus!
