//! Session encryption: RSA-OAEP key exchange, AES-256-GCM message
//! encryption, the per-peer session-key table, and the post-quantum
//! key-encapsulation alternative.
use vstd::prelude::*;

verus! {

use crate::codec::{enc_bytes, sdec_bytes, write_bytes, read_bytes, lemma_sdec_bytes_at,
    lemma_concat_sub};
use crate::error::MeshError;
use base64::Engine as _;
use rand::RngCore as _;
use aes_gcm::aead::Aead as _;
use aes_gcm::KeyInit as _;
use rsa::pkcs8::EncodePublicKey as _;
use rsa::pkcs8::DecodePublicKey as _;
use pqcrypto_traits::kem::PublicKey as _;
use pqcrypto_traits::kem::SecretKey as _;
use pqcrypto_traits::kem::Ciphertext as _;
use pqcrypto_traits::kem::SharedSecret as _;

/// RSA public key of a peer or of this node.
#[verifier::external_type_specification]
#[verifier::external_body]
pub struct ExRsaPublicKey(rsa::RsaPublicKey);

/// RSA private key of this node.
#[verifier::external_type_specification]
#[verifier::external_body]
pub struct ExRsaPrivateKey(rsa::RsaPrivateKey);

/// What AES-256-GCM produces for a key, nonce and plaintext; a pure
/// function of the three.
pub uninterp spec fn aes_seal(key: Seq<u8>, nonce: Seq<u8>, data: Seq<u8>) -> Seq<u8>;

/// What AES-256-GCM recovers from a key, nonce and ciphertext; a pure
/// function of the three, none when authentication fails.
pub uninterp spec fn aes_open(key: Seq<u8>, nonce: Seq<u8>, ct: Seq<u8>) -> Option<Seq<u8>>;

/// What the standard base64 alphabet prints for a byte string; a pure
/// function of the bytes.
pub uninterp spec fn base64_of(b: Seq<u8>) -> Seq<char>;

/// Relies on base64's general_purpose::STANDARD.encode: deterministic
/// printing of the bytes.
#[verifier::external_body]
pub fn base64_encode(b: &[u8]) -> (r: String)
    ensures
        r@ == base64_of(b@),
{
    base64::engine::general_purpose::STANDARD.encode(b)
}

/// Relies on base64's general_purpose::STANDARD.decode: it accepts only
/// canonical encodings, so a decoded value prints back to the input.
#[verifier::external_body]
pub fn base64_decode(s: &str) -> (r: Result<Vec<u8>, MeshError>)
    ensures
        r matches Ok(d) ==> base64_of(d@) == s@,
{
    base64::engine::general_purpose::STANDARD.decode(s).map_err(
        |e| MeshError::Peer(format!("Failed to decode base64: {}", e)),
    )
}

/// Encryption manager holding this node's RSA key pair.
pub struct EncryptionManager {
    pub public_key: rsa::RsaPublicKey,
    pub private_key: rsa::RsaPrivateKey,
}

impl EncryptionManager {
    /// Relies on rsa's RsaPrivateKey::new with a 2048-bit modulus and
    /// RsaPublicKey::from: a fresh random key pair.
    #[verifier::external_body]
    pub fn new() -> (r: Result<EncryptionManager, MeshError>)
    {
        let mut rng = rand::thread_rng();
        let private_key = rsa::RsaPrivateKey::new(&mut rng, 2048).map_err(
            |e| MeshError::Peer(format!("Failed to generate RSA key: {}", e)),
        )?;
        let public_key = rsa::RsaPublicKey::from(&private_key);
        Ok(EncryptionManager { public_key, private_key })
    }

    /// Relies on rsa's pkcs8 EncodePublicKey: the DER form of the public
    /// key, printed in base64.
    #[verifier::external_body]
    pub fn get_public_key_string(&self) -> (r: Result<String, MeshError>)
    {
            let der = self.public_key.to_public_key_der().map_err(
            |e| MeshError::Peer(format!("Failed to serialize public key: {}", e)),
        )?;
        Ok(base64::engine::general_purpose::STANDARD.encode(der.as_bytes()))
    }

    /// Relies on rsa's pkcs8 DecodePublicKey: parses a base64-printed DER
    /// public key.
    #[verifier::external_body]
    pub fn parse_public_key(encoded: &str) -> (r: Result<rsa::RsaPublicKey, MeshError>)
    {
            let der = base64::engine::general_purpose::STANDARD.decode(encoded).map_err(
            |e| MeshError::Peer(format!("Failed to decode public key: {}", e)),
        )?;
        rsa::RsaPublicKey::from_public_key_der(&der).map_err(
            |e| MeshError::Peer(format!("Failed to parse public key: {}", e)),
        )
    }

    /// Relies on rsa's RsaPublicKey::encrypt with OAEP-SHA256: randomized
    /// encryption of a short secret under the peer's public key.
    #[verifier::external_body]
    pub fn encrypt_with_public_key(&self, data: &[u8], peer_public_key: &rsa::RsaPublicKey) -> (r:
        Result<Vec<u8>, MeshError>)
        ensures
            r matches Err(e) ==> e is Peer,
    {
        let mut rng = rsa::rand_core::OsRng;
        let padding = rsa::Oaep::new::<sha2::Sha256>();
        peer_public_key.encrypt(&mut rng, padding, data).map_err(
            |e| MeshError::Peer(format!("RSA encryption failed: {}", e)),
        )
    }

    /// Relies on rsa's RsaPrivateKey::decrypt with OAEP-SHA256: recovers
    /// what was encrypted under this node's public key.
    #[verifier::external_body]
    pub fn decrypt_with_private_key(&self, encrypted: &[u8]) -> (r: Result<Vec<u8>, MeshError>)
        ensures
            r matches Err(e) ==> e is Peer,
    {
        let padding = rsa::Oaep::new::<sha2::Sha256>();
        self.private_key.decrypt(padding, encrypted).map_err(
            |e| MeshError::Peer(format!("RSA decryption failed: {}", e)),
        )
    }

    /// Relies on rand's OsRng: a fresh random 32-byte AES key and 12-byte
    /// nonce.
    #[verifier::external_body]
    pub fn generate_session_key() -> (r: (Vec<u8>, Vec<u8>))
        ensures
            r.0@.len() == 32,
            r.1@.len() == 12,
    {
        let mut key = vec![0u8; 32];
        let mut nonce = vec![0u8; 12];
        rand::rngs::OsRng.fill_bytes(&mut key);
        rand::rngs::OsRng.fill_bytes(&mut nonce);
        (key, nonce)
    }

    /// Relies on aes_gcm's Aes256Gcm encrypt: the ciphertext is the pure
    /// seal of key, nonce and plaintext, and opening it recovers the
    /// plaintext.
    #[verifier::external_body]
    fn encrypt_aes_raw(data: &[u8], key: &[u8], nonce: &[u8]) -> (r: Result<Vec<u8>, MeshError>)
        requires
            key@.len() == 32,
            nonce@.len() == 12,
        ensures
            r matches Ok(ct) ==> ct@ == aes_seal(key@, nonce@, data@) && aes_open(
                key@,
                nonce@,
                ct@,
            ) == Some(data@),
            r matches Err(e) ==> e is Peer && e.spec_message() == "AES encryption failed"@,
    {
        let cipher = aes_gcm::Aes256Gcm::new(aes_gcm::Key::<aes_gcm::Aes256Gcm>::from_slice(key));
        let nonce_array = aes_gcm::aead::generic_array::GenericArray::from_slice(nonce);
        cipher.encrypt(nonce_array, data).map_err(
            |_| MeshError::Peer("AES encryption failed".to_string()),
        )
    }

    /// Relies on aes_gcm's Aes256Gcm decrypt: succeeds exactly when the
    /// pure opening succeeds, and returns its value.
    #[verifier::external_body]
    fn decrypt_aes_raw(encrypted: &[u8], key: &[u8], nonce: &[u8]) -> (r: Result<
        Vec<u8>,
        MeshError,
    >)
        requires
            key@.len() == 32,
            nonce@.len() == 12,
        ensures
            r is Ok <==> aes_open(key@, nonce@, encrypted@) is Some,
            r matches Ok(pt) ==> aes_open(key@, nonce@, encrypted@) == Some(pt@),
            r matches Err(e) ==> e is Peer && e.spec_message() == "AES decryption failed"@,
    {
        let cipher = aes_gcm::Aes256Gcm::new(aes_gcm::Key::<aes_gcm::Aes256Gcm>::from_slice(key));
        let nonce_array = aes_gcm::aead::generic_array::GenericArray::from_slice(nonce);
        cipher.decrypt(nonce_array, encrypted).map_err(
            |_| MeshError::Peer("AES decryption failed".to_string()),
        )
    }

    /// Encrypt a message with AES-256-GCM. A nonce of any length other
    /// than twelve bytes is refused, as is a key of any length other than
    /// thirty-two; otherwise the ciphertext is the pure seal of the three
    /// inputs and opening it recovers the plaintext.
    pub fn encrypt_aes(data: &[u8], key: &[u8], nonce: &[u8]) -> (r: Result<Vec<u8>, MeshError>)
        ensures
            nonce@.len() != 12 <==> (r matches Err(e) && e is Peer && e.spec_message()
                == "Nonce must be 12 bytes"@),
            nonce@.len() == 12 && key@.len() != 32 ==> (r matches Err(e) && e is Peer),
            r matches Ok(ct) ==> key@.len() == 32 && nonce@.len() == 12 && ct@ == aes_seal(
                key@,
                nonce@,
                data@,
            ) && aes_open(key@, nonce@, ct@) == Some(data@),
    {
        proof {
            reveal_strlit("Nonce must be 12 bytes");
            reveal_strlit("Key must be 32 bytes");
            reveal_strlit("AES encryption failed");
            assert("Nonce must be 12 bytes"@.len() == 22);
            assert("Key must be 32 bytes"@.len() == 20);
            assert("AES encryption failed"@.len() == 21);
        }
        if nonce.len() != 12 {
            return Err(MeshError::Peer(String::from_str("Nonce must be 12 bytes")));
        }
        if key.len() != 32 {
            return Err(MeshError::Peer(String::from_str("Key must be 32 bytes")));
        }
        Self::encrypt_aes_raw(data, key, nonce)
    }

    /// Decrypt a message with AES-256-GCM. A nonce of any length other
    /// than twelve bytes is refused, as is a key of any length other than
    /// thirty-two; otherwise success and value are exactly the pure
    /// opening's.
    pub fn decrypt_aes(encrypted: &[u8], key: &[u8], nonce: &[u8]) -> (r: Result<
        Vec<u8>,
        MeshError,
    >)
        ensures
            nonce@.len() != 12 <==> (r matches Err(e) && e is Peer && e.spec_message()
                == "Nonce must be 12 bytes"@),
            nonce@.len() == 12 && key@.len() != 32 ==> (r matches Err(e) && e is Peer),
            key@.len() == 32 && nonce@.len() == 12 ==> {
                &&& (r is Ok <==> aes_open(key@, nonce@, encrypted@) is Some)
                &&& (r matches Ok(pt) ==> aes_open(key@, nonce@, encrypted@) == Some(pt@))
            },
            r matches Err(e) ==> e is Peer,
    {
        proof {
            reveal_strlit("Nonce must be 12 bytes");
            reveal_strlit("Key must be 32 bytes");
            reveal_strlit("AES decryption failed");
            assert("Nonce must be 12 bytes"@.len() == 22);
            assert("Key must be 32 bytes"@.len() == 20);
            assert("AES decryption failed"@.len() == 21);
        }
        if nonce.len() != 12 {
            return Err(MeshError::Peer(String::from_str("Nonce must be 12 bytes")));
        }
        if key.len() != 32 {
            return Err(MeshError::Peer(String::from_str("Key must be 32 bytes")));
        }
        Self::decrypt_aes_raw(encrypted, key, nonce)
    }

    /// Hybrid encryption: a fresh AES key seals the data, and the peer's
    /// RSA key seals the AES key.
    pub fn hybrid_encrypt(&self, data: &[u8], peer_public_key: &rsa::RsaPublicKey) -> (r: Result<
        EncryptedMessage,
        MeshError,
    >)
        ensures
            r matches Ok(em) ==> em.nonce@.len() == 12 && (exists|k: Seq<u8>|
                aes_open(k, em.nonce@, em.encrypted_data@) == Some(data@)),
    {
        let (aes_key, nonce) = Self::generate_session_key();
        let encrypted_data = match Self::encrypt_aes_raw(data, aes_key.as_slice(), nonce.as_slice()) {
            Ok(ct) => ct,
            Err(e) => { return Err(e); },
        };
        let encrypted_key = match self.encrypt_with_public_key(aes_key.as_slice(), peer_public_key)
            {
            Ok(ek) => ek,
            Err(e) => { return Err(e); },
        };
        let em = EncryptedMessage { encrypted_key, nonce, encrypted_data };
        proof {
            assert(aes_open(aes_key@, em.nonce@, em.encrypted_data@) == Some(data@));
        }
        Ok(em)
    }

    /// Hybrid decryption: this node's RSA key recovers the AES key, which
    /// opens the data.
    pub fn hybrid_decrypt(&self, encrypted: &EncryptedMessage) -> (r: Result<Vec<u8>, MeshError>)
        ensures
            r matches Ok(pt) ==> exists|k: Seq<u8>|
                aes_open(k, encrypted.nonce@, encrypted.encrypted_data@) == Some(pt@),
            encrypted.nonce@.len() != 12 ==> (r matches Err(e) && e is Peer),
            r matches Ok(pt) ==> encrypted.nonce@.len() == 12,
    {
        let aes_key = match self.decrypt_with_private_key(encrypted.encrypted_key.as_slice()) {
            Ok(k) => k,
            Err(e) => { return Err(e); },
        };
        if aes_key.len() != 32 {
            return Err(MeshError::Peer(String::from_str("recovered session key is malformed")));
        }
        if encrypted.nonce.len() != 12 {
            return Err(MeshError::Peer(String::from_str("nonce must be 12 bytes")));
        }
        Self::decrypt_aes_raw(
            encrypted.encrypted_data.as_slice(),
            aes_key.as_slice(),
            encrypted.nonce.as_slice(),
        )
    }
}

/// Relies on rand's OsRng: a fresh random 12-byte nonce for one frame.
/// A nonce must never repeat under one AES-GCM key; drawing one per frame
/// keeps that.
#[verifier::external_body]
pub fn fresh_nonce() -> (r: Vec<u8>)
    ensures
        r@.len() == 12,
{
    let mut nonce = vec![0u8; 12];
    rand::rngs::OsRng.fill_bytes(&mut nonce);
    nonce
}

/// Seal one outbound message into a frame. With a session key the payload
/// is the given fresh nonce followed by the AES-GCM ciphertext of the
/// serialized message (falling back to plaintext only if the cipher
/// refuses); without one, the plaintext serialization. Fails only when the
/// frame would outgrow its length prefix.
pub fn seal_message_frame(
    message: &crate::protocol::Message,
    session: Option<&SessionKey>,
    nonce: Vec<u8>,
) -> (r: Result<crate::protocol::Frame, MeshError>)
    requires
        nonce@.len() == 12,
    ensures
        r matches Ok(f) ==> f.wf(),
        (match session {
            None => true,
            Some(sk) => sk.key@.len() != 32,
        }) ==> (r matches Ok(f) ==> !f.is_encrypted && f.payload@ == crate::protocol::enc_message(
            message@,
        )),
        (match session {
            Some(sk) => sk.key@.len() == 32 ==> (r matches Ok(f) ==> ((f.is_encrypted
                && f.payload@ == nonce@ + aes_seal(
                sk.key@,
                nonce@,
                crate::protocol::enc_message(message@),
            ) && aes_open(sk.key@, nonce@, aes_seal(
                sk.key@,
                nonce@,
                crate::protocol::enc_message(message@),
            )) == Some(crate::protocol::enc_message(message@))) || (!f.is_encrypted && f.payload@
                == crate::protocol::enc_message(message@)))),
            None => true,
        }),
        r matches Err(e) ==> e is Protocol,
{
    match session {
        Some(sk) if sk.key.len() == 32 => {
            let plain = match message.to_bytes() {
                Ok(p) => p,
                Err(_) => {
                    return Err(MeshError::Protocol(String::from_str("unencodable message")));
                },
            };
            match EncryptionManager::encrypt_aes_raw(
                plain.as_slice(),
                sk.key.as_slice(),
                nonce.as_slice(),
            ) {
                Ok(ct) => {
                    if ct.len() > u32::MAX as usize - 12 {
                        return Err(MeshError::Protocol(String::from_str("frame too large")));
                    }
                    Ok(crate::protocol::Frame::from_encrypted(nonce.as_slice(), ct.as_slice()))
                },
                Err(_) => crate::protocol::Frame::from_message(message),
            }
        },
        _ => crate::protocol::Frame::from_message(message),
    }
}

/// Open one inbound frame payload. With a session key and at least a
/// nonce's worth of bytes, the first twelve bytes are taken as the nonce
/// and the rest opened under the key; when opening fails or no key exists,
/// the payload is parsed as plaintext — the robustness fallback around the
/// handshake window.
pub fn open_frame_payload(
    payload: Vec<u8>,
    session: Option<&SessionKey>,
) -> (r: Result<crate::protocol::Message, MeshError>)
    ensures
        ({
            let keyed = match session {
                Some(sk) => sk.key@.len() == 32 && payload@.len() >= 12,
                None => false,
            };
            let nonce = payload@.subrange(0, 12);
            let ct = payload@.subrange(12, payload@.len() as int);
            &&& (keyed && (match session {
                Some(sk) => aes_open(sk.key@, nonce, ct) is Some,
                None => false,
            })) ==> (match session {
                Some(sk) => {
                    let pt = aes_open(sk.key@, nonce, ct)->0;
                    &&& (r matches Ok(m) ==> crate::protocol::sdec_message_full(pt) == Some(m@))
                    &&& (r is Err ==> crate::protocol::sdec_message_full(pt) is None)
                },
                None => true,
            })
            &&& (keyed && (match session {
                Some(sk) => aes_open(sk.key@, nonce, ct) is None,
                None => false,
            }) || !keyed) ==> ((r matches Ok(m) ==> crate::protocol::sdec_message_full(payload@)
                == Some(m@)) && (r is Err ==> crate::protocol::sdec_message_full(payload@)
                is None))
        }),
        r matches Err(e) ==> e is Serialization,
{
    let ghost orig = payload@;
    match session {
        Some(sk) if sk.key.len() == 32 && payload.len() >= 12 => {
            let mut nonce_part = payload;
            let ct = nonce_part.split_off(12);
            proof {
                assert(nonce_part@.len() == 12);
            }
            match EncryptionManager::decrypt_aes_raw(
                ct.as_slice(),
                sk.key.as_slice(),
                nonce_part.as_slice(),
            ) {
                Ok(pt) => crate::protocol::Message::from_bytes(pt.as_slice()),
                Err(_) => {
                    let mut whole = nonce_part;
                    let mut tail = ct;
                    whole.append(&mut tail);
                    proof {
                        assert(whole@ =~= orig);
                    }
                    crate::protocol::Message::from_bytes(whole.as_slice())
                },
            }
        },
        _ => crate::protocol::Message::from_bytes(payload.as_slice()),
    }
}

// ---------------------------------------------------------------------------
// the hybrid envelope
// ---------------------------------------------------------------------------

/// An RSA-sealed AES key, the nonce, and AES-sealed data.
#[derive(Debug, Clone, PartialEq, Eq)]
pub struct EncryptedMessage {
    /// AES key encrypted under the recipient's RSA key.
    pub encrypted_key: Vec<u8>,
    /// AES nonce.
    pub nonce: Vec<u8>,
    /// Data encrypted under the AES key.
    pub encrypted_data: Vec<u8>,
}

/// The byte-exact encoding of the envelope: its three byte strings,
/// length-prefixed, in order.
pub open spec fn enc_encrypted_message(k: Seq<u8>, n: Seq<u8>, d: Seq<u8>) -> Seq<u8> {
    enc_bytes(k) + (enc_bytes(n) + enc_bytes(d))
}

/// The deterministic whole-buffer parse of the envelope.
pub open spec fn sdec_encrypted_message(buf: Seq<u8>) -> Option<(Seq<u8>, Seq<u8>, Seq<u8>)> {
    match sdec_bytes(buf, 0) {
        None => None,
        Some((k, i1)) => match sdec_bytes(buf, i1) {
            None => None,
            Some((n, i2)) => match sdec_bytes(buf, i2) {
                None => None,
                Some((d, i3)) => if i3 == buf.len() {
                    Some((k, n, d))
                } else {
                    None
                },
            },
        },
    }
}

impl EncryptedMessage {
    /// Serialize the envelope; the bytes are exactly its encoding.
    pub fn to_bytes(&self) -> (r: Vec<u8>)
        ensures
            r@ == enc_encrypted_message(self.encrypted_key@, self.nonce@, self.encrypted_data@),
    {
        let mut out: Vec<u8> = Vec::new();
        write_bytes(&mut out, self.encrypted_key.as_slice());
        write_bytes(&mut out, self.nonce.as_slice());
        write_bytes(&mut out, self.encrypted_data.as_slice());
        proof {
            assert(out@ =~= enc_encrypted_message(
                self.encrypted_key@,
                self.nonce@,
                self.encrypted_data@,
            ));
        }
        out
    }

    /// Parse an envelope; the outcome is the deterministic whole-buffer
    /// parse of the input.
    pub fn from_bytes(data: &[u8]) -> (r: Result<EncryptedMessage, MeshError>)
        ensures
            r matches Ok(em) ==> sdec_encrypted_message(data@) == Some(
                (em.encrypted_key@, em.nonce@, em.encrypted_data@),
            ),
            r is Err ==> sdec_encrypted_message(data@) is None,
            r matches Err(e) ==> e is Serialization,
    {
        let err: MeshError = MeshError::Serialization(
            String::from_str("invalid encrypted message"),
        );
        let (encrypted_key, i1) = match read_bytes(data, 0) {
            None => { return Err(err); },
            Some(p) => p,
        };
        let (nonce, i2) = match read_bytes(data, i1) {
            None => { return Err(err); },
            Some(p) => p,
        };
        let (encrypted_data, i3) = match read_bytes(data, i2) {
            None => { return Err(err); },
            Some(p) => p,
        };
        if i3 != data.len() {
            return Err(err);
        }
        Ok(EncryptedMessage { encrypted_key, nonce, encrypted_data })
    }
}

/// Envelope write then read yields the three byte strings back.
#[verifier::rlimit(100)]
#[verifier::spinoff_prover]
pub proof fn lemma_encrypted_message_round_trip(k: Seq<u8>, n: Seq<u8>, d: Seq<u8>)
    requires
        k.len() < 0x10000000000000000,
        n.len() < 0x10000000000000000,
        d.len() < 0x10000000000000000,
    ensures
        sdec_encrypted_message(enc_encrypted_message(k, n, d)) == Some((k, n, d)),
{
    let buf = enc_encrypted_message(k, n, d);
    assert(buf.subrange(0, buf.len() as int) =~= buf);
    lemma_concat_sub(buf, enc_bytes(k), enc_bytes(n) + enc_bytes(d), 0);
    lemma_sdec_bytes_at(buf, 0, k);
    let o1: int = enc_bytes(k).len() as int;
    lemma_concat_sub(buf, enc_bytes(n), enc_bytes(d), o1);
    lemma_sdec_bytes_at(buf, o1, n);
    let o2: int = o1 + enc_bytes(n).len();
    lemma_sdec_bytes_at(buf, o2, d);
}

// ---------------------------------------------------------------------------
// the session-key table
// ---------------------------------------------------------------------------

/// Symmetric key and nonce base for one live connection.
#[derive(Debug, Clone, PartialEq, Eq)]
pub struct SessionKey {
    pub key: Vec<u8>,
    pub nonce: Vec<u8>,
}

/// The first entry for this peer: the key and nonce this node would use
/// with it, as byte sequences.
pub open spec fn session_of(s: Seq<(String, SessionKey)>, peer: Seq<char>) -> Option<(
    Seq<u8>,
    Seq<u8>,
)>
    decreases s.len(),
{
    if s.len() == 0 {
        None
    } else if s[0].0@ == peer {
        Some((s[0].1.key@, s[0].1.nonce@))
    } else {
        session_of(s.drop_first(), peer)
    }
}

/// Session keys per connected peer; a key lives only while its connection
/// does.
pub struct SessionKeyManager {
    pub sessions: Vec<(String, SessionKey)>,
}

impl SessionKeyManager {
    /// Peer ids in the table are unique.
    pub open spec fn wf(&self) -> bool {
        forall|i: int, j: int| 0 <= i < j < self.sessions@.len() ==> (
        #[trigger] self.sessions@[i]).0@ != (#[trigger] self.sessions@[j]).0@
    }

    /// An empty table.
    pub fn new() -> (r: SessionKeyManager)
        ensures
            r.wf(),
            r.sessions@.len() == 0,
    {
        SessionKeyManager { sessions: Vec::new() }
    }

    /// Install the session key agreed with a peer; any earlier key for the
    /// same peer is replaced, and no other entry moves.
    pub fn set_session_key(&mut self, peer_id: String, key: Vec<u8>, nonce: Vec<u8>)
        requires
            old(self).wf(),
        ensures
            final(self).wf(),
            session_of(final(self).sessions@, peer_id@) == Some((key@, nonce@)),
            forall|p: Seq<char>| p != peer_id@ ==> #[trigger] session_of(
                final(self).sessions@,
                p,
            ) == session_of(old(self).sessions@, p),
    {
        self.remove_session_key(peer_id.as_str());
        let ghost mid = self.sessions@;
        let entry = (peer_id, SessionKey { key, nonce });
        let ghost pid = entry.0@;
        self.sessions.push(entry);
        proof {
            assert(self.sessions@ =~= mid.push((self.sessions@.last().0, self.sessions@.last().1)));
            assert forall|p: Seq<char>| true implies #[trigger] session_of(self.sessions@, p) == (
            match session_of(mid, p) {
                Some(t) => Some(t),
                None => if pid == p {
                    Some((self.sessions@.last().1.key@, self.sessions@.last().1.nonce@))
                } else {
                    None
                },
            }) by {
                lemma_session_push(mid, p, (self.sessions@.last().0, self.sessions@.last().1));
            }
            lemma_session_none_absent(mid, pid);
            assert forall|i: int, j: int| 0 <= i < j < self.sessions@.len() implies (
            #[trigger] self.sessions@[i]).0@ != (#[trigger] self.sessions@[j]).0@ by {
                if j == self.sessions@.len() - 1 {
                    assert(self.sessions@[i] == mid[i]);
                }
            }
        }
    }

    /// The session key for a peer, when a connection holds one.
    pub fn get_session_key(&self, peer_id: &str) -> (r: Option<SessionKey>)
        ensures
            r is Some <==> session_of(self.sessions@, peer_id@) is Some,
            r matches Some(sk) ==> session_of(self.sessions@, peer_id@) == Some(
                (sk.key@, sk.nonce@),
            ),
    {
        let mid: String = peer_id.to_owned();
        let mut k: usize = 0;
        let n = self.sessions.len();
        proof {
            assert(self.sessions@.subrange(0, n as int) =~= self.sessions@);
        }
        while k < n
            invariant
                k <= n,
                n == self.sessions@.len(),
                mid@ == peer_id@,
                session_of(self.sessions@, peer_id@) == session_of(
                    self.sessions@.subrange(k as int, n as int),
                    peer_id@,
                ),
            decreases n - k,
        {
            proof {
                assert(self.sessions@.subrange(k as int, n as int)[0] == self.sessions@[k as int]);
                assert(self.sessions@.subrange(k as int, n as int).drop_first()
                    =~= self.sessions@.subrange(k + 1 as int, n as int));
            }
            if self.sessions[k].0 == mid {
                let ck = self.sessions[k].1.key.clone();
                let cn = self.sessions[k].1.nonce.clone();
                proof {
                    assert(ck@ =~= self.sessions@[k as int].1.key@);
                    assert(cn@ =~= self.sessions@[k as int].1.nonce@);
                }
                return Some(SessionKey { key: ck, nonce: cn });
            }
            k = k + 1;
        }
        proof {
            assert(self.sessions@.subrange(n as int, n as int) =~= Seq::<
                (String, SessionKey)>::empty());
        }
        None
    }

    /// Forget the key for a closed connection: afterwards no key is held
    /// for the peer, and no other entry changes.
    pub fn remove_session_key(&mut self, peer_id: &str)
        requires
            old(self).wf(),
        ensures
            final(self).wf(),
            session_of(final(self).sessions@, peer_id@) is None,
            forall|p: Seq<char>| p != peer_id@ ==> #[trigger] session_of(
                final(self).sessions@,
                p,
            ) == session_of(old(self).sessions@, p),
    {
        let mid: String = peer_id.to_owned();
        let mut kept: Vec<(String, SessionKey)> = Vec::new();
        let n = self.sessions.len();
        let mut k: usize = 0;
        proof {
            assert(self.sessions@.subrange(0, 0) =~= Seq::<(String, SessionKey)>::empty());
        }
        while k < n
            invariant
                k <= n,
                n == self.sessions@.len(),
                old(self) == self,
                self.wf(),
                mid@ == peer_id@,
                session_of(kept@, peer_id@) is None,
                forall|i: int, j: int| 0 <= i < j < kept@.len() ==> (#[trigger] kept@[i]).0@ != (
                #[trigger] kept@[j]).0@,
                forall|p: Seq<char>| p != peer_id@ ==> #[trigger] session_of(kept@, p)
                    == session_of(self.sessions@.subrange(0, k as int), p),
            decreases n - k,
        {
            let entry = (
                self.sessions[k].0.clone(),
                SessionKey {
                    key: self.sessions[k].1.key.clone(),
                    nonce: self.sessions[k].1.nonce.clone(),
                },
            );
            let ghost eidv = entry.0@;
            let ghost prefix = self.sessions@.subrange(0, k as int);
            proof {
                assert(entry.1.key@ =~= self.sessions@[k as int].1.key@);
                assert(entry.1.nonce@ =~= self.sessions@[k as int].1.nonce@);
                assert(self.sessions@.subrange(0, k + 1 as int) =~= prefix.push(
                    self.sessions@[k as int],
                ));
                if session_of(prefix, eidv) is Some {
                    lemma_session_some_present(prefix, eidv);
                    let w = choose|w: int| 0 <= w < prefix.len() && (#[trigger] prefix[w]).0@
                        == eidv;
                    assert(self.sessions@[w].0@ == eidv);
                    assert(false);
                }
                assert forall|p: Seq<char>| true implies #[trigger] session_of(
                    self.sessions@.subrange(0, k + 1 as int),
                    p,
                ) == (match session_of(prefix, p) {
                    Some(t) => Some(t),
                    None => if eidv == p {
                        Some((self.sessions@[k as int].1.key@, self.sessions@[k as int].1.nonce@))
                    } else {
                        None
                    },
                }) by {
                    lemma_session_push(prefix, p, self.sessions@[k as int]);
                }
            }
            if !(entry.0 == mid) {
                let ghost prevk = kept@;
                kept.push(entry);
                proof {
                    assert(kept@ =~= prevk.push((kept@.last().0, kept@.last().1)));
                    assert(kept@.last().0@ == eidv && kept@.last().1.key@
                        == self.sessions@[k as int].1.key@ && kept@.last().1.nonce@
                        == self.sessions@[k as int].1.nonce@);
                    assert forall|p: Seq<char>| true implies #[trigger] session_of(kept@, p) == (
                    match session_of(prevk, p) {
                        Some(t) => Some(t),
                        None => if eidv == p {
                            Some((kept@.last().1.key@, kept@.last().1.nonce@))
                        } else {
                            None
                        },
                    }) by {
                        lemma_session_push(prevk, p, (kept@.last().0, kept@.last().1));
                    }
                    lemma_session_none_absent(prevk, eidv);
                    assert(forall|i: int| 0 <= i < prevk.len() ==> kept@[i] == prevk[i]);
                    assert forall|i: int, j: int| 0 <= i < j < kept@.len() implies (
                    #[trigger] kept@[i]).0@ != (#[trigger] kept@[j]).0@ by {
                        if j == kept@.len() - 1 {
                            assert(kept@[j].0@ == eidv);
                        }
                    }
                }
            }
            k = k + 1;
        }
        proof {
            assert(self.sessions@.subrange(0, n as int) =~= self.sessions@);
        }
        self.sessions = kept;
    }
}

proof fn lemma_session_push(s: Seq<(String, SessionKey)>, id: Seq<char>, e: (String, SessionKey))
    ensures
        session_of(s.push(e), id) == (match session_of(s, id) {
            Some(t) => Some(t),
            None => if e.0@ == id {
                Some((e.1.key@, e.1.nonce@))
            } else {
                None
            },
        }),
    decreases s.len(),
{
    let sp = s.push(e);
    if s.len() == 0 {
        assert(sp[0] == e);
        if e.0@ == id {
            assert(session_of(sp, id) == Some((e.1.key@, e.1.nonce@)));
        } else {
            assert(sp.drop_first() =~= Seq::<(String, SessionKey)>::empty());
            assert(session_of(sp.drop_first(), id) is None);
            assert(session_of(sp, id) is None);
        }
    } else {
        assert(sp[0] == s[0]);
        assert(sp.drop_first() =~= s.drop_first().push(e));
        lemma_session_push(s.drop_first(), id, e);
    }
}

proof fn lemma_session_none_absent(s: Seq<(String, SessionKey)>, id: Seq<char>)
    requires
        session_of(s, id) is None,
    ensures
        forall|i: int| 0 <= i < s.len() ==> (#[trigger] s[i]).0@ != id,
    decreases s.len(),
{
    if s.len() > 0 {
        lemma_session_none_absent(s.drop_first(), id);
        assert(forall|i: int| 1 <= i < s.len() ==> s[i] == s.drop_first()[i - 1]);
    }
}

proof fn lemma_session_some_present(s: Seq<(String, SessionKey)>, id: Seq<char>)
    requires
        session_of(s, id) is Some,
    ensures
        exists|i: int| 0 <= i < s.len() && (#[trigger] s[i]).0@ == id,
    decreases s.len(),
{
    if s.len() > 0 {
        if s[0].0@ == id {
        } else {
            lemma_session_some_present(s.drop_first(), id);
            let w = choose|i: int| 0 <= i < s.drop_first().len() && (#[trigger] s.drop_first()[i]).0@
                == id;
            assert(s[w + 1].0@ == id);
        }
    }
}

// ---------------------------------------------------------------------------
// post-quantum key encapsulation
// ---------------------------------------------------------------------------

/// Post-quantum encryption manager holding an ML-KEM-768 key pair as raw
/// bytes.
pub struct PqcEncryptionManager {
    /// ML-KEM-768 public key.
    pub public_key: Vec<u8>,
    /// ML-KEM-768 secret key.
    pub secret_key: Vec<u8>,
}

impl PqcEncryptionManager {
    /// Relies on pqcrypto_kyber's kyber768::keypair: a fresh key pair with
    /// the standard ML-KEM-768 sizes.
    #[verifier::external_body]
    pub fn new() -> (r: Result<PqcEncryptionManager, MeshError>)
        ensures
            r matches Ok(m) ==> m.public_key@.len() == 1184 && m.secret_key@.len() == 2400,
    {
        let (public_key, secret_key) = pqcrypto_kyber::kyber768::keypair();
        Ok(PqcEncryptionManager {
            public_key: public_key.as_bytes().to_vec(),
            secret_key: secret_key.as_bytes().to_vec(),
        })
    }

    /// The public key printed in base64.
    pub fn get_public_key_string(&self) -> (r: String)
        ensures
            r@ == base64_of(self.public_key@),
    {
        base64_encode(self.public_key.as_slice())
    }

    /// Parse a base64-printed public key.
    pub fn parse_public_key(encoded: &str) -> (r: Result<Vec<u8>, MeshError>)
        ensures
            r matches Ok(d) ==> base64_of(d@) == encoded@,
    {
        base64_decode(encoded)
    }

    /// Relies on pqcrypto_kyber's kyber768::encapsulate: a fresh shared
    /// secret and the ciphertext that carries it, with the standard sizes.
    #[verifier::external_body]
    pub fn encapsulate(peer_public_key: &[u8]) -> (r: Result<(Vec<u8>, Vec<u8>), MeshError>)
        ensures
            r matches Ok(p) ==> p.0@.len() == 32 && p.1@.len() == 1088,
    {
        let pk = <pqcrypto_kyber::kyber768::PublicKey as pqcrypto_traits::kem::PublicKey>::from_bytes(
            peer_public_key,
        ).map_err(|_| MeshError::Peer("Invalid Kyber768 public key".to_string()))?;
        let (ss, ct) = pqcrypto_kyber::kyber768::encapsulate(&pk);
        Ok((ss.as_bytes().to_vec(), ct.as_bytes().to_vec()))
    }

    /// Relies on pqcrypto_kyber's kyber768::decapsulate: recovers a 32-byte
    /// shared secret from a well-formed ciphertext.
    #[verifier::external_body]
    pub fn decapsulate(&self, ciphertext: &[u8]) -> (r: Result<Vec<u8>, MeshError>)
        ensures
            r matches Ok(ss) ==> ss@.len() == 32,
    {
        let ct = <pqcrypto_kyber::kyber768::Ciphertext as pqcrypto_traits::kem::Ciphertext>::from_bytes(
            ciphertext,
        ).map_err(|_| MeshError::Peer("Invalid Kyber768 ciphertext".to_string()))?;
        let sk = <pqcrypto_kyber::kyber768::SecretKey as pqcrypto_traits::kem::SecretKey>::from_bytes(
            self.secret_key.as_slice(),
        ).map_err(|_| MeshError::Peer("Invalid Kyber768 secret key".to_string()))?;
        let ss = pqcrypto_kyber::kyber768::decapsulate(&ct, &sk);
        Ok(ss.as_bytes().to_vec())
    }
}

/// Whether the post-quantum key exchange is built into this node.
pub fn is_pqc_available() -> (r: bool)
    ensures
        r == true,
{
    true
}

} // verus!
