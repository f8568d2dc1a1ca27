//! Keys of the iroh network: parsing the server's node id given by the user, parsing
//! the server's saved secret key, and the text the secret key is saved as.
use vstd::prelude::*;
use crate::text::{hex_encode, hex_chars, hex_decode, is_lower_hex_digit, lemma_hex_chars_lower, lemma_hex_decode_roundtrip};

verus! {

/// An iroh public key; node ids are public keys.
#[verifier::external_type_specification]
#[verifier::external_body]
pub struct ExPublicKey(iroh::PublicKey);

/// An iroh secret key.
#[verifier::external_type_specification]
#[verifier::external_body]
pub struct ExSecretKey(iroh::SecretKey);

/// Why iroh refused a key's text.
#[verifier::external_type_specification]
#[verifier::external_body]
pub struct ExKeyParsingError(iroh::KeyParsingError);

/// Whether iroh's `PublicKey::from_str` accepts a text.
pub uninterp spec fn endpoint_id_text_valid(s: Seq<char>) -> bool;

/// The 32 bytes of the public key iroh's `PublicKey::from_str` reads from a text.
pub uninterp spec fn endpoint_id_bytes_of_text(s: Seq<char>) -> Seq<u8>;

/// Whether iroh's `SecretKey::from_str` accepts a text.
pub uninterp spec fn secret_key_text_valid(s: Seq<char>) -> bool;

/// The 32 bytes of the secret key iroh's `SecretKey::from_str` reads from a text.
pub uninterp spec fn secret_key_bytes_of_text(s: Seq<char>) -> Seq<u8>;

/// Sixty-four lowercase hexadecimal digits: the text of 32 bytes in `HEXLOWER`.
pub open spec fn hex_key_text(s: Seq<char>) -> bool {
    s.len() == 64 && forall|i: int| 0 <= i < s.len() ==> is_lower_hex_digit(#[trigger] s[i])
}

/// Parses a node id, giving the key and its 32 bytes.
///
/// Calls iroh's `PublicKey::from_str`, which decodes 64 characters as `HEXLOWER` and any
/// other text as base32, then keeps the bytes if they are a valid Ed25519 point; the bytes
/// come from `PublicKey::as_bytes`, which gives back the decoded bytes. Trusted to succeed
/// on a set of texts determined by the text alone, with bytes determined by the text alone,
/// and for a text of 64 lowercase hexadecimal digits with the bytes those digits encode.
/// Which texts name a valid point is not stated.
#[verifier::external_body]
fn endpoint_id_from_str(s: &str) -> (r: Result<(iroh::PublicKey, [u8; 32]), iroh::KeyParsingError>)
    ensures
        r is Ok <==> endpoint_id_text_valid(s@),
        r matches Ok(p) ==> p.1@ == endpoint_id_bytes_of_text(s@),
        r matches Ok(p) ==> (hex_key_text(s@) ==> p.1@ == hex_decode(s@)),
{
    <iroh::PublicKey as std::str::FromStr>::from_str(s).map(|k| (k, *k.as_bytes()))
}

/// Parses a secret key, giving the key and its 32 bytes.
///
/// Calls iroh's `SecretKey::from_str`, which decodes 64 characters as `HEXLOWER` and any
/// other text as base32 and makes a key of any 32 bytes, then the key's `to_bytes`, which
/// gives those bytes back. Trusted to succeed on a set of texts determined by the text
/// alone, with bytes determined by the text alone; a text of 64 lowercase hexadecimal
/// digits always succeeds, with the bytes those digits encode. The base32 decoding itself
/// is only named.
#[verifier::external_body]
fn secret_key_from_str(s: &str) -> (r: Result<(iroh::SecretKey, [u8; 32]), iroh::KeyParsingError>)
    ensures
        r is Ok <==> secret_key_text_valid(s@),
        r matches Ok(p) ==> p.1@ == secret_key_bytes_of_text(s@),
        r is Err ==> !hex_key_text(s@),
        r matches Ok(p) ==> (hex_key_text(s@) ==> p.1@ == hex_decode(s@)),
{
    <iroh::SecretKey as std::str::FromStr>::from_str(s).map(|k| {
        let bytes = k.to_bytes();
        (k, bytes)
    })
}

/// Why a key's text was refused.
#[derive(Debug, Clone, Copy, PartialEq, Eq, Structural)]
pub enum KeyError {
    /// The server node id given or saved is not a node id.
    InvalidNodeId,
    /// The saved secret key is not a secret key.
    InvalidSecretKey,
}

/// Reads the server's node id from its text: the key, with its 32 bytes.
pub fn parse_server_node_id(raw: &str) -> (r: Result<(iroh::PublicKey, [u8; 32]), KeyError>)
    ensures
        r is Ok <==> endpoint_id_text_valid(raw@),
        r matches Ok(p) ==> p.1@ == endpoint_id_bytes_of_text(raw@),
        r matches Ok(p) ==> (hex_key_text(raw@) ==> p.1@ == hex_decode(raw@)),
        r is Err ==> r == Err::<(iroh::PublicKey, [u8; 32]), KeyError>(KeyError::InvalidNodeId),
{
    match endpoint_id_from_str(raw) {
        Ok(p) => Ok(p),
        Err(_) => Err(KeyError::InvalidNodeId),
    }
}

/// Reads the server's secret key from the text of its key file: the key, with its 32 bytes.
pub fn parse_secret_key(text: &str) -> (r: Result<(iroh::SecretKey, [u8; 32]), KeyError>)
    ensures
        r is Ok <==> secret_key_text_valid(text@),
        r matches Ok(p) ==> p.1@ == secret_key_bytes_of_text(text@),
        hex_key_text(text@) ==> (r matches Ok(p) && p.1@ == hex_decode(text@)),
        r is Err ==> r == Err::<(iroh::SecretKey, [u8; 32]), KeyError>(KeyError::InvalidSecretKey),
{
    match secret_key_from_str(text) {
        Ok(p) => Ok(p),
        Err(_) => Err(KeyError::InvalidSecretKey),
    }
}

/// The text a secret key is saved as: its 32 bytes in lowercase hexadecimal, a text that
/// [`parse_secret_key`] reads back as the same bytes.
pub fn secret_key_text(bytes: &[u8; 32]) -> (text: String)
    ensures
        text@ == hex_chars(bytes@),
        hex_key_text(text@),
        hex_decode(text@) == bytes@,
{
    let text = hex_encode(bytes.as_slice());
    proof { lemma_saved_key_reads_back(bytes@); }
    text
}

/// A saved secret key reads back as the same key: the text its 32 bytes are saved as is
/// one that iroh reads as a hexadecimal key, and it decodes to those bytes.
pub proof fn lemma_saved_key_reads_back(bytes: Seq<u8>)
    requires
        bytes.len() == 32,
    ensures
        hex_key_text(hex_chars(bytes)),
        hex_decode(hex_chars(bytes)) == bytes,
{
    lemma_hex_chars_lower(bytes);
    lemma_hex_decode_roundtrip(bytes);
}

} // verus!
