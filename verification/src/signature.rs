//! Signatures over byte strings: RSA with a SHA-256 digest, the key given as
//! PEM text.

use openssl::error::ErrorStack;
use openssl::hash::MessageDigest;
use openssl::pkey::PKey;
use openssl::sign::Verifier;
use vstd::prelude::*;

verus! {

/// The longest key text that can be handed to the verifier.
pub const MAX_KEY_TEXT: usize = 0x7fff_ffff;

/// What verification says of a signature over a message under the public key
/// that a PEM text holds: whether the signature matches, or nothing where the
/// key cannot be read or the verifier fails. An encrypted key text is read
/// with the empty pass phrase or not at all.
pub uninterp spec fn signature_verdict(
    key_pem: Seq<u8>,
    message: Seq<u8>,
    signature: Seq<u8>,
) -> Option<bool>;

/// The error that OpenSSL's calls give, carried and never read.
#[verifier::external_type_specification]
#[verifier::external_body]
pub struct ExErrorStack(ErrorStack);

/// The answer to a request for a pass phrase: none, of length zero. The
/// buffer that was offered for it stays as it is.
pub fn no_pass_phrase(buffer: &mut [u8]) -> (r: Result<usize, ErrorStack>)
    ensures
        r matches Ok(n) && n == 0,
        final(buffer)@ == old(buffer)@,
{
    Ok(0)
}

/// Reads the key with `PKey::public_key_from_pem_callback`, feeds the message
/// to a `Verifier` made for SHA-256 and asks it to `verify` the signature. A
/// key text that is encrypted gets `no_pass_phrase` for an answer: nobody is
/// asked for anything, and the text is read with the empty pass phrase or
/// not at all. The verdict depends on the three byte strings alone. A
/// failure of any of the calls gives `None`. The key text may not be longer
/// than `MAX_KEY_TEXT`: the crate refuses to read more.
#[verifier::external_body]
fn verify_with_pem(key_pem: &[u8], message: &[u8], signature: &[u8]) -> (verdict: Option<bool>)
    requires
        key_pem@.len() <= MAX_KEY_TEXT,
    ensures
        verdict == signature_verdict(key_pem@, message@, signature@),
{
    let key = PKey::public_key_from_pem_callback(key_pem, no_pass_phrase).ok()?;
    let mut verifier = Verifier::new(MessageDigest::sha256(), &key).ok()?;
    verifier.update(message).ok()?;
    verifier.verify(signature).ok()
}

/// A signature holds when the key text is short enough to be read and
/// verification says that the signature matches.
pub open spec fn signature_holds(key_pem: Seq<u8>, message: Seq<u8>, signature: Seq<u8>) -> bool {
    &&& key_pem.len() <= MAX_KEY_TEXT
    &&& signature_verdict(key_pem, message, signature) == Some(true)
}

/// Whether the verifier said yes; a no and a failure both count as no.
pub fn accepted(verdict: Option<bool>) -> (ok: bool)
    ensures
        ok == (verdict == Some(true)),
{
    match verdict {
        Some(matches) => matches,
        None => false,
    }
}

/// Whether `signature` is a signature over `data` under the public key in
/// `key_pem`. Anything that keeps the verifier from saying yes counts as no.
pub fn check(key_pem: &[u8], data: &[u8], signature: &[u8]) -> (ok: bool)
    ensures
        ok == signature_holds(key_pem@, data@, signature@),
{
    if key_pem.len() > MAX_KEY_TEXT {
        return false;
    }
    accepted(verify_with_pem(key_pem, data, signature))
}

} // verus!
