//! Epoch-bound signing contexts.
//!
//! A [`SigningContext`] is the thing a threshold group actually signs over.
//! Instead of handing the raw application message to a signing package, every
//! signer binds it to the **epoch** the group's shares belong to and to a
//! **manifest hash** committing to the group's membership and policy for that
//! epoch, and signs the canonical encoding of the triple. Each signer recomputes
//! the encoding from values it already holds, so a coordinator cannot silently
//! swap the epoch or the manifest.
//!
//! Resharing preserves the group key, so a signature made with shares from
//! before a rotation is still valid under it. Binding the epoch into the signed
//! bytes closes that gap: a verifier that knows the group is in epoch `n`
//! rebuilds the context with that epoch, and a signature over another epoch's
//! bytes does not verify against it.
//!
//! This works only where the verifier rebuilds the context itself. It does not
//! apply where an external rule fixes the message, such as a transaction
//! sighash: retiring shares there needs a new group key.
use vstd::prelude::*;

use crate::bytes::{
    le_bytes, lemma_byte_bounds, lemma_concat_split, lemma_le_bytes, lemma_le_bytes_injective,
    prefixed, put_len, put_slice, put_u64,
};
use crate::hash::{sha256, sha256_digest};
use crate::text::ascii;

verus! {

/// Domain separation tag for the canonical [`SigningContext`] encoding:
/// `frostito/signing-context/v1`.
pub const SIGNING_CONTEXT_DOMAIN: [u8; 27] = [
    102u8, 114u8, 111u8, 115u8, 116u8, 105u8, 116u8, 111u8, 47u8, 115u8, 105u8, 103u8, 110u8, 105u8,
    110u8, 103u8, 45u8, 99u8, 111u8, 110u8, 116u8, 101u8, 120u8, 116u8, 47u8, 118u8, 49u8,
];

/// A message bound to the epoch and manifest it was authorized under.
#[derive(Clone, Copy, Debug, PartialEq, Eq)]
pub struct SigningContext<'a> {
    /// Reshare epoch the signing shares belong to.
    pub epoch: u64,
    /// Hash committing to the group manifest in force for `epoch`.
    pub manifest_hash: [u8; 32],
    /// The application message being authorized.
    pub message: &'a [u8],
}

/// The canonical encoding of a context: the domain preceded by its length, the
/// epoch in eight bytes, the manifest hash, and the message preceded by its
/// length.
pub open spec fn context_bytes(epoch: u64, manifest_hash: Seq<u8>, message: Seq<u8>) -> Seq<u8> {
    prefixed(SIGNING_CONTEXT_DOMAIN@) + (le_bytes(epoch as int, 8) + (manifest_hash + prefixed(
        message,
    )))
}

impl<'a> SigningContext<'a> {
    /// The bytes the group signs.
    pub open spec fn encoding(&self) -> Seq<u8> {
        context_bytes(self.epoch, self.manifest_hash@, self.message@)
    }

    /// Binds `message` to `epoch` and `manifest_hash`.
    pub fn new(epoch: u64, manifest_hash: [u8; 32], message: &'a [u8]) -> (r: Self)
        ensures
            r.epoch == epoch,
            r.manifest_hash == manifest_hash,
            r.message == message,
    {
        SigningContext { epoch, manifest_hash, message }
    }

    /// Canonical encoding, the bytes the group signs.
    ///
    /// Every variable-length field is length-prefixed, so distinct contexts
    /// always have distinct encodings.
    pub fn encode(&self) -> (r: Vec<u8>)
        ensures
            r@ == self.encoding(),
    {
        let mut out: Vec<u8> = Vec::new();
        self.encode_into(&mut out);
        assert(out@ =~= self.encoding());
        out
    }

    /// [`encode`](Self::encode), appending to an existing buffer.
    pub fn encode_into(&self, out: &mut Vec<u8>)
        ensures
            final(out)@ == old(out)@ + self.encoding(),
    {
        let ghost before = out@;
        put_len(out, SIGNING_CONTEXT_DOMAIN.len());
        put_slice(out, &SIGNING_CONTEXT_DOMAIN);
        put_u64(out, self.epoch);
        put_slice(out, &self.manifest_hash);
        put_len(out, self.message.len());
        put_slice(out, self.message);
        assert(out@ =~= before + self.encoding());
    }

    /// SHA-256 of the canonical encoding, for callers that want to log, index or
    /// compare contexts. Sign over [`encode`](Self::encode), not over this.
    pub fn digest(&self) -> (r: [u8; 32])
        ensures
            r@ == sha256_digest(self.encoding()),
    {
        let bytes = self.encode();
        sha256(&bytes)
    }
}

/// The encoding is injective: contexts with one encoding have one epoch, one
/// manifest hash and one message.
pub proof fn law_encoding_injective(
    epoch_a: u64,
    manifest_a: Seq<u8>,
    message_a: Seq<u8>,
    epoch_b: u64,
    manifest_b: Seq<u8>,
    message_b: Seq<u8>,
)
    requires
        manifest_a.len() == 32,
        manifest_b.len() == 32,
        message_a.len() <= u64::MAX,
        message_b.len() <= u64::MAX,
        context_bytes(epoch_a, manifest_a, message_a) == context_bytes(
            epoch_b,
            manifest_b,
            message_b,
        ),
    ensures
        epoch_a == epoch_b,
        manifest_a == manifest_b,
        message_a == message_b,
{
    lemma_byte_bounds();
    let domain = prefixed(SIGNING_CONTEXT_DOMAIN@);
    let (ea, eb) = (le_bytes(epoch_a as int, 8), le_bytes(epoch_b as int, 8));
    let (la, lb) = (
        le_bytes(message_a.len() as int, 8),
        le_bytes(message_b.len() as int, 8),
    );
    lemma_le_bytes(epoch_a as int, 8);
    lemma_le_bytes(epoch_b as int, 8);
    lemma_le_bytes(message_a.len() as int, 8);
    lemma_le_bytes(message_b.len() as int, 8);
    lemma_concat_split(
        domain,
        ea + (manifest_a + (la + message_a)),
        domain,
        eb + (manifest_b + (lb + message_b)),
    );
    lemma_concat_split(
        ea,
        manifest_a + (la + message_a),
        eb,
        manifest_b + (lb + message_b),
    );
    lemma_le_bytes_injective(epoch_a as int, epoch_b as int, 8);
    lemma_concat_split(manifest_a, la + message_a, manifest_b, lb + message_b);
    lemma_concat_split(la, message_a, lb, message_b);
}

/// What a group signs is one context: two contexts are encoded alike exactly where epoch,
/// manifest and message are the same, and so are their digests, where SHA-256 does not
/// collide on the two encodings.
pub proof fn law_encoding_binds_context(
    a: SigningContext<'_>,
    b: SigningContext<'_>,
    bytes_a: Vec<u8>,
    bytes_b: Vec<u8>,
    digest_a: [u8; 32],
    digest_b: [u8; 32],
)
    requires
        a.message@.len() <= u64::MAX,
        b.message@.len() <= u64::MAX,
        call_ensures(SigningContext::encode, (&a,), bytes_a),
        call_ensures(SigningContext::encode, (&b,), bytes_b),
        call_ensures(SigningContext::digest, (&a,), digest_a),
        call_ensures(SigningContext::digest, (&b,), digest_b),
        sha256_digest(bytes_a@) == sha256_digest(bytes_b@) ==> bytes_a@ == bytes_b@,
    ensures
        bytes_a@ == bytes_b@ <==> a.epoch == b.epoch && a.manifest_hash@ == b.manifest_hash@
            && a.message@ == b.message@,
        digest_a@ == digest_b@ <==> a.epoch == b.epoch && a.manifest_hash@ == b.manifest_hash@
            && a.message@ == b.message@,
{
    if bytes_a@ == bytes_b@ {
        law_encoding_injective(
            a.epoch,
            a.manifest_hash@,
            a.message@,
            b.epoch,
            b.manifest_hash@,
            b.message@,
        );
    }
}

/// The domain of the encoding, as text.
pub proof fn law_domain_text()
    ensures
        SIGNING_CONTEXT_DOMAIN@ == ascii("frostito/signing-context/v1"@),
{
    reveal_strlit("frostito/signing-context/v1");
    assert(SIGNING_CONTEXT_DOMAIN@ =~= ascii("frostito/signing-context/v1"@));
}

} // verus!
