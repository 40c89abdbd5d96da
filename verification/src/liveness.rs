//! Liveness proofs for custodian participation.
//!
//! A dealer's contribution to a reshare carries, besides its commitment, a proof
//! that the custodian verified a recent block, and a Schnorr signature that
//! binds the two to a context.
use core::marker::PhantomData;

use rand_core::OsRng;
use vstd::prelude::*;

use crate::bytes::{
    byte_bound, copy_vec, get_array32, get_u32, get_u64, le_bytes, le_value, lemma_byte_bounds,
    lemma_concat_split, lemma_le_bytes, lemma_le_bytes_injective, lemma_prefixed_split, prefixed,
    put_len, put_slice, put_u32, put_u64, slice_to_vec,
};
use crate::curve::{
    decode_scalar, has_encoding, hash_to_scalar, hash_value, law_hash_binds_input,
    lemma_encodings, ord, told_apart, OsstPoint, OsstScalar,
};
use crate::error::OsstError;
use crate::hash::{sha512, sha512_digest};
use crate::hex::{hex_string, hex_text};
use crate::math::{eqm, is_field};
use crate::reshare::{
    commitment_bytes, is_encodable, law_commitment_bytes_injective, CommitmentView,
    DealerCommitment,
};
use crate::schnorr::{
    check, law_response_binds_challenge, law_responses_differ_by_secret, respond,
    schnorr_response,
};
use crate::shamir::base_mul;
use crate::text::{ascii, put_text};

verus! {

/// Domain of the contribution signature's challenge: `osst/liveness-sig/v1`.
pub const LIVENESS_SIG_DOMAIN: [u8; 20] = [
    111u8, 115u8, 115u8, 116u8, 47u8, 108u8, 105u8, 118u8, 101u8, 110u8, 101u8, 115u8, 115u8, 45u8,
    115u8, 105u8, 103u8, 47u8, 118u8, 49u8,
];

/// Domain of the message a contribution signature covers:
/// `osst/contribution-sig/v2`.
pub const CONTRIBUTION_SIG_MSG_DOMAIN: [u8; 24] = [
    111u8, 115u8, 115u8, 116u8, 47u8, 99u8, 111u8, 110u8, 116u8, 114u8, 105u8, 98u8, 117u8, 116u8,
    105u8, 111u8, 110u8, 45u8, 115u8, 105u8, 103u8, 47u8, 118u8, 50u8,
];

// ---------------------------------------------------------------------------
// Checkpoints
// ---------------------------------------------------------------------------

/// A checkpoint anchor: a known-good block that custodians must prove they have
/// verified.
#[derive(Clone, Copy, Debug, PartialEq, Eq)]
pub struct CheckpointAnchor {
    /// Block height.
    pub height: u64,
    /// Block hash.
    pub block_hash: [u8; 32],
    /// Timestamp (unix seconds).
    pub timestamp: u64,
}

/// The encoding of an anchor: the height, the block hash and the timestamp.
pub open spec fn anchor_bytes(height: u64, block_hash: Seq<u8>, timestamp: u64) -> Seq<u8> {
    le_bytes(height as int, 8) + (block_hash + le_bytes(timestamp as int, 8))
}

impl CheckpointAnchor {
    /// An anchor of the given block.
    pub fn new(height: u64, block_hash: [u8; 32], timestamp: u64) -> (r: Self)
        ensures
            r == (CheckpointAnchor { height, block_hash, timestamp }),
    {
        CheckpointAnchor { height, block_hash, timestamp }
    }

    /// The encoding.
    pub open spec fn encoding(&self) -> Seq<u8> {
        anchor_bytes(self.height, self.block_hash@, self.timestamp)
    }

    /// Serializes for hashing and signing.
    pub fn to_bytes(&self) -> (r: [u8; 48])
        ensures
            r@ == self.encoding(),
    {
        let mut v: Vec<u8> = Vec::new();
        put_u64(&mut v, self.height);
        put_slice(&mut v, &self.block_hash);
        put_u64(&mut v, self.timestamp);
        proof {
            lemma_le_bytes(self.height as int, 8);
            lemma_le_bytes(self.timestamp as int, 8);
            assert(v@ =~= self.encoding());
        }
        let mut buf: [u8; 48] = [0u8; 48];
        let mut i: usize = 0;
        while i < 48
            invariant
                i <= 48,
                v@.len() == 48,
                forall|j: int| 0 <= j < i ==> buf@[j] == v@[j],
            decreases 48 - i,
        {
            buf[i] = v[i];
            i += 1;
        }
        assert(buf@ =~= v@);
        buf
    }

    /// Whether the checkpoint is at most `max_age_blocks` behind the current
    /// height. One ahead of it is recent.
    pub fn is_recent(&self, current_height: u64, max_age_blocks: u64) -> (r: bool)
        ensures
            r == is_recent_height(self.height, current_height, max_age_blocks),
    {
        current_height <= self.height || current_height - self.height <= max_age_blocks
    }
}

/// A height is at most an age behind the current one.
pub open spec fn is_recent_height(height: u64, current: u64, max_age: u64) -> bool {
    current <= height + max_age
}

// ---------------------------------------------------------------------------
// Liveness proofs
// ---------------------------------------------------------------------------

/// Proof that a custodian verified a checkpoint block.
#[derive(Debug)]
pub struct LivenessProof {
    /// The checkpoint being attested.
    pub anchor: CheckpointAnchor,
    /// Ligerito proof bytes.
    pub ligerito_proof: Vec<u8>,
    /// The custodian's local state root at this checkpoint.
    pub state_root: [u8; 32],
}

/// What a liveness proof holds.
pub ghost struct LivenessView {
    /// Block height.
    pub height: u64,
    /// Block hash.
    pub block_hash: Seq<u8>,
    /// Timestamp.
    pub timestamp: u64,
    /// Proof bytes.
    pub proof_bytes: Seq<u8>,
    /// State root.
    pub state_root: Seq<u8>,
}

impl View for LivenessProof {
    type V = LivenessView;

    open spec fn view(&self) -> LivenessView {
        LivenessView {
            height: self.anchor.height,
            block_hash: self.anchor.block_hash@,
            timestamp: self.anchor.timestamp,
            proof_bytes: self.ligerito_proof@,
            state_root: self.state_root@,
        }
    }
}

impl Clone for LivenessProof {
    fn clone(&self) -> (r: Self)
        ensures
            r@ == self@,
    {
        LivenessProof {
            anchor: self.anchor,
            ligerito_proof: copy_vec(&self.ligerito_proof),
            state_root: self.state_root,
        }
    }
}

/// The encoding of a liveness proof: the anchor, the low four bytes of the
/// proof's length, the proof, and the state root.
pub open spec fn liveness_bytes(v: LivenessView) -> Seq<u8> {
    anchor_bytes(v.height, v.block_hash, v.timestamp) + (le_bytes(
        v.proof_bytes.len() as int,
        4,
    ) + (v.proof_bytes + v.state_root))
}

/// The liveness proof that `bytes` start with, if they start with one.
pub open spec fn parse_liveness(bytes: Seq<u8>) -> Option<LivenessView> {
    if bytes.len() < 84 {
        None
    } else {
        let len = le_value(bytes.subrange(48, 52));
        if bytes.len() < 52 + len + 32 {
            None
        } else {
            Some(
                LivenessView {
                    height: le_value(bytes.subrange(0, 8)) as u64,
                    block_hash: bytes.subrange(8, 40),
                    timestamp: le_value(bytes.subrange(40, 48)) as u64,
                    proof_bytes: bytes.subrange(52, 52 + len),
                    state_root: bytes.subrange(52 + len, 52 + len + 32),
                },
            )
        }
    }
}

/// The low bytes of a value do not depend on what is above them.
proof fn lemma_low_part(v: int, q: int, len: nat)
    ensures
        le_bytes(v + q * byte_bound(len), len) == le_bytes(v, len),
    decreases len,
{
    if len > 0 {
        let b = byte_bound((len - 1) as nat);
        let w = v + q * byte_bound(len);
        assert(w == v + 256 * (q * b)) by (nonlinear_arith)
            requires
                w == v + q * byte_bound(len),
                byte_bound(len) == 256 * b,
        ;
        assert(w % 256 == v % 256);
        assert(w / 256 == v / 256 + q * b);
        lemma_low_part(v / 256, q, (len - 1) as nat);
    }
}

/// The low four bytes of a length.
proof fn lemma_low_bytes(v: u64)
    ensures
        le_bytes((v as u32) as int, 4) == le_bytes(v as int, 4),
{
    assert((v as u32) as u64 == v % 0x1_0000_0000) by (bit_vector);
    lemma_byte_bounds();
    let q = v as int / 0x1_0000_0000;
    assert(v as int == (v as u32) as int + q * 0x1_0000_0000);
    lemma_low_part((v as u32) as int, q, 4);
}

impl LivenessProof {
    /// A liveness proof of the given parts.
    pub fn new(anchor: CheckpointAnchor, ligerito_proof: Vec<u8>, state_root: [u8; 32]) -> (r: Self)
        ensures
            r.anchor == anchor,
            r.ligerito_proof == ligerito_proof,
            r.state_root == state_root,
    {
        LivenessProof { anchor, ligerito_proof, state_root }
    }

    /// The size of the serialized proof.
    pub fn byte_size(&self) -> (r: usize)
        requires
            self.ligerito_proof@.len() + 84 <= usize::MAX,
        ensures
            r == liveness_bytes(self@).len(),
    {
        proof {
            lemma_le_bytes(self.anchor.height as int, 8);
            lemma_le_bytes(self.anchor.timestamp as int, 8);
            lemma_le_bytes(self.ligerito_proof@.len() as int, 4);
        }
        48 + 4 + self.ligerito_proof.len() + 32
    }

    /// Serializes for storage.
    pub fn to_bytes(&self) -> (r: Vec<u8>)
        ensures
            r@ == liveness_bytes(self@),
    {
        let mut buf: Vec<u8> = Vec::new();
        let anchor = self.anchor.to_bytes();
        put_slice(&mut buf, &anchor);
        put_u32(&mut buf, self.ligerito_proof.len() as u64 as u32);
        put_slice(&mut buf, &self.ligerito_proof);
        put_slice(&mut buf, &self.state_root);
        proof {
            lemma_low_bytes(self.ligerito_proof.len() as u64);
            assert(buf@ =~= liveness_bytes(self@));
        }
        buf
    }

    /// Deserializes; bytes behind the proof are ignored.
    ///
    /// # Errors
    ///
    /// [`OsstError::InvalidCommitment`] if there are too few bytes.
    pub fn from_bytes(bytes: &[u8]) -> (r: Result<Self, OsstError>)
        ensures
            r is Ok <==> parse_liveness(bytes@) is Some,
            r matches Ok(p) ==> parse_liveness(bytes@) == Some(p@),
            r matches Err(e) ==> e == OsstError::InvalidCommitment,
    {
        if bytes.len() < 84 {
            return Err(OsstError::InvalidCommitment);
        }
        let anchor = CheckpointAnchor {
            height: get_u64(bytes, 0),
            block_hash: get_array32(bytes, 8),
            timestamp: get_u64(bytes, 40),
        };
        let proof_len = get_u32(bytes, 48);
        if (bytes.len() as u64) < 84 + proof_len as u64 {
            return Err(OsstError::InvalidCommitment);
        }
        let end: usize = 52 + proof_len as usize;
        let ligerito_proof = slice_to_vec(bytes, 52, end);
        let state_root = get_array32(bytes, end);
        Ok(LivenessProof { anchor, ligerito_proof, state_root })
    }
}

/// What is serialized reads back as what it was, whatever follows it: for a
/// proof whose length fits in four bytes.
pub proof fn law_liveness_round_trip(v: LivenessView, tail: Seq<u8>)
    requires
        v.block_hash.len() == 32,
        v.state_root.len() == 32,
        v.proof_bytes.len() <= u32::MAX,
    ensures
        parse_liveness(liveness_bytes(v) + tail) == Some(v),
{
    lemma_byte_bounds();
    let (h, t) = (le_bytes(v.height as int, 8), le_bytes(v.timestamp as int, 8));
    let n = le_bytes(v.proof_bytes.len() as int, 4);
    lemma_le_bytes(v.height as int, 8);
    lemma_le_bytes(v.timestamp as int, 8);
    lemma_le_bytes(v.proof_bytes.len() as int, 4);
    let b = liveness_bytes(v) + tail;
    let len = v.proof_bytes.len() as int;
    assert(b.subrange(0, 8) =~= h);
    assert(b.subrange(8, 40) =~= v.block_hash);
    assert(b.subrange(40, 48) =~= t);
    assert(b.subrange(48, 52) =~= n);
    assert(b.subrange(52, 52 + len) =~= v.proof_bytes);
    assert(b.subrange(52 + len, 52 + len + 32) =~= v.state_root);
}

// ---------------------------------------------------------------------------
// Contributions
// ---------------------------------------------------------------------------

/// Schnorr signature over a contribution.
pub struct ContributionSignature<P: OsstPoint> {
    /// The nonce commitment `k G`.
    pub r: P,
    /// The response `k + e x`.
    pub s: P::Scalar,
}

impl<P: OsstPoint> Clone for ContributionSignature<P> {
    fn clone(&self) -> (r: Self)
        ensures
            r == *self,
    {
        ContributionSignature { r: self.r, s: self.s }
    }
}

/// The contribution signature that `bytes` encode: the nonce commitment's
/// logarithm and the response.
pub open spec fn parse_signature<P: OsstPoint>(bytes: Seq<u8>) -> Result<(int, int), OsstError> {
    let n = P::COMPRESSED_SIZE as int;
    if bytes.len() != n + 32 {
        Err(OsstError::InvalidCommitment)
    } else {
        match P::decode(bytes.subrange(0, n)) {
            None => Err(OsstError::InvalidCommitment),
            Some(k) => match decode_scalar::<P::Scalar>(bytes.subrange(n, n + 32)) {
                None => Err(OsstError::InvalidResponse),
                Some(s) => Ok((k, s)),
            },
        }
    }
}

/// The abbreviated hexadecimal text of a byte string: all of eight bytes or
/// fewer, otherwise the first and the last four.
pub open spec fn hex_short_text(b: Seq<u8>) -> Seq<char> {
    if b.len() <= 8 {
        hex_text(b)
    } else {
        hex_text(b.subrange(0, 4)) + "..."@ + hex_text(b.subrange(b.len() - 4, b.len() as int))
    }
}

/// The abbreviated hexadecimal text of a byte string.
pub fn hex_short(bytes: &[u8]) -> (r: String)
    ensures
        r@ == hex_short_text(bytes@),
{
    if bytes.len() <= 8 {
        return hex_string(bytes);
    }
    let head = slice_to_vec(bytes, 0, 4);
    let tail = slice_to_vec(bytes, bytes.len() - 4, bytes.len());
    let mut out = hex_string(&head);
    put_text(&mut out, "...");
    let end = hex_string(&tail);
    put_text(&mut out, end.as_str());
    out
}

impl<P: OsstPoint> ContributionSignature<P> {
    /// A signature of the given parts.
    pub fn new(r: P, s: P::Scalar) -> (sig: Self)
        ensures
            sig.r == r,
            sig.s == s,
    {
        ContributionSignature { r, s }
    }

    /// Byte length of the serialized form.
    pub fn byte_size() -> (r: usize)
        ensures
            r == P::COMPRESSED_SIZE + 32,
    {
        proof {
            P::lemma_size();
        }
        P::COMPRESSED_SIZE + 32
    }

    /// Serializes to bytes. What is written reads back as what it was.
    pub fn to_bytes(&self) -> (r: Vec<u8>)
        ensures
            r@ == P::encoding(self.r.log()) + <P::Scalar as OsstScalar>::repr(self.s.val()),
            parse_signature::<P>(r@) == Ok::<(int, int), OsstError>((self.r.log(), self.s.val())),
    {
        let mut buf: Vec<u8> = Vec::new();
        let point = self.r.compress_vec();
        put_slice(&mut buf, &point);
        let scalar = self.s.to_bytes();
        put_slice(&mut buf, &scalar);
        proof {
            let n = P::COMPRESSED_SIZE as int;
            self.s.lemma_val();
            <P::Scalar as OsstScalar>::lemma_repr(self.s.val());
            assert(buf@.subrange(0, n) =~= point@);
            assert(buf@.subrange(n, n + 32) =~= scalar@);
        }
        buf
    }

    /// Deserializes from bytes.
    ///
    /// # Errors
    ///
    /// [`OsstError::InvalidCommitment`] if the length is wrong or the nonce
    /// commitment is no point, [`OsstError::InvalidResponse`] if the response is
    /// not canonical.
    pub fn from_bytes(bytes: &[u8]) -> (r: Result<Self, OsstError>)
        ensures
            r matches Ok(sig) ==> parse_signature::<P>(bytes@) == Ok::<(int, int), OsstError>(
                (sig.r.log(), sig.s.val()),
            ),
            r matches Err(e) ==> parse_signature::<P>(bytes@) == Err::<(int, int), OsstError>(e),
    {
        if bytes.len() != Self::byte_size() {
            return Err(OsstError::InvalidCommitment);
        }
        let n: usize = P::COMPRESSED_SIZE;
        let head = slice_to_vec(bytes, 0, n);
        let r = match P::decompress(&head) {
            Some(p) => p,
            None => return Err(OsstError::InvalidCommitment),
        };
        let tail = get_array32(bytes, n);
        match <P::Scalar as OsstScalar>::from_canonical_bytes(&tail) {
            Some(s) => Ok(ContributionSignature { r, s }),
            None => Err(OsstError::InvalidResponse),
        }
    }

    /// Text for debugging: the nonce commitment abbreviated, the response left
    /// out.
    pub fn debug_text(&self) -> (r: String)
        ensures
            r@ == "ContributionSignature { r: \""@ + hex_short_text(P::encoding(self.r.log()))
                + "\", s: \"[SCALAR]\" }"@,
    {
        let mut out = String::new();
        put_text(&mut out, "ContributionSignature { r: \"");
        let bytes = self.r.compress_vec();
        let short = hex_short(&bytes);
        put_text(&mut out, short.as_str());
        put_text(&mut out, "\", s: \"[SCALAR]\" }");
        out
    }
}

/// Complete dealer contribution for a reshare: the commitment, the liveness
/// proof and the signature that binds them.
pub struct DealerContribution<P: OsstPoint> {
    /// Reshare polynomial commitment.
    pub commitment: DealerCommitment<P>,
    /// Proof of infrastructure participation.
    pub liveness: LivenessProof,
    /// Schnorr signature binding the two.
    pub signature: ContributionSignature<P>,
}

impl<P: OsstPoint> Clone for DealerContribution<P> {
    fn clone(&self) -> (r: Self)
        ensures
            r.commitment@ == self.commitment@,
            r.liveness@ == self.liveness@,
            r.signature == self.signature,
    {
        DealerContribution {
            commitment: self.commitment.clone(),
            liveness: self.liveness.clone(),
            signature: self.signature.clone(),
        }
    }
}

/// The input of the contribution message's hash: the domain, the commitment, the
/// liveness proof and the context, each preceded by its length.
pub open spec fn contribution_input(
    commitment: Seq<u8>,
    liveness: Seq<u8>,
    context: Seq<u8>,
) -> Seq<u8> {
    prefixed(CONTRIBUTION_SIG_MSG_DOMAIN@) + (prefixed(commitment) + (prefixed(liveness)
        + prefixed(context)))
}

/// What the contribution message is a hash of.
pub open spec fn message_input<P: OsstPoint>(
    commitment: CommitmentView,
    liveness: LivenessView,
    context: Seq<u8>,
) -> Seq<u8> {
    contribution_input(commitment_bytes::<P>(commitment), liveness_bytes(liveness), context)
}

/// The message a contribution signature covers.
pub open spec fn contribution_message<P: OsstPoint>(
    commitment: CommitmentView,
    liveness: LivenessView,
    context: Seq<u8>,
) -> Seq<u8> {
    sha512_digest(
        contribution_input(commitment_bytes::<P>(commitment), liveness_bytes(liveness), context),
    )
}

/// What the challenge of a contribution signature is a hash of.
pub open spec fn contribution_challenge_input<P: OsstPoint>(
    r: int,
    public_key: int,
    message: Seq<u8>,
) -> Seq<u8> {
    LIVENESS_SIG_DOMAIN@ + (P::encoding(r) + (P::encoding(public_key) + message))
}

/// The challenge of a contribution signature.
pub open spec fn contribution_challenge<P: OsstPoint>(
    r: int,
    public_key: int,
    message: Seq<u8>,
) -> int {
    hash_value::<P::Scalar>(contribution_challenge_input::<P>(r, public_key, message))
}

/// What a contribution message covers besides the commitment has a length.
pub open spec fn is_sized(liveness: LivenessView, context: Seq<u8>) -> bool {
    &&& liveness.block_hash.len() == 32
    &&& liveness.state_root.len() == 32
    &&& liveness_bytes(liveness).len() <= u64::MAX
    &&& context.len() <= u64::MAX
}

/// What a contribution and its signature consist of has encodings.
pub open spec fn is_bindable<P: OsstPoint>(c: DealerContribution<P>, context: Seq<u8>) -> bool {
    &&& is_encodable::<P>(c.commitment@)
    &&& is_sized(c.liveness@, context)
    &&& has_encoding::<P>(c.signature.r.log())
}

/// A contribution is signed: its response is the one the challenge calls for.
pub open spec fn is_signed<P: OsstPoint>(
    c: DealerContribution<P>,
    public_key: int,
    context: Seq<u8>,
) -> bool {
    c.signature.s.val() == schnorr_response(
        c.signature.r.log(),
        contribution_challenge::<P>(
            c.signature.r.log(),
            public_key,
            contribution_message::<P>(c.commitment@, c.liveness@, context),
        ),
        public_key,
        ord::<P>(),
    )
}

fn put_field(out: &mut Vec<u8>, bytes: &[u8])
    ensures
        final(out)@ == old(out)@ + prefixed(bytes@),
{
    let ghost before = out@;
    put_len(out, bytes.len());
    put_slice(out, bytes);
    assert(out@ =~= before + prefixed(bytes@));
}

impl<P: OsstPoint> DealerContribution<P> {
    /// A contribution of the given parts.
    pub fn new(
        commitment: DealerCommitment<P>,
        liveness: LivenessProof,
        signature: ContributionSignature<P>,
    ) -> (r: Self)
        ensures
            r.commitment == commitment,
            r.liveness == liveness,
            r.signature == signature,
    {
        DealerContribution { commitment, liveness, signature }
    }

    /// The dealer's index.
    pub fn dealer_index(&self) -> (r: u32)
        ensures
            r == self.commitment.dealer_index,
    {
        self.commitment.dealer_index
    }

    /// The message a contribution signature covers: a SHA-512 of the domain, the
    /// commitment, the liveness proof and the context, each preceded by its
    /// length, so that no field can absorb bytes from its neighbour.
    pub fn signing_message(
        commitment: &DealerCommitment<P>,
        liveness: &LivenessProof,
        context: &[u8],
    ) -> (r: [u8; 64])
        ensures
            r@ == contribution_message::<P>(commitment@, liveness@, context@),
            is_encodable::<P>(commitment@),
            is_sized(liveness@, context@),
    {
        let mut input: Vec<u8> = Vec::new();
        put_field(&mut input, &CONTRIBUTION_SIG_MSG_DOMAIN);
        let c = commitment.to_bytes();
        put_field(&mut input, &c);
        let l = liveness.to_bytes();
        put_field(&mut input, &l);
        put_field(&mut input, context);
        assert(l.len() <= u64::MAX && context.len() <= u64::MAX);
        assert(input@ =~= contribution_input(c@, l@, context@));
        sha512(&input)
    }

    /// Signs a contribution with a given nonce, which must be used once.
    pub fn sign_with_nonce(
        commitment: DealerCommitment<P>,
        liveness: LivenessProof,
        secret_key: &P::Scalar,
        context: &[u8],
        nonce: &P::Scalar,
    ) -> (r: Self)
        ensures
            r.commitment == commitment,
            r.liveness == liveness,
            r.signature.r.log() == nonce.val(),
            r.signature.s.val() == schnorr_response(
                nonce.val(),
                contribution_challenge::<P>(
                    nonce.val(),
                    secret_key.val(),
                    contribution_message::<P>(commitment@, liveness@, context@),
                ),
                secret_key.val(),
                ord::<P>(),
            ),
    {
        let message = Self::signing_message(&commitment, &liveness, context);
        let r = base_mul::<P>(nonce);
        let public_key = base_mul::<P>(secret_key);
        let e = Self::challenge_hash(&r, &public_key, &message);
        let s = respond(nonce, &e, secret_key);
        DealerContribution { commitment, liveness, signature: ContributionSignature { r, s } }
    }

    /// Signs a contribution. What is signed verifies under the key's public
    /// point.
    pub fn sign(
        commitment: DealerCommitment<P>,
        liveness: LivenessProof,
        secret_key: &P::Scalar,
        context: &[u8],
        rng: &mut OsRng,
    ) -> (r: Self)
        ensures
            r.commitment == commitment,
            r.liveness == liveness,
            is_signed::<P>(r, secret_key.val(), context@),
    {
        let nonce = <P::Scalar as OsstScalar>::random(rng);
        Self::sign_with_nonce(commitment, liveness, secret_key, context, &nonce)
    }

    /// Verifies the contribution signature.
    pub fn verify_signature(&self, public_key: &P, context: &[u8]) -> (r: bool)
        ensures
            r == is_signed::<P>(*self, public_key.log(), context@),
            is_bindable::<P>(*self, context@),
            has_encoding::<P>(public_key.log()),
    {
        let message = Self::signing_message(&self.commitment, &self.liveness, context);
        let e = Self::challenge_hash(&self.signature.r, public_key, &message);
        check::<P>(&self.signature.s, &self.signature.r, &e, public_key)
    }

    /// Challenge for the contribution signature: a hash of the domain, the nonce
    /// commitment, the key and the message.
    ///
    /// The key is in the hash because otherwise a valid signature under one key
    /// would become one under a related key.
    pub fn challenge_hash(r: &P, public_key: &P, message: &[u8; 64]) -> (e: P::Scalar)
        ensures
            e.val() == contribution_challenge::<P>(r.log(), public_key.log(), message@),
            has_encoding::<P>(r.log()),
            has_encoding::<P>(public_key.log()),
    {
        let mut h: Vec<u8> = Vec::new();
        put_slice(&mut h, &LIVENESS_SIG_DOMAIN);
        let rb = r.compress_vec();
        put_slice(&mut h, &rb);
        let yb = public_key.compress_vec();
        put_slice(&mut h, &yb);
        put_slice(&mut h, message);
        assert(h@ =~= LIVENESS_SIG_DOMAIN@ + (rb@ + (yb@ + message@)));
        hash_to_scalar::<P::Scalar>(&h)
    }

    /// The checks that need no block verifier: that the checkpoint is recent and
    /// the signature valid.
    ///
    /// # Errors
    ///
    /// [`ContributionError::CheckpointTooOld`], then
    /// [`ContributionError::InvalidSignature`].
    pub fn check_signed(
        &self,
        public_key: &P,
        context: &[u8],
        current_height: u64,
        max_age: u64,
    ) -> (r: Result<(), ContributionError>)
        ensures
            r == signed_outcome::<P>(*self, public_key.log(), context@, current_height, max_age),
    {
        if !self.liveness.anchor.is_recent(current_height, max_age) {
            return Err(ContributionError::CheckpointTooOld);
        }
        if !self.verify_signature(public_key, context) {
            return Err(ContributionError::InvalidSignature);
        }
        Ok(())
    }
}

/// The outcome of the checks that need no block verifier.
pub open spec fn signed_outcome<P: OsstPoint>(
    c: DealerContribution<P>,
    public_key: int,
    context: Seq<u8>,
    current_height: u64,
    max_age: u64,
) -> Result<(), ContributionError> {
    if !is_recent_height(c.liveness.anchor.height, current_height, max_age) {
        Err(ContributionError::CheckpointTooOld)
    } else if !is_signed::<P>(c, public_key, context) {
        Err(ContributionError::InvalidSignature)
    } else {
        Ok(())
    }
}

/// The contribution input is injective: equal inputs have one commitment
/// encoding, one liveness encoding and one context.
pub proof fn law_contribution_input_injective(
    commitment_a: Seq<u8>,
    liveness_a: Seq<u8>,
    context_a: Seq<u8>,
    commitment_b: Seq<u8>,
    liveness_b: Seq<u8>,
    context_b: Seq<u8>,
)
    requires
        commitment_a.len() <= u64::MAX,
        liveness_a.len() <= u64::MAX,
        context_a.len() <= u64::MAX,
        commitment_b.len() <= u64::MAX,
        liveness_b.len() <= u64::MAX,
        context_b.len() <= u64::MAX,
        contribution_input(commitment_a, liveness_a, context_a) == contribution_input(
            commitment_b,
            liveness_b,
            context_b,
        ),
    ensures
        commitment_a == commitment_b,
        liveness_a == liveness_b,
        context_a == context_b,
{
    let d = CONTRIBUTION_SIG_MSG_DOMAIN@;
    let (la, lb) = (prefixed(liveness_a) + prefixed(context_a), prefixed(liveness_b) + prefixed(context_b));
    lemma_prefixed_split(d, prefixed(commitment_a) + la, d, prefixed(commitment_b) + lb);
    lemma_prefixed_split(commitment_a, la, commitment_b, lb);
    lemma_prefixed_split(liveness_a, prefixed(context_a), liveness_b, prefixed(context_b));
    assert(prefixed(context_a) + Seq::<u8>::empty() =~= prefixed(context_a));
    assert(prefixed(context_b) + Seq::<u8>::empty() =~= prefixed(context_b));
    lemma_prefixed_split(context_a, Seq::empty(), context_b, Seq::empty());
}

/// Encodings of liveness proofs are the same only for the same proof.
pub proof fn law_liveness_bytes_injective(a: LivenessView, b: LivenessView)
    requires
        a.block_hash.len() == 32,
        a.state_root.len() == 32,
        b.block_hash.len() == 32,
        b.state_root.len() == 32,
        liveness_bytes(a) == liveness_bytes(b),
    ensures
        a == b,
{
    let (ha, hb) = (le_bytes(a.height as int, 8), le_bytes(b.height as int, 8));
    let (ta, tb) = (le_bytes(a.timestamp as int, 8), le_bytes(b.timestamp as int, 8));
    let (la, lb) = (
        le_bytes(a.proof_bytes.len() as int, 4),
        le_bytes(b.proof_bytes.len() as int, 4),
    );
    let (ea, eb) = (a.proof_bytes + a.state_root, b.proof_bytes + b.state_root);
    lemma_byte_bounds();
    lemma_le_bytes(a.height as int, 8);
    lemma_le_bytes(b.height as int, 8);
    lemma_le_bytes(a.timestamp as int, 8);
    lemma_le_bytes(b.timestamp as int, 8);
    lemma_le_bytes(a.proof_bytes.len() as int, 4);
    lemma_le_bytes(b.proof_bytes.len() as int, 4);
    lemma_concat_split(
        anchor_bytes(a.height, a.block_hash, a.timestamp),
        la + ea,
        anchor_bytes(b.height, b.block_hash, b.timestamp),
        lb + eb,
    );
    lemma_concat_split(ha, a.block_hash + ta, hb, b.block_hash + tb);
    lemma_concat_split(a.block_hash, ta, b.block_hash, tb);
    lemma_le_bytes_injective(a.height as int, b.height as int, 8);
    lemma_le_bytes_injective(a.timestamp as int, b.timestamp as int, 8);
    lemma_concat_split(la, ea, lb, eb);
    assert(ea.len() == eb.len());
    lemma_concat_split(a.proof_bytes, a.state_root, b.proof_bytes, b.state_root);
}

/// A signature binds the key: the challenges of one nonce commitment and one
/// message under two keys are hashes of different inputs, unless the keys have
/// one encoding.
pub proof fn law_challenge_binds_key<P: OsstPoint>(
    r: int,
    key_a: int,
    key_b: int,
    message: Seq<u8>,
)
    requires
        LIVENESS_SIG_DOMAIN@ + (P::encoding(r) + (P::encoding(key_a) + message))
            == LIVENESS_SIG_DOMAIN@ + (P::encoding(r) + (P::encoding(key_b) + message)),
    ensures
        P::encoding(key_a) == P::encoding(key_b),
{
    let (ta, tb) = (P::encoding(key_a) + message, P::encoding(key_b) + message);
    lemma_concat_split(
        LIVENESS_SIG_DOMAIN@,
        P::encoding(r) + ta,
        LIVENESS_SIG_DOMAIN@,
        P::encoding(r) + tb,
    );
    lemma_concat_split(P::encoding(r), ta, P::encoding(r), tb);
    assert(ta.len() == tb.len());
    lemma_concat_split(P::encoding(key_a), message, P::encoding(key_b), message);
}

// ---------------------------------------------------------------------------
// Verification against a block verifier
// ---------------------------------------------------------------------------

/// Verifies Ligerito proofs. Implement this to connect to the block verifier in
/// use.
pub trait LivenessVerifier {
    /// Verifies a Ligerito proof for a checkpoint.
    fn verify_ligerito_proof(
        &self,
        anchor: &CheckpointAnchor,
        proof_bytes: &[u8],
        state_root: &[u8; 32],
    ) -> bool;

    /// The current checkpoint anchor.
    fn current_anchor(&self) -> CheckpointAnchor;

    /// Maximum age of valid checkpoints, in blocks.
    fn max_checkpoint_age(&self) -> u64;
}

/// Contribution verification errors.
#[derive(Clone, Copy, Debug, PartialEq, Eq, Structural)]
pub enum ContributionError {
    /// The checkpoint is too old.
    CheckpointTooOld,
    /// The Schnorr signature is invalid.
    InvalidSignature,
    /// The Ligerito proof is invalid.
    InvalidLigerito,
    /// The roster has no key for the dealer.
    IndexMismatch,
}

/// The outcome of a verification, from the checks that need no block verifier
/// and the block verifier's answer.
pub open spec fn concluded(checked: Result<(), ContributionError>, proof_valid: bool) -> Result<
    (),
    ContributionError,
> {
    if checked is Err {
        checked
    } else if !proof_valid {
        Err(ContributionError::InvalidLigerito)
    } else {
        Ok(())
    }
}

/// The outcome of a verification, from the checks that need no block verifier
/// and the block verifier's answer.
pub fn conclude(checked: Result<(), ContributionError>, proof_valid: bool) -> (r: Result<
    (),
    ContributionError,
>)
    ensures
        r == concluded(checked, proof_valid),
{
    match checked {
        Err(e) => Err(e),
        Ok(_) => if proof_valid {
            Ok(())
        } else {
            Err(ContributionError::InvalidLigerito)
        },
    }
}

/// A block verifier gave these answers about a contribution: its current anchor, its
/// maximum age and, where the checkpoint is recent and the signature valid, whether
/// it accepts the proof. The proof is put to it there and nowhere else.
pub open spec fn answered<P: OsstPoint, V: LivenessVerifier>(
    verifier: V,
    c: DealerContribution<P>,
    public_key: int,
    context: Seq<u8>,
    current: CheckpointAnchor,
    max_age: u64,
    proof_valid: bool,
) -> bool {
    &&& call_ensures(V::current_anchor, (&verifier,), current)
    &&& call_ensures(V::max_checkpoint_age, (&verifier,), max_age)
    &&& signed_outcome::<P>(c, public_key, context, current.height, max_age) is Ok ==> exists|
        proof_bytes: &[u8],
    |
        proof_bytes@ == c.liveness.ligerito_proof@ && #[trigger] call_ensures(
            V::verify_ligerito_proof,
            (&verifier, &c.liveness.anchor, proof_bytes, &c.liveness.state_root),
            proof_valid,
        )
}

/// An outcome is the one that the block verifier's answers call for.
pub open spec fn is_outcome<P: OsstPoint, V: LivenessVerifier>(
    verifier: V,
    c: DealerContribution<P>,
    public_key: int,
    context: Seq<u8>,
    r: Result<(), ContributionError>,
) -> bool {
    exists|current: CheckpointAnchor, max_age: u64, proof_valid: bool|
        #[trigger] answered::<P, V>(
            verifier,
            c,
            public_key,
            context,
            current,
            max_age,
            proof_valid,
        ) && r == concluded(
            signed_outcome::<P>(c, public_key, context, current.height, max_age),
            proof_valid,
        )
}

/// An outcome is the one that a roster and the block verifier's answers call for.
pub open spec fn is_keyed_outcome<P: OsstPoint, V: LivenessVerifier>(
    verifier: V,
    c: DealerContribution<P>,
    keys: Seq<(u32, P)>,
    context: Seq<u8>,
    r: Result<(), ContributionError>,
) -> bool {
    match roster_key(keys, c.commitment.dealer_index) {
        None => r == Err::<(), ContributionError>(ContributionError::IndexMismatch),
        Some(key) => is_outcome::<P, V>(verifier, c, key, context, r),
    }
}

/// Several outcomes are those of several contributions.
pub open spec fn are_outcomes<P: OsstPoint, V: LivenessVerifier>(
    verifier: V,
    cs: Seq<DealerContribution<P>>,
    keys: Seq<(u32, P)>,
    context: Seq<u8>,
    outcomes: Seq<Result<(), ContributionError>>,
) -> bool {
    &&& outcomes.len() == cs.len()
    &&& forall|i: int|
        0 <= i < cs.len() ==> is_keyed_outcome::<P, V>(
            verifier,
            cs[i],
            keys,
            context,
            #[trigger] outcomes[i],
        )
}

/// The first key of a dealer.
pub open spec fn roster_key<P: OsstPoint>(keys: Seq<(u32, P)>, dealer: u32) -> Option<int>
    decreases keys.len(),
{
    if keys.len() == 0 {
        None
    } else if keys[0].0 == dealer {
        Some(keys[0].1.log())
    } else {
        roster_key(keys.drop_first(), dealer)
    }
}

/// The first key of a dealer.
fn find_key<P: OsstPoint>(keys: &[(u32, P)], dealer: u32) -> (r: Option<P>)
    ensures
        r is Some <==> roster_key(keys@, dealer) is Some,
        r matches Some(p) ==> roster_key(keys@, dealer) == Some(p.log()),
{
    let mut i: usize = 0;
    assert(keys@.subrange(0, keys@.len() as int) =~= keys@);
    while i < keys.len()
        invariant
            i <= keys@.len(),
            roster_key(keys@, dealer) == roster_key(
                keys@.subrange(i as int, keys@.len() as int),
                dealer,
            ),
        decreases keys@.len() - i,
    {
        let ghost rest = keys@.subrange(i as int, keys@.len() as int);
        assert(rest[0] == keys@[i as int]);
        if keys[i].0 == dealer {
            return Some(keys[i].1);
        }
        assert(rest.drop_first() =~= keys@.subrange(i as int + 1, keys@.len() as int));
        i += 1;
    }
    None
}

/// The positions of successes.
pub open spec fn success_positions(outcomes: Seq<Result<(), ContributionError>>) -> Seq<int>
    decreases outcomes.len(),
{
    if outcomes.len() == 0 {
        Seq::empty()
    } else {
        let rest = success_positions(outcomes.drop_last());
        if outcomes.last() is Ok {
            rest.push(outcomes.len() - 1)
        } else {
            rest
        }
    }
}

/// The positions of successes, ascending.
pub fn valid_positions(outcomes: &[Result<(), ContributionError>]) -> (r: Vec<usize>)
    ensures
        r@.map_values(|p: usize| p as int) == success_positions(outcomes@),
{
    let mut out: Vec<usize> = Vec::new();
    let mut i: usize = 0;
    assert(outcomes@.subrange(0, 0).len() == 0);
    assert(out@.map_values(|p: usize| p as int) =~= Seq::empty());
    while i < outcomes.len()
        invariant
            i <= outcomes@.len(),
            out@.map_values(|p: usize| p as int) == success_positions(
                outcomes@.subrange(0, i as int),
            ),
        decreases outcomes@.len() - i,
    {
        let ghost before = out@.map_values(|p: usize| p as int);
        assert(outcomes@.subrange(0, i as int + 1).drop_last() =~= outcomes@.subrange(0, i as int));
        if outcomes[i].is_ok() {
            out.push(i);
            assert(out@.map_values(|p: usize| p as int) =~= before.push(i as int));
        }
        i += 1;
    }
    assert(outcomes@.subrange(0, i as int) =~= outcomes@);
    out
}

/// A position of a success is one.
proof fn lemma_success_positions(outcomes: Seq<Result<(), ContributionError>>, k: int)
    requires
        0 <= k < success_positions(outcomes).len(),
    ensures
        0 <= success_positions(outcomes)[k] < outcomes.len(),
        outcomes[success_positions(outcomes)[k]] is Ok,
        k > 0 ==> success_positions(outcomes)[k - 1] < success_positions(outcomes)[k],
    decreases outcomes.len(),
{
    let rest = success_positions(outcomes.drop_last());
    if k < rest.len() {
        lemma_success_positions(outcomes.drop_last(), k);
    } else if k > 0 {
        lemma_success_positions(outcomes.drop_last(), k - 1);
    }
}

/// Verifier of contributions against a block verifier.
pub struct ContributionVerifier<'a, P: OsstPoint, V: LivenessVerifier> {
    verifier: &'a V,
    context: &'a [u8],
    _marker: PhantomData<P>,
}

impl<'a, P: OsstPoint, V: LivenessVerifier> ContributionVerifier<'a, P, V> {
    /// The context that signatures must cover.
    pub closed spec fn signed_context(&self) -> Seq<u8> {
        self.context@
    }

    /// The block verifier that is asked.
    pub closed spec fn block_verifier(&self) -> V {
        *self.verifier
    }

    /// A verifier of contributions that cover `context`.
    pub fn new(verifier: &'a V, context: &'a [u8]) -> (r: Self)
        ensures
            r.signed_context() == context@,
            r.block_verifier() == *verifier,
    {
        ContributionVerifier { verifier, context, _marker: PhantomData }
    }

    /// Verifies a single contribution: that its checkpoint is recent, its
    /// signature valid and its proof accepted by the block verifier, which is
    /// asked only where the first two hold.
    ///
    /// # Errors
    ///
    /// [`ContributionError::CheckpointTooOld`],
    /// [`ContributionError::InvalidSignature`] or
    /// [`ContributionError::InvalidLigerito`], in this order.
    pub fn verify(&self, contribution: &DealerContribution<P>, public_key: &P) -> (r: Result<
        (),
        ContributionError,
    >)
        ensures
            is_outcome::<P, V>(
                self.block_verifier(),
                *contribution,
                public_key.log(),
                self.signed_context(),
                r,
            ),
            r is Ok ==> is_signed::<P>(*contribution, public_key.log(), self.signed_context()),
            r matches Err(e) ==> e != ContributionError::IndexMismatch,
            r == Err::<(), ContributionError>(ContributionError::InvalidSignature) ==> !is_signed::<
                P,
            >(*contribution, public_key.log(), self.signed_context()),
            r == Err::<(), ContributionError>(ContributionError::InvalidLigerito) ==> is_signed::<
                P,
            >(*contribution, public_key.log(), self.signed_context()),
    {
        let current = self.verifier.current_anchor();
        let max_age = self.verifier.max_checkpoint_age();
        let checked = contribution.check_signed(public_key, self.context, current.height, max_age);
        let proof_valid = match checked {
            Err(_) => false,
            Ok(_) => self.verifier.verify_ligerito_proof(
                &contribution.liveness.anchor,
                contribution.liveness.ligerito_proof.as_slice(),
                &contribution.liveness.state_root,
            ),
        };
        assert(answered::<P, V>(
            *self.verifier,
            *contribution,
            public_key.log(),
            self.context@,
            current,
            max_age,
            proof_valid,
        ));
        conclude(checked, proof_valid)
    }

    /// Verifies one contribution against a roster keyed by dealer index.
    ///
    /// # Errors
    ///
    /// [`ContributionError::IndexMismatch`] if and only if the roster has no key
    /// for the contribution's dealer; otherwise the errors of
    /// [`verify`](Self::verify).
    pub fn verify_keyed(
        &self,
        contribution: &DealerContribution<P>,
        public_keys: &[(u32, P)],
    ) -> (r: Result<(), ContributionError>)
        ensures
            is_keyed_outcome::<P, V>(
                self.block_verifier(),
                *contribution,
                public_keys@,
                self.signed_context(),
                r,
            ),
            ({
                let key = roster_key(public_keys@, contribution.commitment.dealer_index);
                let signed = is_signed::<P>(*contribution, key->0, self.signed_context());
                &&& r == Err::<(), ContributionError>(ContributionError::IndexMismatch)
                    <==> key is None
                &&& r is Ok ==> signed
                &&& r == Err::<(), ContributionError>(ContributionError::InvalidSignature)
                    ==> !signed
                &&& r == Err::<(), ContributionError>(ContributionError::InvalidLigerito)
                    ==> signed
            }),
    {
        match find_key::<P>(public_keys, contribution.dealer_index()) {
            None => Err(ContributionError::IndexMismatch),
            Some(key) => self.verify(contribution, &key),
        }
    }

    /// Verifies several contributions: the positions of the valid ones, all of them,
    /// ascending. Keys are looked up by dealer index, not by position.
    pub fn verify_batch(
        &self,
        contributions: &[DealerContribution<P>],
        public_keys: &[(u32, P)],
    ) -> (r: Vec<usize>)
        ensures
            exists|outcomes: Seq<Result<(), ContributionError>>|
                #[trigger] are_outcomes::<P, V>(
                    self.block_verifier(),
                    contributions@,
                    public_keys@,
                    self.signed_context(),
                    outcomes,
                ) && r@.map_values(|p: usize| p as int) == success_positions(outcomes),
            forall|k: int|
                0 <= k < r@.len() ==> (#[trigger] r@[k]) < contributions@.len() && is_keyed::<P>(
                    contributions@[r@[k] as int],
                    public_keys@,
                    self.signed_context(),
                ),
            forall|i: int, j: int| 0 <= i < j < r@.len() ==> r@[i] < r@[j],
    {
        let mut outcomes: Vec<Result<(), ContributionError>> = Vec::new();
        let mut i: usize = 0;
        while i < contributions.len()
            invariant
                i <= contributions@.len(),
                outcomes@.len() == i,
                forall|j: int|
                    0 <= j < i ==> is_keyed_outcome::<P, V>(
                        self.block_verifier(),
                        contributions@[j],
                        public_keys@,
                        self.signed_context(),
                        #[trigger] outcomes@[j],
                    ),
                forall|j: int|
                    0 <= j < i ==> (#[trigger] outcomes@[j] is Ok ==> is_keyed::<P>(
                        contributions@[j],
                        public_keys@,
                        self.signed_context(),
                    )),
            decreases contributions@.len() - i,
        {
            outcomes.push(self.verify_keyed(&contributions[i], public_keys));
            i += 1;
        }
        let r = valid_positions(&outcomes);
        proof {
            assert(are_outcomes::<P, V>(
                self.block_verifier(),
                contributions@,
                public_keys@,
                self.signed_context(),
                outcomes@,
            ));
            let s = success_positions(outcomes@);
            let m = r@.map_values(|p: usize| p as int);
            assert forall|k: int| 0 <= k < r@.len() implies (#[trigger] r@[k])
                < contributions@.len() && is_keyed::<P>(
                contributions@[r@[k] as int],
                public_keys@,
                self.signed_context(),
            ) by {
                assert(m[k] == r@[k] as int);
                lemma_success_positions(outcomes@, k);
            }
            assert forall|i: int, j: int| 0 <= i < j < r@.len() implies r@[i] < r@[j] by {
                lemma_positions_ascend(outcomes@, i, j);
                assert(m[i] == r@[i] as int);
                assert(m[j] == r@[j] as int);
            }
        }
        r
    }
}

proof fn lemma_positions_ascend(outcomes: Seq<Result<(), ContributionError>>, i: int, j: int)
    requires
        0 <= i < j < success_positions(outcomes).len(),
    ensures
        success_positions(outcomes)[i] < success_positions(outcomes)[j],
    decreases j,
{
    lemma_success_positions(outcomes, j);
    if i < j - 1 {
        lemma_positions_ascend(outcomes, i, j - 1);
    }
}

/// A contribution is signed by the key that a roster has for its dealer.
pub open spec fn is_keyed<P: OsstPoint>(
    c: DealerContribution<P>,
    keys: Seq<(u32, P)>,
    context: Seq<u8>,
) -> bool {
    roster_key(keys, c.commitment.dealer_index) matches Some(y) && is_signed::<P>(c, y, context)
}

// ---------------------------------------------------------------------------
// Laws
// ---------------------------------------------------------------------------

/// A contribution message covers everything: what it is a hash of is equal for two
/// contributions exactly where the commitment, the whole liveness proof and the context
/// are, and so are the messages, where SHA-512 does not collide on the two.
pub proof fn law_message_covers_contribution<P: OsstPoint>(
    commitment_a: CommitmentView,
    liveness_a: LivenessView,
    context_a: Seq<u8>,
    commitment_b: CommitmentView,
    liveness_b: LivenessView,
    context_b: Seq<u8>,
)
    requires
        is_encodable::<P>(commitment_a),
        is_encodable::<P>(commitment_b),
        is_sized(liveness_a, context_a),
        is_sized(liveness_b, context_b),
    ensures
        message_input::<P>(commitment_a, liveness_a, context_a) == message_input::<P>(
            commitment_b,
            liveness_b,
            context_b,
        ) <==> commitment_a == commitment_b && liveness_a == liveness_b && context_a == context_b,
        (sha512_digest(message_input::<P>(commitment_a, liveness_a, context_a)) == sha512_digest(
            message_input::<P>(commitment_b, liveness_b, context_b),
        ) ==> message_input::<P>(commitment_a, liveness_a, context_a) == message_input::<P>(
            commitment_b,
            liveness_b,
            context_b,
        )) ==> (contribution_message::<P>(commitment_a, liveness_a, context_a)
            == contribution_message::<P>(commitment_b, liveness_b, context_b) <==> commitment_a
            == commitment_b && liveness_a == liveness_b && context_a == context_b),
{
    let (ca, cb) = (commitment_bytes::<P>(commitment_a), commitment_bytes::<P>(commitment_b));
    let (la, lb) = (liveness_bytes(liveness_a), liveness_bytes(liveness_b));
    if message_input::<P>(commitment_a, liveness_a, context_a) == message_input::<P>(
        commitment_b,
        liveness_b,
        context_b,
    ) {
        law_contribution_input_injective(ca, la, context_a, cb, lb, context_b);
        law_commitment_bytes_injective::<P>(commitment_a, commitment_b);
        law_liveness_bytes_injective(liveness_a, liveness_b);
    }
}

/// The challenge of a contribution signature covers the nonce commitment, the key and the
/// message: challenges are equal exactly where these are, where SHA-512 does not collide
/// on their inputs.
pub proof fn law_contribution_challenge_binds<P: OsstPoint>(
    r_a: int,
    key_a: int,
    message_a: Seq<u8>,
    r_b: int,
    key_b: int,
    message_b: Seq<u8>,
)
    requires
        has_encoding::<P>(r_a),
        has_encoding::<P>(key_a),
        has_encoding::<P>(r_b),
        has_encoding::<P>(key_b),
        told_apart::<P::Scalar>(
            contribution_challenge_input::<P>(r_a, key_a, message_a),
            contribution_challenge_input::<P>(r_b, key_b, message_b),
        ),
    ensures
        contribution_challenge::<P>(r_a, key_a, message_a) == contribution_challenge::<P>(
            r_b,
            key_b,
            message_b,
        ) <==> r_a == r_b && key_a == key_b && message_a == message_b,
{
    let (ra, rb) = (P::encoding(r_a), P::encoding(r_b));
    let (ya, yb) = (P::encoding(key_a), P::encoding(key_b));
    let a = contribution_challenge_input::<P>(r_a, key_a, message_a);
    let b = contribution_challenge_input::<P>(r_b, key_b, message_b);
    lemma_encodings::<P>(r_a, r_b);
    lemma_encodings::<P>(key_a, key_b);
    law_hash_binds_input::<P::Scalar>(a, b);
    if a == b {
        lemma_concat_split(
            LIVENESS_SIG_DOMAIN@,
            ra + (ya + message_a),
            LIVENESS_SIG_DOMAIN@,
            rb + (yb + message_b),
        );
        lemma_concat_split(ra, ya + message_a, rb, yb + message_b);
        lemma_concat_split(ya, message_a, yb, message_b);
    }
}

/// A signature is on one contribution: two contributions that carry one signature, valid
/// under one key other than the identity, have the same dealer and commitment, the same
/// anchor, the same proof and the same state root, and are for the same context, where
/// SHA-512 does not collide on what is hashed.
pub proof fn law_signature_binds_contribution<P: OsstPoint>(
    a: DealerContribution<P>,
    context_a: Seq<u8>,
    b: DealerContribution<P>,
    context_b: Seq<u8>,
    key: int,
)
    requires
        is_field(ord::<P>()),
        has_encoding::<P>(key),
        key != 0,
        is_bindable::<P>(a, context_a),
        is_bindable::<P>(b, context_b),
        a.signature.r.log() == b.signature.r.log(),
        a.signature.s.val() == b.signature.s.val(),
        is_signed::<P>(a, key, context_a),
        is_signed::<P>(b, key, context_b),
        sha512_digest(message_input::<P>(a.commitment@, a.liveness@, context_a)) == sha512_digest(
            message_input::<P>(b.commitment@, b.liveness@, context_b),
        ) ==> message_input::<P>(a.commitment@, a.liveness@, context_a) == message_input::<P>(
            b.commitment@,
            b.liveness@,
            context_b,
        ),
        told_apart::<P::Scalar>(
            contribution_challenge_input::<P>(
                a.signature.r.log(),
                key,
                sha512_digest(message_input::<P>(a.commitment@, a.liveness@, context_a)),
            ),
            contribution_challenge_input::<P>(
                b.signature.r.log(),
                key,
                sha512_digest(message_input::<P>(b.commitment@, b.liveness@, context_b)),
            ),
        ),
    ensures
        a.commitment.dealer_index == b.commitment.dealer_index,
        a.commitment.polynomial() == b.commitment.polynomial(),
        a.liveness.anchor.height == b.liveness.anchor.height,
        a.liveness.anchor.block_hash@ == b.liveness.anchor.block_hash@,
        a.liveness.anchor.timestamp == b.liveness.anchor.timestamp,
        a.liveness.ligerito_proof@ == b.liveness.ligerito_proof@,
        a.liveness.state_root@ == b.liveness.state_root@,
        context_a == context_b,
{
    let n = ord::<P>();
    let r = a.signature.r.log();
    let (ma, mb) = (
        contribution_message::<P>(a.commitment@, a.liveness@, context_a),
        contribution_message::<P>(b.commitment@, b.liveness@, context_b),
    );
    let (e, f) = (
        contribution_challenge::<P>(r, key, ma),
        contribution_challenge::<P>(r, key, mb),
    );
    lemma_encodings::<P>(key, r);
    law_hash_binds_input::<P::Scalar>(
        contribution_challenge_input::<P>(r, key, ma),
        contribution_challenge_input::<P>(r, key, ma),
    );
    law_hash_binds_input::<P::Scalar>(
        contribution_challenge_input::<P>(r, key, mb),
        contribution_challenge_input::<P>(r, key, mb),
    );
    law_response_binds_challenge(r, e, f, key, n);
    law_contribution_challenge_binds::<P>(r, key, ma, r, key, mb);
    law_message_covers_contribution::<P>(
        a.commitment@,
        a.liveness@,
        context_a,
        b.commitment@,
        b.liveness@,
        context_b,
    );
}

/// Signing two contributions with one nonce gives up the key: the responses differ by the
/// secret times the difference of the challenges. In particular one response is valid for
/// a contribution, and no other.
pub proof fn law_contribution_responses<P: OsstPoint>(
    a: DealerContribution<P>,
    context_a: Seq<u8>,
    b: DealerContribution<P>,
    context_b: Seq<u8>,
    key: int,
)
    requires
        a.signature.r.log() == b.signature.r.log(),
        is_signed::<P>(a, key, context_a),
        is_signed::<P>(b, key, context_b),
    ensures
        eqm(
            a.signature.s.val() - b.signature.s.val(),
            (contribution_challenge::<P>(
                a.signature.r.log(),
                key,
                contribution_message::<P>(a.commitment@, a.liveness@, context_a),
            ) - contribution_challenge::<P>(
                b.signature.r.log(),
                key,
                contribution_message::<P>(b.commitment@, b.liveness@, context_b),
            )) * key,
            ord::<P>(),
        ),
        a.commitment@ == b.commitment@ && a.liveness@ == b.liveness@ && context_a == context_b
            ==> a.signature.s.val() == b.signature.s.val(),
{
    <P::Scalar as OsstScalar>::lemma_order();
    law_responses_differ_by_secret(
        a.signature.r.log(),
        contribution_challenge::<P>(
            a.signature.r.log(),
            key,
            contribution_message::<P>(a.commitment@, a.liveness@, context_a),
        ),
        contribution_challenge::<P>(
            b.signature.r.log(),
            key,
            contribution_message::<P>(b.commitment@, b.liveness@, context_b),
        ),
        key,
        ord::<P>(),
    );
}

/// A checkpoint ages by one block with each block: it is recent up to the maximum age,
/// one block later it is not, it is never recent again, and one ahead of the current
/// height is recent.
pub proof fn law_checkpoint_ages(height: u64, current: u64, later: u64, max_age: u64)
    requires
        current <= later,
    ensures
        is_recent_height(height, current, max_age) <==> current - height <= max_age,
        is_recent_height(height, later, max_age) ==> is_recent_height(height, current, max_age),
        current <= height ==> is_recent_height(height, current, max_age),
{
}

/// The outcome of a contribution, check by check: it is accepted exactly where the
/// checkpoint is recent, the signature valid and the block verifier's answer yes, and the
/// first check that fails is the one that is named.
pub proof fn law_first_failure_is_named<P: OsstPoint>(
    c: DealerContribution<P>,
    public_key: int,
    context: Seq<u8>,
    current: u64,
    max_age: u64,
    proof_valid: bool,
)
    ensures
        ({
            let r = concluded(
                signed_outcome::<P>(c, public_key, context, current, max_age),
                proof_valid,
            );
            let recent = current - c.liveness.anchor.height <= max_age;
            let signed = is_signed::<P>(c, public_key, context);
            &&& r is Ok <==> recent && signed && proof_valid
            &&& r == Err::<(), ContributionError>(ContributionError::CheckpointTooOld) <==> !recent
            &&& r == Err::<(), ContributionError>(ContributionError::InvalidSignature) <==> recent
                && !signed
            &&& r == Err::<(), ContributionError>(ContributionError::InvalidLigerito) <==> recent
                && signed && !proof_valid
        }),
{
}

/// A contribution that is accepted was put to the block verifier as it is: the verifier
/// accepted its own proof for its own anchor and state root, the checkpoint is recent by
/// the verifier's own height and age, and the key signed it for the context.
pub proof fn law_accepted_contribution<P: OsstPoint, V: LivenessVerifier>(
    verifier: V,
    c: DealerContribution<P>,
    public_key: int,
    context: Seq<u8>,
)
    requires
        is_outcome::<P, V>(verifier, c, public_key, context, Ok(())),
    ensures
        is_signed::<P>(c, public_key, context),
        exists|current: CheckpointAnchor, max_age: u64|
            {
                &&& #[trigger] call_ensures(V::current_anchor, (&verifier,), current)
                &&& #[trigger] call_ensures(V::max_checkpoint_age, (&verifier,), max_age)
                &&& current.height - c.liveness.anchor.height <= max_age
            },
        exists|proof_bytes: &[u8]|
            proof_bytes@ == c.liveness.ligerito_proof@ && #[trigger] call_ensures(
                V::verify_ligerito_proof,
                (&verifier, &c.liveness.anchor, proof_bytes, &c.liveness.state_root),
                true,
            ),
{
    let (current, max_age, proof_valid) = choose|
        current: CheckpointAnchor,
        max_age: u64,
        proof_valid: bool,
    |
        #[trigger] answered::<P, V>(
            verifier,
            c,
            public_key,
            context,
            current,
            max_age,
            proof_valid,
        ) && Ok::<(), ContributionError>(()) == concluded(
            signed_outcome::<P>(c, public_key, context, current.height, max_age),
            proof_valid,
        );
    assert(call_ensures(V::current_anchor, (&verifier,), current));
    assert(call_ensures(V::max_checkpoint_age, (&verifier,), max_age));
}

/// The first entry of a roster that names a dealer.
pub open spec fn is_first_entry<P: OsstPoint>(keys: Seq<(u32, P)>, i: int, dealer: u32) -> bool {
    &&& 0 <= i < keys.len()
    &&& keys[i].0 == dealer
    &&& forall|j: int| 0 <= j < i ==> (#[trigger] keys[j]).0 != dealer
}

/// A roster has a key for a dealer exactly where an entry names the dealer, and it is
/// the key of the first such entry.
pub proof fn law_roster_key_is_first<P: OsstPoint>(keys: Seq<(u32, P)>, dealer: u32, i: int)
    ensures
        is_first_entry(keys, i, dealer) ==> roster_key(keys, dealer) == Some(keys[i].1.log()),
        roster_key(keys, dealer) is None <==> forall|j: int|
            0 <= j < keys.len() ==> (#[trigger] keys[j]).0 != dealer,
    decreases keys.len(),
{
    if keys.len() > 0 {
        let rest = keys.drop_first();
        law_roster_key_is_first(rest, dealer, i - 1);
        assert forall|j: int| 0 <= j < rest.len() implies rest[j] == #[trigger] keys[j + 1] by {}
        if keys[0].0 != dealer {
            if is_first_entry(keys, i, dealer) {
                assert forall|j: int| 0 <= j < i - 1 implies (#[trigger] rest[j]).0 != dealer by {
                    assert(keys[j + 1].0 != dealer);
                }
                assert(is_first_entry(rest, i - 1, dealer));
            }
            if roster_key(keys, dealer) is None {
                assert forall|j: int| 0 <= j < keys.len() implies (#[trigger] keys[j]).0
                    != dealer by {
                    if j > 0 {
                        assert(rest[j - 1].0 != dealer);
                    }
                }
            }
            if forall|j: int| 0 <= j < keys.len() ==> (#[trigger] keys[j]).0 != dealer {
                assert forall|j: int| 0 <= j < rest.len() implies (#[trigger] rest[j]).0
                    != dealer by {
                    assert(keys[j + 1].0 != dealer);
                }
            }
        }
    }
}

/// The valid positions are all of them: every position is among them exactly where its
/// outcome is a success, and they ascend.
pub proof fn law_positions_of_all_successes(outcomes: Seq<Result<(), ContributionError>>)
    ensures
        forall|i: int|
            0 <= i < outcomes.len() ==> (success_positions(outcomes).contains(i) <==> (
            #[trigger] outcomes[i]) is Ok),
        forall|k: int|
            0 <= k < success_positions(outcomes).len() ==> 0 <= (#[trigger] success_positions(
                outcomes,
            )[k]) < outcomes.len(),
        forall|j: int, k: int|
            0 <= j < k < success_positions(outcomes).len() ==> success_positions(outcomes)[j]
                < success_positions(outcomes)[k],
    decreases outcomes.len(),
{
    let s = success_positions(outcomes);
    assert forall|k: int| 0 <= k < s.len() implies 0 <= #[trigger] s[k] < outcomes.len() by {
        lemma_success_positions(outcomes, k);
    }
    assert forall|j: int, k: int| 0 <= j < k < s.len() implies s[j] < s[k] by {
        lemma_positions_ascend(outcomes, j, k);
    }
    if outcomes.len() > 0 {
        let rest = outcomes.drop_last();
        let r = success_positions(rest);
        let last = outcomes.len() - 1;
        law_positions_of_all_successes(rest);
        assert forall|i: int| 0 <= i < outcomes.len() implies (s.contains(i) <==> (
        #[trigger] outcomes[i]) is Ok) by {
            if i < last {
                assert(rest[i] == outcomes[i]);
                if r.contains(i) {
                    let k = choose|k: int| 0 <= k < r.len() && r[k] == i;
                    assert(s[k] == i);
                }
                if s.contains(i) {
                    let k = choose|k: int| 0 <= k < s.len() && s[k] == i;
                    assert(r[k] == i);
                }
            } else {
                if s.contains(i) {
                    let k = choose|k: int| 0 <= k < s.len() && s[k] == i;
                    lemma_success_positions(outcomes, k);
                }
                if outcomes[i] is Ok {
                    assert(s[r.len() as int] == last);
                }
            }
        }
    }
}

/// A contribution signature is read back as it was written, and what is read is written
/// as it was.
pub proof fn law_contribution_signature_round_trip<P: OsstPoint>(r: int, s: int, bytes: Seq<u8>)
    requires
        has_encoding::<P>(r),
        0 <= s < ord::<P>(),
    ensures
        parse_signature::<P>(bytes) == Ok::<(int, int), OsstError>((r, s)) <==> bytes
            == P::encoding(r) + <P::Scalar as OsstScalar>::repr(s),
{
    let n = P::COMPRESSED_SIZE as int;
    let want = P::encoding(r) + <P::Scalar as OsstScalar>::repr(s);
    lemma_encodings::<P>(r, r);
    <P::Scalar as OsstScalar>::lemma_repr(s);
    assert(want.subrange(0, n) =~= P::encoding(r));
    assert(want.subrange(n, n + 32) =~= <P::Scalar as OsstScalar>::repr(s));
    if parse_signature::<P>(bytes) == Ok::<(int, int), OsstError>((r, s)) {
        let (head, tail) = (bytes.subrange(0, n), bytes.subrange(n, n + 32));
        P::lemma_decode(head);
        <P::Scalar as OsstScalar>::lemma_unrepr(tail);
        assert(bytes =~= head + tail);
    }
}

/// What is signed verifies, from call to call: a contribution that was signed with a key's
/// secret verifies under the key, for the context it was signed for, and carries the
/// commitment and the liveness proof as they were given.
pub proof fn law_signed_contribution_verifies<P: OsstPoint>(
    commitment: DealerCommitment<P>,
    liveness: LivenessProof,
    secret: P::Scalar,
    context: &[u8],
    nonce: P::Scalar,
    contribution: DealerContribution<P>,
    key: P,
    verified: bool,
)
    requires
        call_ensures(
            DealerContribution::<P>::sign_with_nonce,
            (commitment, liveness, &secret, context, &nonce),
            contribution,
        ),
        key.log() == secret.val(),
        call_ensures(
            DealerContribution::<P>::verify_signature,
            (&contribution, &key, context),
            verified,
        ),
    ensures
        verified,
        contribution.commitment == commitment,
        contribution.liveness == liveness,
{
}

/// A contribution that was changed does not verify, from call to call: under a key other
/// than the identity, two contributions with one signature that both verify are one
/// contribution for one context, where SHA-512 does not collide on what is hashed.
pub proof fn law_changed_contribution_fails<P: OsstPoint>(
    a: DealerContribution<P>,
    context_a: &[u8],
    b: DealerContribution<P>,
    context_b: &[u8],
    key: P,
)
    requires
        is_field(ord::<P>()),
        key.log() != 0,
        a.signature.r.log() == b.signature.r.log(),
        a.signature.s.val() == b.signature.s.val(),
        call_ensures(DealerContribution::<P>::verify_signature, (&a, &key, context_a), true),
        call_ensures(DealerContribution::<P>::verify_signature, (&b, &key, context_b), true),
        sha512_digest(message_input::<P>(a.commitment@, a.liveness@, context_a@))
            == sha512_digest(message_input::<P>(b.commitment@, b.liveness@, context_b@))
            ==> message_input::<P>(a.commitment@, a.liveness@, context_a@) == message_input::<P>(
            b.commitment@,
            b.liveness@,
            context_b@,
        ),
        told_apart::<P::Scalar>(
            contribution_challenge_input::<P>(
                a.signature.r.log(),
                key.log(),
                sha512_digest(message_input::<P>(a.commitment@, a.liveness@, context_a@)),
            ),
            contribution_challenge_input::<P>(
                b.signature.r.log(),
                key.log(),
                sha512_digest(message_input::<P>(b.commitment@, b.liveness@, context_b@)),
            ),
        ),
    ensures
        a.commitment.dealer_index == b.commitment.dealer_index,
        a.commitment.polynomial() == b.commitment.polynomial(),
        a.liveness.anchor.height == b.liveness.anchor.height,
        a.liveness.anchor.block_hash@ == b.liveness.anchor.block_hash@,
        a.liveness.anchor.timestamp == b.liveness.anchor.timestamp,
        a.liveness.ligerito_proof@ == b.liveness.ligerito_proof@,
        a.liveness.state_root@ == b.liveness.state_root@,
        context_a@ == context_b@,
{
    law_signature_binds_contribution::<P>(a, context_a@, b, context_b@, key.log());
}

/// The checks of a contribution, from call to call: the first that fails is named, age
/// before signature before proof, and one that passes all of them is accepted.
pub proof fn law_checks_in_order<P: OsstPoint>(
    c: DealerContribution<P>,
    key: P,
    context: &[u8],
    current: u64,
    max_age: u64,
    signed: bool,
    checked: Result<(), ContributionError>,
    proof_valid: bool,
    r: Result<(), ContributionError>,
)
    requires
        call_ensures(DealerContribution::<P>::verify_signature, (&c, &key, context), signed),
        call_ensures(
            DealerContribution::<P>::check_signed,
            (&c, &key, context, current, max_age),
            checked,
        ),
        call_ensures(conclude, (checked, proof_valid), r),
    ensures
        r == if current - c.liveness.anchor.height > max_age {
            Err::<(), ContributionError>(ContributionError::CheckpointTooOld)
        } else if !signed {
            Err(ContributionError::InvalidSignature)
        } else if !proof_valid {
            Err(ContributionError::InvalidLigerito)
        } else {
            Ok(())
        },
{
}

/// A liveness proof is read back as it was written, from call to call.
pub proof fn law_written_proof_reads_back(
    proof_given: LivenessProof,
    bytes: Vec<u8>,
    slice: &[u8],
    read: Result<LivenessProof, OsstError>,
)
    requires
        proof_given.ligerito_proof@.len() <= u32::MAX,
        call_ensures(LivenessProof::to_bytes, (&proof_given,), bytes),
        slice@ == bytes@,
        call_ensures(LivenessProof::from_bytes, (slice,), read),
    ensures
        read matches Ok(p) && p@ == proof_given@,
{
    law_liveness_round_trip(proof_given@, Seq::empty());
    assert(liveness_bytes(proof_given@) + Seq::<u8>::empty() =~= liveness_bytes(proof_given@));
}

/// A contribution that is accepted under a roster is signed by the key that the roster has
/// first for its dealer, and one of a dealer without a key is a mismatch.
pub proof fn law_keyed_contribution<P: OsstPoint, V: LivenessVerifier>(
    verifier: ContributionVerifier<'_, P, V>,
    c: DealerContribution<P>,
    keys: &[(u32, P)],
    i: int,
    r: Result<(), ContributionError>,
)
    requires
        call_ensures(ContributionVerifier::<P, V>::verify_keyed, (&verifier, &c, keys), r),
    ensures
        (forall|j: int|
            0 <= j < keys@.len() ==> (#[trigger] keys@[j]).0 != c.commitment.dealer_index) <==> r
            == Err::<(), ContributionError>(ContributionError::IndexMismatch),
        is_first_entry(keys@, i, c.commitment.dealer_index) && r is Ok ==> is_signed::<P>(
            c,
            keys@[i].1.log(),
            verifier.signed_context(),
        ) && is_outcome::<P, V>(
            verifier.block_verifier(),
            c,
            keys@[i].1.log(),
            verifier.signed_context(),
            Ok(()),
        ),
        is_first_entry(keys@, i, c.commitment.dealer_index) && r
            == Err::<(), ContributionError>(ContributionError::InvalidSignature) ==> !is_signed::<
            P,
        >(c, keys@[i].1.log(), verifier.signed_context()),
{
    law_roster_key_is_first(keys@, c.commitment.dealer_index, i);
}

/// A batch returns the valid contributions, all of them: there are outcomes of verifying them
/// one by one of which exactly the successes are returned, and every contribution that is
/// returned is signed by its dealer's key.
pub proof fn law_batch_returns_all_valid<P: OsstPoint, V: LivenessVerifier>(
    verifier: ContributionVerifier<'_, P, V>,
    contributions: &[DealerContribution<P>],
    keys: &[(u32, P)],
    r: Vec<usize>,
)
    requires
        call_ensures(
            ContributionVerifier::<P, V>::verify_batch,
            (&verifier, contributions, keys),
            r,
        ),
    ensures
        exists|outcomes: Seq<Result<(), ContributionError>>|
            {
                &&& #[trigger] are_outcomes::<P, V>(
                    verifier.block_verifier(),
                    contributions@,
                    keys@,
                    verifier.signed_context(),
                    outcomes,
                )
                &&& forall|i: int|
                    0 <= i < contributions@.len() && i <= usize::MAX ==> (r@.contains(i as usize)
                        <==> (#[trigger] outcomes[i]) is Ok)
            },
        forall|k: int|
            0 <= k < r@.len() ==> (#[trigger] r@[k]) < contributions@.len() && (roster_key(
                keys@,
                contributions@[r@[k] as int].commitment.dealer_index,
            ) matches Some(y) && is_signed::<P>(
                contributions@[r@[k] as int],
                y,
                verifier.signed_context(),
            )),
{
    let outcomes = choose|outcomes: Seq<Result<(), ContributionError>>|
        #[trigger] are_outcomes::<P, V>(
            verifier.block_verifier(),
            contributions@,
            keys@,
            verifier.signed_context(),
            outcomes,
        ) && r@.map_values(|p: usize| p as int) == success_positions(outcomes);
    let m = r@.map_values(|p: usize| p as int);
    law_positions_of_all_successes(outcomes);
    assert forall|i: int| 0 <= i < contributions@.len() && i <= usize::MAX implies (r@.contains(
        i as usize,
    ) <==> (#[trigger] outcomes[i]) is Ok) by {
        if r@.contains(i as usize) {
            let k = choose|k: int| 0 <= k < r@.len() && r@[k] == i as usize;
            assert(m[k] == i);
            assert(m.contains(i));
        }
        if outcomes[i] is Ok {
            assert(m.contains(i));
            let k = choose|k: int| 0 <= k < m.len() && m[k] == i;
            assert(r@[k] as int == m[k]);
        }
    }
}

/// A liveness proof that is read is the one that the bytes start with.
pub proof fn law_read_liveness(bytes: Seq<u8>, v: LivenessView)
    requires
        parse_liveness(bytes) == Some(v),
    ensures
        v.block_hash.len() == 32,
        v.state_root.len() == 32,
        liveness_bytes(v).len() <= bytes.len(),
        bytes.subrange(0, liveness_bytes(v).len() as int) == liveness_bytes(v),
{
    let len = le_value(bytes.subrange(48, 52));
    lemma_byte_bounds();
    crate::bytes::lemma_le_value(bytes.subrange(0, 8));
    crate::bytes::lemma_le_value(bytes.subrange(40, 48));
    crate::bytes::lemma_le_value(bytes.subrange(48, 52));
    lemma_le_bytes(v.height as int, 8);
    lemma_le_bytes(v.timestamp as int, 8);
    lemma_le_bytes(len, 4);
    assert(v.proof_bytes.len() == len);
    let b = liveness_bytes(v);
    assert(b =~= bytes.subrange(0, 8) + (bytes.subrange(8, 40) + bytes.subrange(40, 48)) + (
    bytes.subrange(48, 52) + (bytes.subrange(52, 52 + len) + bytes.subrange(
        52 + len,
        52 + len + 32,
    ))));
    assert(bytes.subrange(0, b.len() as int) =~= b);
}

/// The domains of the hashes, as text.
pub proof fn law_domain_texts()
    ensures
        LIVENESS_SIG_DOMAIN@ == ascii("osst/liveness-sig/v1"@),
        CONTRIBUTION_SIG_MSG_DOMAIN@ == ascii("osst/contribution-sig/v2"@),
{
    reveal_strlit("osst/liveness-sig/v1");
    reveal_strlit("osst/contribution-sig/v2");
    assert(LIVENESS_SIG_DOMAIN@ =~= ascii("osst/liveness-sig/v1"@));
    assert(CONTRIBUTION_SIG_MSG_DOMAIN@ =~= ascii("osst/contribution-sig/v2"@));
}

/// No hash of one protocol is one of another: the challenges of signing, its binding factors,
/// proofs of knowledge, complaints and contributions are hashes of different inputs, whatever
/// these are.
pub proof fn law_protocols_are_separated<P: OsstPoint>(
    challenge: (int, int, Seq<u8>),
    binding: (int, Seq<u8>, Seq<u8>, u32),
    pok: (u32, u64, int, int),
    complaint: (int, int, Seq<u8>),
    contribution: (int, int, Seq<u8>),
)
    ensures
        ({
            let a = crate::frost::challenge_input::<P>(challenge.0, challenge.1, challenge.2);
            let b = crate::frost::binding_input::<P>(binding.0, binding.1, binding.2, binding.3);
            let c = crate::dkg::pok_input::<P>(pok.0, pok.1, pok.2, pok.3);
            let d = crate::dkg::complaint_input::<P>(complaint.0, complaint.1, complaint.2);
            let e = contribution_challenge_input::<P>(
                contribution.0,
                contribution.1,
                contribution.2,
            );
            &&& a != b && a != c && a != d && a != e
            &&& b != c && b != d && b != e
            &&& c != d && c != e
            &&& d != e
        }),
{
    let a = crate::frost::challenge_input::<P>(challenge.0, challenge.1, challenge.2);
    let b = crate::frost::binding_input::<P>(binding.0, binding.1, binding.2, binding.3);
    let c = crate::dkg::pok_input::<P>(pok.0, pok.1, pok.2, pok.3);
    let d = crate::dkg::complaint_input::<P>(complaint.0, complaint.1, complaint.2);
    let e = contribution_challenge_input::<P>(contribution.0, contribution.1, contribution.2);
    assert(a[0] == 102 && a[6] == 99);
    assert(b[0] == 102 && b[6] == 98);
    assert(c[0] == 111 && c[5] == 100 && c[9] == 112);
    assert(d[0] == 111 && d[5] == 100 && d[9] == 99);
    assert(e[0] == 111 && e[5] == 108);
}

/// A size is the size of what is written, and the short text of bytes is all of them where
/// there are few, and otherwise the first and the last four with dots between.
pub proof fn law_sizes_and_short_texts(
    proof_given: LivenessProof,
    written: Vec<u8>,
    size: usize,
    bytes: &[u8],
    short: String,
    head: Seq<u8>,
    tail: Seq<u8>,
)
    requires
        call_ensures(LivenessProof::to_bytes, (&proof_given,), written),
        call_ensures(LivenessProof::byte_size, (&proof_given,), size),
        call_ensures(hex_short, (bytes,), short),
        bytes@.len() > 8 ==> head == bytes@.subrange(0, 4) && tail == bytes@.subrange(
            bytes@.len() - 4,
            bytes@.len() as int,
        ),
    ensures
        written@.len() == size,
        written@.len() == 84 + proof_given.ligerito_proof@.len(),
        bytes@.len() <= 8 ==> short@ == hex_text(bytes@),
        bytes@.len() > 8 ==> short@ == hex_text(head) + "..."@ + hex_text(tail),
{
    lemma_le_bytes(proof_given.anchor.height as int, 8);
    lemma_le_bytes(proof_given.anchor.timestamp as int, 8);
    lemma_le_bytes(proof_given.ligerito_proof@.len() as int, 4);
}

/// A contribution that a verifier accepts is recent by its block verifier's height and age,
/// signed by the key for the verifier's own context, and its own proof was accepted for its
/// own anchor and state root.
pub proof fn law_verified_contribution<P: OsstPoint, V: LivenessVerifier>(
    block_verifier: &V,
    context: &[u8],
    verifier: ContributionVerifier<'_, P, V>,
    c: DealerContribution<P>,
    key: P,
)
    requires
        call_ensures(ContributionVerifier::<P, V>::new, (block_verifier, context), verifier),
        call_ensures(
            ContributionVerifier::<P, V>::verify,
            (&verifier, &c, &key),
            Ok::<(), ContributionError>(()),
        ),
    ensures
        is_signed::<P>(c, key.log(), context@),
        exists|current: CheckpointAnchor, max_age: u64|
            {
                &&& #[trigger] call_ensures(V::current_anchor, (block_verifier,), current)
                &&& #[trigger] call_ensures(V::max_checkpoint_age, (block_verifier,), max_age)
                &&& current.height - c.liveness.anchor.height <= max_age
            },
        exists|proof_bytes: &[u8]|
            proof_bytes@ == c.liveness.ligerito_proof@ && #[trigger] call_ensures(
                V::verify_ligerito_proof,
                (block_verifier, &c.liveness.anchor, proof_bytes, &c.liveness.state_root),
                true,
            ),
{
    law_accepted_contribution::<P, V>(*block_verifier, c, key.log(), context@);
}

} // verus!
