//! FROST: two-round threshold signing that produces a standard Schnorr
//! signature, verifiable with the group public key alone.
//!
//! ```text
//! Round 1: each signer i samples nonces (d_i, e_i) and broadcasts
//!          D_i = d_i G, E_i = e_i G.
//! Round 2: given a message m and the commitment list B,
//!          rho_i = H("frost-binding-v2", Y, m, B, i)
//!          R     = sum of D_i + rho_i E_i
//!          c     = H("frost-challenge-v1", R, Y, m)
//!          z_i   = d_i + rho_i e_i + lambda_i c s_i
//! Output:  (R, z) with z the sum of the z_i; it verifies if z G = R + c Y.
//! ```
//!
//! Reusing a nonce pair across messages leaks the signer's long-term secret:
//! [`Nonces`] are consumed by [`sign`].
use rand_core::OsRng;
use std::collections::BTreeMap;
use vstd::arithmetic::div_mod::lemma_small_mod;
use vstd::prelude::*;

use crate::bytes::{
    bytes_eq, get_array32, get_u32, le_bytes, le_value, lemma_byte_bounds, lemma_concat_split,
    lemma_le_bytes, lemma_le_bytes_injective, lemma_le_value, lemma_prefixed_split, prefixed,
    put_len, put_slice, put_u32, slice_to_vec,
};
use crate::context::SigningContext;
use crate::curve::{
    decode_scalar, has_encoding, hash_to_scalar, hash_value, law_hash_binds_input,
    lemma_encodings, ord, told_apart, vals, OsstPoint, OsstScalar,
};
use crate::error::OsstError;
use crate::lagrange::{coefficients, compute_lagrange_coefficients, lemma_reconstruct};
use crate::math::{
    dot, eqm, is_field, lemma_dot_push, lemma_eqm_add, lemma_eqm_mod, lemma_eqm_mul,
    lemma_mod_add, lemma_mod_mul, lemma_poly_zero, poly, sum,
};
use crate::schnorr::{law_response_binds_challenge, law_responses_differ_by_secret};
use crate::sets::{
    ascending, ascending_set, index_position, lemma_ascending_set, lemma_ascending_set_unique,
    lemma_increasing, lemma_same_multiset, lemma_sum_by_push, lemma_sum_permutation, sum_by,
};
use crate::shamir::base_mul;
use crate::share::{SecretShare, SecretShareView};
use crate::text::{ascii, decimal, put_decimal, put_text};

verus! {

/// Domain of the binding factor: `frost-binding-v2`.
pub const BINDING_DOMAIN: [u8; 16] = [
    102u8, 114u8, 111u8, 115u8, 116u8, 45u8, 98u8, 105u8, 110u8, 100u8, 105u8, 110u8, 103u8, 45u8,
    118u8, 50u8,
];

/// Domain of the challenge: `frost-challenge-v1`.
pub const CHALLENGE_DOMAIN: [u8; 18] = [
    102u8, 114u8, 111u8, 115u8, 116u8, 45u8, 99u8, 104u8, 97u8, 108u8, 108u8, 101u8, 110u8, 103u8,
    101u8, 45u8, 118u8, 49u8,
];

// ---------------------------------------------------------------------------
// Nonces
// ---------------------------------------------------------------------------

/// Secret nonce pair for a single signing session.
///
/// Each value must be used for exactly one call to [`sign`], which takes
/// ownership of it.
pub struct Nonces<S: OsstScalar> {
    hiding: S,
    binding: S,
}

/// What a nonce pair holds.
pub ghost struct NoncesView {
    /// The hiding nonce.
    pub hiding: int,
    /// The binding nonce.
    pub binding: int,
}

impl<S: OsstScalar> View for Nonces<S> {
    type V = NoncesView;

    closed spec fn view(&self) -> NoncesView {
        NoncesView { hiding: self.hiding.val(), binding: self.binding.val() }
    }
}

/// The response of a signer: `d + rho e + lambda c s`.
pub open spec fn response_value(
    nonces: NoncesView,
    rho: int,
    lambda: int,
    challenge: int,
    secret: int,
    n: int,
) -> int {
    (nonces.hiding + rho * nonces.binding + lambda * challenge * secret) % n
}

impl<S: OsstScalar> Nonces<S> {
    /// Builds nonces from scalars a caller already holds.
    ///
    /// [`commit`] is the way to obtain nonces in a deployment: a nonce that is
    /// chosen rather than sampled, or reused across sessions, gives up the
    /// share.
    pub fn from_scalars(hiding: S, binding: S) -> (r: Self)
        ensures
            r@ == (NoncesView { hiding: hiding.val(), binding: binding.val() }),
    {
        Nonces { hiding, binding }
    }

    /// Computes the round-2 response, and overwrites the nonces.
    pub fn compute_response(self, rho: &S, lambda: &S, challenge: &S, secret: &S) -> (r: S)
        ensures
            r.val() == response_value(
                self@,
                rho.val(),
                lambda.val(),
                challenge.val(),
                secret.val(),
                S::order(),
            ),
    {
        let mut nonces = self;
        let r = nonces.respond(rho, lambda, challenge, secret);
        nonces.zeroize();
        r
    }

    /// The round-2 response.
    fn respond(&self, rho: &S, lambda: &S, challenge: &S, secret: &S) -> (r: S)
        ensures
            r.val() == response_value(
                self@,
                rho.val(),
                lambda.val(),
                challenge.val(),
                secret.val(),
                S::order(),
            ),
    {
        let rho_e = rho.mul(&self.binding);
        let lcs = lambda.mul(&challenge.mul(secret));
        let r = self.hiding.add(&rho_e).add(&lcs);
        proof {
            S::lemma_order();
            let n = S::order();
            let (d, e) = (self.hiding.val(), self.binding.val());
            let (p, l, c, s) = (rho.val(), lambda.val(), challenge.val(), secret.val());
            lemma_mod_mul(l, c * s, n);
            assert(l * (c * s) == l * c * s) by (nonlinear_arith);
            lemma_mod_add(d, p * e, n);
            lemma_mod_add(d + p * e, l * c * s, n);
        }
        r
    }

    /// Whether the commitments are the ones these nonces produce.
    fn matches_commitments<P: OsstPoint<Scalar = S>>(&self, c: &SigningCommitments<P>) -> (r: bool)
        ensures
            r == (c@.hiding == self@.hiding && c@.binding == self@.binding),
    {
        c.hiding.equals(&base_mul::<P>(&self.hiding)) && c.binding.equals(
            &base_mul::<P>(&self.binding),
        )
    }

    /// Text for debugging, without the nonces.
    pub fn debug_text(&self) -> (r: String)
        ensures
            r@ == "Nonces([REDACTED])"@,
    {
        let mut out = String::new();
        put_text(&mut out, "Nonces([REDACTED])");
        assert(out@ =~= "Nonces([REDACTED])"@);
        out
    }

    /// Overwrites the nonces with zeros.
    pub fn zeroize(&mut self)
        ensures
            final(self)@ == (NoncesView { hiding: 0, binding: 0 }),
    {
        self.hiding.zeroize();
        self.binding.zeroize();
    }
}

// ---------------------------------------------------------------------------
// Commitments
// ---------------------------------------------------------------------------

/// Public nonce commitments broadcast in round 1.
#[derive(Clone, Copy, Debug)]
pub struct SigningCommitments<P: OsstPoint> {
    /// Signer index (1-indexed).
    pub index: u32,
    /// Hiding commitment, the generator times the hiding nonce.
    pub hiding: P,
    /// Binding commitment, the generator times the binding nonce.
    pub binding: P,
}

/// What a signer committed to.
pub ghost struct SignerView {
    /// Signer index.
    pub index: u32,
    /// The hiding nonce.
    pub hiding: int,
    /// The binding nonce.
    pub binding: int,
}

impl<P: OsstPoint> View for SigningCommitments<P> {
    type V = SignerView;

    open spec fn view(&self) -> SignerView {
        SignerView { index: self.index, hiding: self.hiding.log(), binding: self.binding.log() }
    }
}

/// The encoding of commitments: the index in four bytes and the two points.
pub open spec fn commitments_bytes<P: OsstPoint>(c: SignerView) -> Seq<u8> {
    le_bytes(c.index as int, 4) + P::encoding(c.hiding) + P::encoding(c.binding)
}

/// The commitments that `bytes` encode.
pub open spec fn parse_commitments<P: OsstPoint>(bytes: Seq<u8>) -> Result<SignerView, OsstError> {
    let n = P::COMPRESSED_SIZE as int;
    if bytes.len() != 4 + 2 * n {
        Err(OsstError::InvalidCommitment)
    } else if le_value(bytes.subrange(0, 4)) == 0 {
        Err(OsstError::InvalidIndex)
    } else {
        match (
            P::decode(bytes.subrange(4, 4 + n)),
            P::decode(bytes.subrange(4 + n, 4 + 2 * n)),
        ) {
            (Some(hiding), Some(binding)) => Ok(
                SignerView {
                    index: le_value(bytes.subrange(0, 4)) as u32,
                    hiding,
                    binding,
                },
            ),
            _ => Err(OsstError::InvalidCommitment),
        }
    }
}

impl<P: OsstPoint> SigningCommitments<P> {
    /// Byte length of the serialized form.
    pub fn byte_size() -> (r: usize)
        ensures
            r == 4 + 2 * P::COMPRESSED_SIZE,
    {
        proof {
            P::lemma_size();
        }
        4 + 2 * P::COMPRESSED_SIZE
    }

    /// Appends the serialized form.
    fn put(&self, out: &mut Vec<u8>)
        ensures
            final(out)@ == old(out)@ + commitments_bytes::<P>(self@),
            commitments_bytes::<P>(self@).len() == 4 + 2 * P::COMPRESSED_SIZE,
            has_encoding::<P>(self@.hiding),
            has_encoding::<P>(self@.binding),
            self.index != 0 ==> parse_commitments::<P>(commitments_bytes::<P>(self@)) == Ok::<
                SignerView,
                OsstError,
            >(self@),
    {
        let ghost before = out@;
        put_u32(out, self.index);
        let d = self.hiding.compress_vec();
        let e = self.binding.compress_vec();
        put_slice(out, &d);
        put_slice(out, &e);
        proof {
            let b = commitments_bytes::<P>(self@);
            let n = P::COMPRESSED_SIZE as int;
            lemma_byte_bounds();
            lemma_le_bytes(self.index as int, 4);
            assert(out@ =~= before + b);
            assert(b.subrange(0, 4) =~= le_bytes(self.index as int, 4));
            assert(b.subrange(4, 4 + n) =~= d@);
            assert(b.subrange(4 + n, 4 + 2 * n) =~= e@);
        }
    }

    /// Serializes: the index, then the two points. What is written reads back as
    /// what it was.
    pub fn to_bytes(&self) -> (r: Vec<u8>)
        ensures
            r@ == commitments_bytes::<P>(self@),
            r@.len() == 4 + 2 * P::COMPRESSED_SIZE,
            self.index != 0 ==> parse_commitments::<P>(r@) == Ok::<SignerView, OsstError>(self@),
    {
        let mut buf: Vec<u8> = Vec::new();
        self.put(&mut buf);
        assert(buf@ =~= commitments_bytes::<P>(self@));
        buf
    }

    /// Deserializes from bytes.
    ///
    /// # Errors
    ///
    /// [`OsstError::InvalidCommitment`] if the length is wrong or a point is
    /// none, [`OsstError::InvalidIndex`] if the index is 0.
    pub fn from_bytes(bytes: &[u8]) -> (r: Result<Self, OsstError>)
        ensures
            r matches Ok(c) ==> parse_commitments::<P>(bytes@) == Ok::<SignerView, OsstError>(c@),
            r matches Err(e) ==> parse_commitments::<P>(bytes@) == Err::<SignerView, OsstError>(e),
    {
        proof {
            P::lemma_size();
        }
        if bytes.len() != Self::byte_size() {
            return Err(OsstError::InvalidCommitment);
        }
        let index = get_u32(bytes, 0);
        if index == 0 {
            return Err(OsstError::InvalidIndex);
        }
        let n: usize = P::COMPRESSED_SIZE;
        let d = slice_to_vec(bytes, 4, 4 + n);
        let hiding = match P::decompress(&d) {
            Some(p) => p,
            None => return Err(OsstError::InvalidCommitment),
        };
        let e = slice_to_vec(bytes, 4 + n, 4 + 2 * n);
        let binding = match P::decompress(&e) {
            Some(p) => p,
            None => return Err(OsstError::InvalidCommitment),
        };
        Ok(SigningCommitments { index, hiding, binding })
    }
}

// ---------------------------------------------------------------------------
// The signing package
// ---------------------------------------------------------------------------

/// Collected commitments and message, distributed to signers for round 2.
///
/// The commitments are kept in ascending order of signers, so that all signers
/// compute identical binding factors.
pub struct SigningPackage<P: OsstPoint> {
    message: Vec<u8>,
    commitments: BTreeMap<u32, SigningCommitments<P>>,
    /// Cached encoding of the commitments, for the binding factors.
    encoded_commitments: Vec<u8>,
}

/// What a signing package holds.
pub ghost struct PackageView {
    /// The message being signed.
    pub message: Seq<u8>,
    /// The signers, in ascending order.
    pub signers: Seq<SignerView>,
}

/// What several commitments commit to.
pub open spec fn signer_views<P: OsstPoint>(cs: Seq<SigningCommitments<P>>) -> Seq<SignerView> {
    Seq::new(cs.len(), |i: int| cs[i]@)
}

/// The encodings of several commitments, one after the other.
pub open spec fn signers_bytes<P: OsstPoint>(signers: Seq<SignerView>) -> Seq<u8>
    decreases signers.len(),
{
    if signers.len() == 0 {
        Seq::empty()
    } else {
        signers_bytes::<P>(signers.drop_last()) + commitments_bytes::<P>(signers.last())
    }
}

/// The commitments of some signers have encodings.
pub open spec fn are_encodable<P: OsstPoint>(signers: Seq<SignerView>) -> bool {
    forall|i: int|
        0 <= i < signers.len() ==> has_encoding::<P>((#[trigger] signers[i]).hiding)
            && has_encoding::<P>(signers[i].binding)
}

/// The input of the binding factor of a signer: the domain, the group key, the
/// message and the commitments each preceded by its length, and the index.
pub open spec fn binding_input<P: OsstPoint>(
    group_pubkey: int,
    message: Seq<u8>,
    encoded: Seq<u8>,
    index: u32,
) -> Seq<u8> {
    BINDING_DOMAIN@ + (P::encoding(group_pubkey) + (prefixed(message) + (prefixed(encoded)
        + le_bytes(index as int, 4))))
}

/// The input of the challenge: the domain, the group commitment, the group key
/// and the message.
pub open spec fn challenge_input<P: OsstPoint>(
    group_commitment: int,
    group_pubkey: int,
    message: Seq<u8>,
) -> Seq<u8> {
    CHALLENGE_DOMAIN@ + P::encoding(group_commitment) + P::encoding(group_pubkey) + message
}

/// The Schnorr challenge.
pub open spec fn challenge_value<P: OsstPoint>(
    group_commitment: int,
    group_pubkey: int,
    message: Seq<u8>,
) -> int {
    hash_value::<P::Scalar>(challenge_input::<P>(group_commitment, group_pubkey, message))
}

/// The sum of `D + rho E` over some signers.
pub open spec fn commitment_sum(signers: Seq<SignerView>, rhos: Seq<int>) -> int
    decreases signers.len(),
{
    if signers.len() == 0 {
        0
    } else {
        commitment_sum(signers.drop_last(), rhos.drop_last()) + signers.last().hiding
            + rhos.last() * signers.last().binding
    }
}

impl PackageView {
    /// The signer indices, ascending.
    pub open spec fn indices(self) -> Seq<u32> {
        Seq::new(self.signers.len(), |i: int| self.signers[i].index)
    }

    /// Whether there is a signer of this index.
    pub open spec fn has(self, index: u32) -> bool {
        self.indices().contains(index)
    }

    /// The signer of an index.
    pub open spec fn signer(self, index: u32) -> SignerView {
        self.signers[self.indices().index_of(index)]
    }

    /// What a package keeps: its signers are a nonempty set, in ascending order.
    pub open spec fn wf(self) -> bool {
        &&& self.signers.len() > 0
        &&& ascending(self.indices())
        &&& !self.has(0)
    }

    /// The commitments have encodings, and what is hashed has a length.
    pub open spec fn is_encodable<P: OsstPoint>(self) -> bool {
        &&& are_encodable::<P>(self.signers)
        &&& self.message.len() <= u64::MAX
        &&& signers_bytes::<P>(self.signers).len() <= u64::MAX
    }

    /// The binding factor of a signer.
    pub open spec fn binding_factor<P: OsstPoint>(self, index: u32, group_pubkey: int) -> int {
        hash_value::<P::Scalar>(
            binding_input::<P>(
                group_pubkey,
                self.message,
                signers_bytes::<P>(self.signers),
                index,
            ),
        )
    }

    /// The binding factors of the signers.
    pub open spec fn binding_factors<P: OsstPoint>(self, group_pubkey: int) -> Seq<int> {
        Seq::new(
            self.signers.len(),
            |i: int| self.binding_factor::<P>(self.signers[i].index, group_pubkey),
        )
    }

    /// The group commitment: the sum of `D + rho E` over the signers.
    pub open spec fn group_commitment<P: OsstPoint>(self, group_pubkey: int) -> int {
        commitment_sum(self.signers, self.binding_factors::<P>(group_pubkey)) % ord::<P>()
    }

    /// The challenge.
    pub open spec fn challenge<P: OsstPoint>(self, group_pubkey: int) -> int {
        challenge_value::<P>(self.group_commitment::<P>(group_pubkey), group_pubkey, self.message)
    }

    /// The Lagrange coefficient of a signer.
    pub open spec fn lambda(self, index: u32, n: int) -> int {
        coefficients(self.indices(), n)[self.indices().index_of(index)]
    }
}

/// The position of an index in ascending order.
proof fn lemma_index_of(s: Seq<u32>, k: int)
    requires
        ascending(s),
        0 <= k < s.len(),
    ensures
        s.contains(s[k]),
        s.index_of(s[k]) == k,
{
    let j = s.index_of(s[k]);
    assert(s.contains(s[k]));
    assert(0 <= j < s.len() && s[j] == s[k]);
    if j < k {
        assert(s[j] < s[k]);
    } else if k < j {
        assert(s[k] < s[j]);
    }
}

/// The indices of several commitments.
pub open spec fn commitment_indices<P: OsstPoint>(cs: Seq<SigningCommitments<P>>) -> Seq<u32> {
    Seq::new(cs.len(), |i: int| cs[i].index)
}

/// The first commitment that keeps a list from being a set of signers, as an
/// error: its index is zero, or occurred before.
pub open spec fn signers_error<P: OsstPoint>(cs: Seq<SigningCommitments<P>>) -> Option<OsstError>
    decreases cs.len(),
{
    if cs.len() == 0 {
        None
    } else {
        match signers_error(cs.drop_last()) {
            Some(e) => Some(e),
            None => if cs.last().index == 0 {
                Some(OsstError::InvalidIndex)
            } else if commitment_indices(cs.drop_last()).contains(cs.last().index) {
                Some(OsstError::DuplicateIndex(cs.last().index))
            } else {
                None
            },
        }
    }
}

proof fn lemma_signers_error<P: OsstPoint>(cs: Seq<SigningCommitments<P>>, i: nat)
    requires
        i <= cs.len(),
        signers_error(cs.subrange(0, i as int)) is Some,
    ensures
        signers_error(cs) == signers_error(cs.subrange(0, i as int)),
    decreases cs.len() - i,
{
    if i < cs.len() {
        let next = cs.subrange(0, i as int + 1);
        assert(next.drop_last() =~= cs.subrange(0, i as int));
        lemma_signers_error(cs, i + 1);
    } else {
        assert(cs.subrange(0, i as int) =~= cs);
    }
}

/// A list of commitments that is a set of signers has no index twice, and none is
/// zero.
proof fn lemma_signers_distinct<P: OsstPoint>(cs: Seq<SigningCommitments<P>>)
    requires
        signers_error(cs) is None,
    ensures
        forall|i: int| 0 <= i < cs.len() ==> (#[trigger] cs[i]).index != 0,
        forall|i: int, j: int|
            0 <= i < cs.len() && 0 <= j < cs.len() && i != j ==> (#[trigger] cs[i]).index != (
            #[trigger] cs[j]).index,
    decreases cs.len(),
{
    if cs.len() > 0 {
        let rest = cs.drop_last();
        lemma_signers_distinct(rest);
        assert forall|i: int| 0 <= i < cs.len() implies (#[trigger] cs[i]).index != 0 by {
            if i < rest.len() {
                assert(rest[i] == cs[i]);
            }
        }
        assert forall|i: int, j: int| 0 <= i < cs.len() && 0 <= j < cs.len() && i != j implies (
        #[trigger] cs[i]).index != (#[trigger] cs[j]).index by {
            let ids = commitment_indices(rest);
            if i < rest.len() && j < rest.len() {
                assert(rest[i] == cs[i] && rest[j] == cs[j]);
            } else if i < rest.len() {
                assert(ids[i] == cs[i].index);
            } else {
                assert(ids[j] == cs[j].index);
            }
        }
    }
}

/// The commitments of a map, in ascending order of their keys.
pub open spec fn in_key_order<P: OsstPoint>(m: Map<u32, SigningCommitments<P>>) -> Seq<
    SigningCommitments<P>,
> {
    Seq::new(ascending_set(m.dom()).len(), |i: int| m[ascending_set(m.dom())[i]])
}

/// Every commitment of a map is kept under its index, which is not zero.
pub open spec fn is_indexed<P: OsstPoint>(m: Map<u32, SigningCommitments<P>>) -> bool {
    forall|k: u32| #[trigger] m.contains_key(k) ==> k != 0 && m[k].index == k
}

/// The commitments of a map are in ascending order of their indices.
proof fn lemma_key_order<P: OsstPoint>(m: Map<u32, SigningCommitments<P>>)
    requires
        m.dom().finite(),
        is_indexed(m),
    ensures
        commitment_indices(in_key_order(m)) == ascending_set(m.dom()),
        ascending(commitment_indices(in_key_order(m))),
        in_key_order(m).len() == m.dom().len(),
        forall|k: u32|
            #[trigger] m.contains_key(k) <==> commitment_indices(in_key_order(m)).contains(k),
{
    lemma_ascending_set(m.dom());
    let keys = ascending_set(m.dom());
    assert forall|i: int| 0 <= i < keys.len() implies in_key_order(m)[i].index == keys[i] by {
        assert(keys.contains(keys[i]));
        assert(m.contains_key(keys[i]));
    }
    assert(commitment_indices(in_key_order(m)) =~= keys);
}

/// A map of the commitments of a list holds the same signers.
proof fn lemma_same_signers<P: OsstPoint>(
    m: Map<u32, SigningCommitments<P>>,
    cs: Seq<SigningCommitments<P>>,
)
    requires
        m.dom().finite(),
        is_indexed(m),
        signers_error(cs) is None,
        forall|i: int|
            0 <= i < cs.len() ==> m.contains_key((#[trigger] cs[i]).index) && m[cs[i].index]
                == cs[i],
        forall|k: u32| #[trigger]
            m.contains_key(k) ==> exists|i: int| 0 <= i < cs.len() && (#[trigger] cs[i]).index == k,
    ensures
        signer_views(in_key_order(m)).to_multiset() == signer_views(cs).to_multiset(),
{
    broadcast use vstd::seq_lib::group_to_multiset_ensures;

    let o = in_key_order(m);
    let (a, b) = (signer_views(o), signer_views(cs));
    let keys = ascending_set(m.dom());
    lemma_key_order(m);
    lemma_signers_distinct(cs);
    assert forall|i: int, j: int| 0 <= i < a.len() && 0 <= j < a.len() && i != j implies a[i]
        != a[j] by {
        let ids = commitment_indices(o);
        if i < j {
            assert(ids[i] < ids[j]);
        } else {
            assert(ids[j] < ids[i]);
        }
        assert(a[i].index == ids[i] && a[j].index == ids[j]);
    }
    assert forall|i: int, j: int| 0 <= i < b.len() && 0 <= j < b.len() && i != j implies b[i]
        != b[j] by {
        assert(b[i].index == cs[i].index && b[j].index == cs[j].index);
    }
    a.lemma_multiset_has_no_duplicates();
    b.lemma_multiset_has_no_duplicates();
    assert forall|x: SignerView| a.contains(x) <==> b.contains(x) by {
        if a.contains(x) {
            let i = choose|i: int| 0 <= i < a.len() && a[i] == x;
            assert(commitment_indices(o).contains(commitment_indices(o)[i]));
            assert(m.contains_key(keys[i]));
            let k = choose|k: int| 0 <= k < cs.len() && (#[trigger] cs[k]).index == keys[i];
            assert(b[k] == x);
        }
        if b.contains(x) {
            let k = choose|k: int| 0 <= k < b.len() && b[k] == x;
            assert(m.contains_key(cs[k].index));
            let i = choose|i: int| 0 <= i < keys.len() && keys[i] == cs[k].index;
            assert(a[i] == x);
        }
    }
    assert forall|x: SignerView| a.to_multiset().count(x) == b.to_multiset().count(x) by {
        assert(a.contains(x) <==> a.to_multiset().count(x) > 0);
        assert(b.contains(x) <==> b.to_multiset().count(x) > 0);
        if a.contains(x) {
            assert(a.to_multiset().contains(x) && b.to_multiset().contains(x));
        }
    }
    assert(a.to_multiset() =~= b.to_multiset());
}

/// The commitments of a map, in ascending order of their keys.
fn list_in_order<P: OsstPoint>(m: &BTreeMap<u32, SigningCommitments<P>>) -> (r: Vec<
    SigningCommitments<P>,
>)
    ensures
        r@ == in_key_order(m@),
{
    let values = m.values();
    let ghost items = vstd::std_specs::iter::IteratorSpec::remaining(&values);
    let ghost keys = choose|t: Seq<u32>|
        #[trigger] vstd::std_specs::btree::increasing_seq(t) && t.to_set() == m@.dom() && items.len()
            == t.len() && forall|i: int| 0 <= i < t.len() ==> *(#[trigger] items[i]) == m@[t[i]];
    proof {
        assert(exists|t: Seq<u32>|
            #[trigger] vstd::std_specs::btree::increasing_seq(t) && t.to_set() == m@.dom()
                && items.len() == t.len() && forall|i: int|
                0 <= i < t.len() ==> *(#[trigger] items[i]) == m@[t[i]]);
        lemma_increasing(keys);
        lemma_ascending_set_unique(keys, m@.dom());
    }
    let mut out: Vec<SigningCommitments<P>> = Vec::new();
    for c in it: values
        invariant
            it.seq() == items,
            out@.len() == it.index(),
            forall|j: int| 0 <= j < it.index() ==> out@[j] == *(#[trigger] items[j]),
    {
        out.push(*c);
    }
    assert forall|i: int| 0 <= i < out@.len() implies out@[i] == in_key_order(m@)[i] by {
        assert(*items[i] == m@[keys[i]]);
    }
    assert(out@ =~= in_key_order(m@));
    out
}

/// Encodes commitments for the binding factors, in the order given.
pub fn encode_commitments<P: OsstPoint>(commitments: &[SigningCommitments<P>]) -> (r: Vec<u8>)
    ensures
        r@ == signers_bytes::<P>(signer_views(commitments@)),
        are_encodable::<P>(signer_views(commitments@)),
{
    let ghost v = signer_views(commitments@);
    let mut buf: Vec<u8> = Vec::new();
    let mut i: usize = 0;
    assert(v.subrange(0, 0).len() == 0);
    while i < commitments.len()
        invariant
            i <= commitments@.len(),
            v == signer_views(commitments@),
            buf@ == signers_bytes::<P>(v.subrange(0, i as int)),
            forall|j: int|
                0 <= j < i ==> has_encoding::<P>((#[trigger] v[j]).hiding) && has_encoding::<P>(
                    v[j].binding,
                ),
        decreases commitments@.len() - i,
    {
        commitments[i].put(&mut buf);
        proof {
            assert(v.subrange(0, i as int + 1).drop_last() =~= v.subrange(0, i as int));
            assert(v.subrange(0, i as int + 1).last() == commitments@[i as int]@);
        }
        i += 1;
    }
    assert(v.subrange(0, i as int) =~= v);
    buf
}

/// Computes the binding factor of a signer.
fn compute_binding_factor<P: OsstPoint>(
    index: u32,
    group_pubkey: &P,
    message: &[u8],
    encoded_commitments: &[u8],
) -> (r: P::Scalar)
    ensures
        r.val() == hash_value::<P::Scalar>(
            binding_input::<P>(group_pubkey.log(), message@, encoded_commitments@, index),
        ),
        has_encoding::<P>(group_pubkey.log()),
{
    let mut h: Vec<u8> = Vec::new();
    put_slice(&mut h, &BINDING_DOMAIN);
    let y = group_pubkey.compress_vec();
    put_slice(&mut h, &y);
    put_len(&mut h, message.len());
    put_slice(&mut h, message);
    put_len(&mut h, encoded_commitments.len());
    put_slice(&mut h, encoded_commitments);
    put_u32(&mut h, index);
    assert(h@ =~= binding_input::<P>(group_pubkey.log(), message@, encoded_commitments@, index));
    hash_to_scalar::<P::Scalar>(&h)
}

/// Computes the Schnorr challenge.
fn compute_challenge<P: OsstPoint>(
    group_commitment: &P,
    group_pubkey: &P,
    message: &[u8],
) -> (r: P::Scalar)
    ensures
        r.val() == challenge_value::<P>(group_commitment.log(), group_pubkey.log(), message@),
        has_encoding::<P>(group_commitment.log()),
        has_encoding::<P>(group_pubkey.log()),
{
    let mut h: Vec<u8> = Vec::new();
    put_slice(&mut h, &CHALLENGE_DOMAIN);
    let r = group_commitment.compress_vec();
    put_slice(&mut h, &r);
    let y = group_pubkey.compress_vec();
    put_slice(&mut h, &y);
    put_slice(&mut h, message);
    assert(h@ =~= challenge_input::<P>(group_commitment.log(), group_pubkey.log(), message@));
    hash_to_scalar::<P::Scalar>(&h)
}

impl<P: OsstPoint> View for SigningPackage<P> {
    type V = PackageView;

    closed spec fn view(&self) -> PackageView {
        PackageView { message: self.message@, signers: signer_views(in_key_order(self.commitments@)) }
    }
}

impl<P: OsstPoint> SigningPackage<P> {
    /// What a package keeps.
    pub closed spec fn wf(&self) -> bool {
        &&& self@.wf()
        &&& is_indexed(self.commitments@)
        &&& self.encoded_commitments@ == signers_bytes::<P>(self@.signers)
        &&& self@.is_encodable::<P>()
    }

    /// A package's signers are a nonempty set, in ascending order, and have encodings.
    pub proof fn lemma_wf(&self)
        requires
            self.wf(),
        ensures
            self@.wf(),
            self@.is_encodable::<P>(),
    {
    }

    /// Constructs a signing package from a message and collected commitments.
    ///
    /// # Errors
    ///
    /// For the first commitment at fault [`OsstError::InvalidIndex`] if its index
    /// is 0 and [`OsstError::DuplicateIndex`] if it occurred before;
    /// [`OsstError::EmptyContributions`] if there is no commitment.
    pub fn new(message: Vec<u8>, commitments: Vec<SigningCommitments<P>>) -> (r: Result<
        Self,
        OsstError,
    >)
        ensures
            r is Ok <==> signers_error(commitments@) is None && commitments@.len() > 0,
            r matches Ok(p) ==> p.wf() && p@.message == message@ && p@.signers.to_multiset()
                == signer_views(commitments@).to_multiset(),
            r matches Err(e) ==> if signers_error(commitments@) is Some {
                signers_error(commitments@) == Some(e)
            } else {
                e == OsstError::EmptyContributions
            },
    {
        let mut map: BTreeMap<u32, SigningCommitments<P>> = BTreeMap::new();
        let mut i: usize = 0;
        while i < commitments.len()
            invariant
                i <= commitments@.len(),
                i > 0 ==> map@.dom().len() > 0,
                signers_error(commitments@.subrange(0, i as int)) is None,
                is_indexed(map@),
                forall|j: int|
                    0 <= j < i ==> map@.contains_key((#[trigger] commitments@[j]).index)
                        && map@[commitments@[j].index] == commitments@[j],
                forall|k: u32| #[trigger]
                    map@.contains_key(k) ==> exists|j: int|
                        0 <= j < i && (#[trigger] commitments@[j]).index == k,
            decreases commitments@.len() - i,
        {
            let c = commitments[i];
            let ghost head = commitments@.subrange(0, i as int);
            let ghost next = commitments@.subrange(0, i as int + 1);
            proof {
                assert(next.drop_last() =~= head);
                assert(next.last() == c);
            }
            if c.index == 0 {
                proof {
                    lemma_signers_error(commitments@, (i + 1) as nat);
                }
                return Err(OsstError::InvalidIndex);
            }
            let taken = map.contains_key(&c.index);
            proof {
                let ids = commitment_indices(head);
                if taken {
                    let j = choose|j: int| 0 <= j < i && (#[trigger] commitments@[j]).index
                        == c.index;
                    assert(ids[j] == c.index);
                }
                if ids.contains(c.index) {
                    let j = choose|j: int| 0 <= j < ids.len() && ids[j] == c.index;
                    assert(map@.contains_key(commitments@[j].index));
                }
            }
            if taken {
                proof {
                    lemma_signers_error(commitments@, (i + 1) as nat);
                }
                return Err(OsstError::DuplicateIndex(c.index));
            }
            let ghost before = map@;
            map.insert(c.index, c);
            proof {
                assert(map@ == before.insert(c.index, c));
                assert forall|j: int| 0 <= j < i + 1 implies map@.contains_key(
                    (#[trigger] commitments@[j]).index,
                ) && map@[commitments@[j].index] == commitments@[j] by {
                    if j < i {
                        assert(before.contains_key(commitments@[j].index));
                    }
                }
                assert forall|k: u32| #[trigger] map@.contains_key(k) implies exists|j: int|
                    0 <= j < i + 1 && (#[trigger] commitments@[j]).index == k by {
                    if k == c.index {
                        assert(commitments@[i as int].index == k);
                    } else {
                        assert(before.contains_key(k));
                    }
                }
                assert(map@.dom().contains(c.index));
            }
            i += 1;
        }
        assert(commitments@.subrange(0, i as int) =~= commitments@);
        if map.is_empty() {
            return Err(OsstError::EmptyContributions);
        }
        let sorted = list_in_order::<P>(&map);
        let encoded = encode_commitments::<P>(&sorted);
        let p = SigningPackage { message, commitments: map, encoded_commitments: encoded };
        proof {
            let m = p.commitments@;
            lemma_key_order(m);
            lemma_same_signers(m, commitments@);
            assert(p@.indices() =~= commitment_indices(sorted@));
            assert(!m.contains_key(0));
            assert(p.message.len() <= u64::MAX && p.encoded_commitments.len() <= u64::MAX);
        }
        Ok(p)
    }

    /// The message being signed.
    pub fn message(&self) -> (r: &[u8])
        ensures
            r@ == self@.message,
    {
        &self.message
    }

    /// Number of signers in this session.
    pub fn num_signers(&self) -> (r: usize)
        ensures
            r == self@.signers.len(),
    {
        proof {
            lemma_ascending_set(self.commitments@.dom());
        }
        self.commitments.len()
    }

    /// Signer indices in ascending order.
    pub fn signer_indices(&self) -> (r: Vec<u32>)
        ensures
            r@ == self@.indices(),
    {
        let sorted = list_in_order::<P>(&self.commitments);
        let mut out: Vec<u32> = Vec::new();
        let mut i: usize = 0;
        while i < sorted.len()
            invariant
                i <= sorted@.len(),
                sorted@ == in_key_order(self.commitments@),
                out@ == self@.indices().subrange(0, i as int),
            decreases sorted@.len() - i,
        {
            out.push(sorted[i].index);
            i += 1;
            assert(out@ =~= self@.indices().subrange(0, i as int));
        }
        assert(self@.indices().subrange(0, i as int) =~= self@.indices());
        out
    }

    /// A signer's commitments by index.
    pub fn get_commitments(&self, index: u32) -> (r: Option<&SigningCommitments<P>>)
        requires
            self.wf(),
        ensures
            r is Some <==> self@.has(index),
            r matches Some(c) ==> c.index == index && c@ == self@.signer(index),
    {
        proof {
            let m = self.commitments@;
            lemma_key_order(m);
            assert(self@.indices() =~= commitment_indices(in_key_order(m)));
            if m.contains_key(index) {
                let k = self@.indices().index_of(index);
                assert(self@.indices().contains(index));
                assert(in_key_order(m)[k] == m[index]);
            }
        }
        self.commitments.get(&index)
    }

    /// The binding factor of a signer.
    ///
    /// The group key must come from the caller's own key material: a package is
    /// shaped by a coordinator, and a key read out of it would be the
    /// coordinator's assertion.
    pub fn binding_factor(&self, index: u32, group_pubkey: &P) -> (r: P::Scalar)
        requires
            self.wf(),
        ensures
            r.val() == self@.binding_factor::<P>(index, group_pubkey.log()),
            has_encoding::<P>(group_pubkey.log()),
    {
        compute_binding_factor::<P>(
            index,
            group_pubkey,
            &self.message,
            &self.encoded_commitments,
        )
    }

    /// The group commitment: the sum of `D + rho E` over the signers.
    ///
    /// The group key must come from the caller's own key material, see
    /// [`binding_factor`](Self::binding_factor).
    pub fn group_commitment(&self, group_pubkey: &P) -> (r: P)
        requires
            self.wf(),
        ensures
            r.log() == self@.group_commitment::<P>(group_pubkey.log()),
    {
        let ghost n = ord::<P>();
        let ghost v = self@.signers;
        let ghost rhos = self@.binding_factors::<P>(group_pubkey.log());
        proof {
            <P::Scalar as OsstScalar>::lemma_order();
            lemma_small_mod(0, n as nat);
            assert(v.subrange(0, 0).len() == 0);
        }
        let sorted = list_in_order::<P>(&self.commitments);
        let mut r = P::identity();
        let mut i: usize = 0;
        while i < sorted.len()
            invariant
                i <= sorted@.len(),
                sorted@ == in_key_order(self.commitments@),
                self.wf(),
                n == ord::<P>(),
                n > 0,
                v == self@.signers,
                v.len() == sorted@.len(),
                rhos == self@.binding_factors::<P>(group_pubkey.log()),
                r.log() == commitment_sum(v.subrange(0, i as int), rhos.subrange(0, i as int)) % n,
            decreases sorted@.len() - i,
        {
            let c = sorted[i];
            let rho = self.binding_factor(c.index, group_pubkey);
            let bound = c.binding.mul_scalar(&rho);
            r = r.add(&c.hiding);
            r = r.add(&bound);
            proof {
                let (v1, r1) = (v.subrange(0, i as int), rhos.subrange(0, i as int));
                let (v2, r2) = (v.subrange(0, i as int + 1), rhos.subrange(0, i as int + 1));
                assert(v2.drop_last() =~= v1);
                assert(r2.drop_last() =~= r1);
                assert(v2.last() == c@);
                assert(r2.last() == rho.val());
                let (h, b, p) = (c.hiding.log(), c.binding.log(), rho.val());
                let s = commitment_sum(v1, r1);
                assert(b * p == p * b) by (nonlinear_arith);
                lemma_mod_add(s, h, n);
                lemma_mod_add(s + h, p * b, n);
            }
            i += 1;
        }
        assert(v.subrange(0, i as int) =~= v);
        assert(rhos.subrange(0, i as int) =~= rhos);
        r
    }

    /// The Schnorr challenge.
    pub fn challenge(&self, group_commitment: &P, group_pubkey: &P) -> (r: P::Scalar)
        ensures
            r.val() == challenge_value::<P>(
                group_commitment.log(),
                group_pubkey.log(),
                self@.message,
            ),
    {
        compute_challenge::<P>(group_commitment, group_pubkey, &self.message)
    }
}

// ---------------------------------------------------------------------------
// Signature shares and signatures
// ---------------------------------------------------------------------------

/// A single signer's share of the aggregate signature.
pub struct SignatureShare<S: OsstScalar> {
    /// Signer index.
    pub index: u32,
    /// Partial response.
    pub response: S,
}

/// The share that thirty-six bytes encode: its index and response.
pub open spec fn parse_share<S: OsstScalar>(bytes: Seq<u8>) -> Result<(u32, int), OsstError> {
    if le_value(bytes.subrange(0, 4)) == 0 {
        Err(OsstError::InvalidIndex)
    } else {
        match decode_scalar::<S>(bytes.subrange(4, 36)) {
            Some(z) => Ok((le_value(bytes.subrange(0, 4)) as u32, z)),
            None => Err(OsstError::InvalidResponse),
        }
    }
}

impl<S: OsstScalar> SignatureShare<S> {
    /// Text for debugging, without the response.
    pub fn debug_text(&self) -> (r: String)
        ensures
            r@ == "SignatureShare { index: "@ + decimal(self.index as nat)
                + ", response: \"[REDACTED]\" }"@,
    {
        let mut out = String::new();
        put_text(&mut out, "SignatureShare { index: ");
        put_decimal(&mut out, self.index as u64);
        put_text(&mut out, ", response: \"[REDACTED]\" }");
        out
    }

    /// Serializes: the index in four bytes, then the response. What is written
    /// reads back as what it was.
    pub fn to_bytes(&self) -> (r: [u8; 36])
        ensures
            r@ == le_bytes(self.index as int, 4) + S::repr(self.response.val()),
            self.index != 0 ==> parse_share::<S>(r@) == Ok::<(u32, int), OsstError>(
                (self.index, self.response.val()),
            ),
    {
        let mut buf: Vec<u8> = Vec::new();
        put_u32(&mut buf, self.index);
        let z = self.response.to_bytes();
        put_slice(&mut buf, &z);
        proof {
            self.response.lemma_val();
            S::lemma_repr(self.response.val());
            lemma_byte_bounds();
            lemma_le_bytes(self.index as int, 4);
            assert(buf@.subrange(0, 4) =~= le_bytes(self.index as int, 4));
            assert(buf@.subrange(4, 36) =~= S::repr(self.response.val()));
        }
        let mut out: [u8; 36] = [0u8; 36];
        let mut i: usize = 0;
        while i < 36
            invariant
                i <= 36,
                buf@.len() == 36,
                forall|j: int| 0 <= j < i ==> out@[j] == buf@[j],
            decreases 36 - i,
        {
            out[i] = buf[i];
            i += 1;
        }
        assert(out@ =~= buf@);
        out
    }

    /// Deserializes. What is read is written as it was.
    ///
    /// # Errors
    ///
    /// [`OsstError::InvalidIndex`] if the index is 0,
    /// [`OsstError::InvalidResponse`] if the response is not canonical.
    pub fn from_bytes(bytes: &[u8; 36]) -> (r: Result<Self, OsstError>)
        ensures
            r matches Ok(s) ==> parse_share::<S>(bytes@) == Ok::<(u32, int), OsstError>(
                (s.index, s.response.val()),
            ) && bytes@ == le_bytes(s.index as int, 4) + S::repr(s.response.val()),
            r matches Err(e) ==> parse_share::<S>(bytes@) == Err::<(u32, int), OsstError>(e),
    {
        proof {
            if parse_share::<S>(bytes@) is Ok {
                law_share_bytes_canonical::<S>(bytes@);
            }
        }
        let index = get_u32(bytes, 0);
        if index == 0 {
            return Err(OsstError::InvalidIndex);
        }
        let resp_bytes = get_array32(bytes, 4);
        match S::from_canonical_bytes(&resp_bytes) {
            Some(response) => Ok(SignatureShare { index, response }),
            None => Err(OsstError::InvalidResponse),
        }
    }
}

/// Aggregate Schnorr signature, indistinguishable from a single signer's.
#[derive(Clone, Copy, Debug)]
pub struct Signature<P: OsstPoint> {
    /// Group commitment.
    pub r: P,
    /// Aggregate response.
    pub z: P::Scalar,
}

/// The signature that `bytes` encode: its group commitment and response.
pub open spec fn parse_signature<P: OsstPoint>(bytes: Seq<u8>) -> Result<(int, int), OsstError> {
    let n = P::COMPRESSED_SIZE as int;
    if bytes.len() != n + 32 {
        Err(OsstError::InvalidCommitment)
    } else {
        match P::decode(bytes.subrange(0, n)) {
            None => Err(OsstError::InvalidCommitment),
            Some(r) => match decode_scalar::<P::Scalar>(bytes.subrange(n, n + 32)) {
                None => Err(OsstError::InvalidResponse),
                Some(z) => Ok((r, z)),
            },
        }
    }
}

impl<P: OsstPoint> Signature<P> {
    /// Byte length of the serialized form.
    pub fn byte_size() -> (r: usize)
        ensures
            r == P::COMPRESSED_SIZE + 32,
    {
        proof {
            P::lemma_size();
        }
        P::COMPRESSED_SIZE + 32
    }

    /// Serializes: the group commitment, then the response. What is written
    /// reads back as what it was.
    pub fn to_bytes(&self) -> (r: Vec<u8>)
        ensures
            r@ == P::encoding(self.r.log()) + <P::Scalar as OsstScalar>::repr(self.z.val()),
            r@.len() == P::COMPRESSED_SIZE + 32,
            parse_signature::<P>(r@) == Ok::<(int, int), OsstError>((self.r.log(), self.z.val())),
    {
        let mut buf: Vec<u8> = Vec::new();
        let e = self.r.compress_vec();
        put_slice(&mut buf, &e);
        let z = self.z.to_bytes();
        put_slice(&mut buf, &z);
        proof {
            let n = P::COMPRESSED_SIZE as int;
            self.z.lemma_val();
            <P::Scalar as OsstScalar>::lemma_repr(self.z.val());
            assert(buf@ =~= e@ + z@);
            assert(buf@.subrange(0, n) =~= e@);
            assert(buf@.subrange(n, n + 32) =~= z@);
        }
        buf
    }

    /// Deserializes. What is read is written as it was.
    ///
    /// # Errors
    ///
    /// [`OsstError::InvalidCommitment`] if the length is wrong or the group
    /// commitment is no point, [`OsstError::InvalidResponse`] if the response is
    /// not canonical.
    pub fn from_bytes(bytes: &[u8]) -> (r: Result<Self, OsstError>)
        ensures
            r matches Ok(s) ==> parse_signature::<P>(bytes@) == Ok::<(int, int), OsstError>(
                (s.r.log(), s.z.val()),
            ) && bytes@ == P::encoding(s.r.log()) + <P::Scalar as OsstScalar>::repr(s.z.val()),
            r matches Err(e) ==> parse_signature::<P>(bytes@) == Err::<(int, int), OsstError>(e),
    {
        proof {
            P::lemma_size();
            if parse_signature::<P>(bytes@) is Ok {
                law_signature_bytes_canonical::<P>(bytes@);
            }
        }
        if bytes.len() != Self::byte_size() {
            return Err(OsstError::InvalidCommitment);
        }
        let n: usize = P::COMPRESSED_SIZE;
        let e = slice_to_vec(bytes, 0, n);
        let r = match P::decompress(&e) {
            Some(p) => p,
            None => return Err(OsstError::InvalidCommitment),
        };
        let z_bytes = get_array32(bytes, n);
        match <P::Scalar as OsstScalar>::from_canonical_bytes(&z_bytes) {
            Some(z) => Ok(Signature { r, z }),
            None => Err(OsstError::InvalidResponse),
        }
    }
}

// ---------------------------------------------------------------------------
// Protocol
// ---------------------------------------------------------------------------

/// The commitments that a nonce pair makes for a signer.
pub fn commitments_of<P: OsstPoint>(index: u32, nonces: &Nonces<P::Scalar>) -> (r: Result<
    SigningCommitments<P>,
    OsstError,
>)
    ensures
        r is Ok <==> index != 0,
        r matches Ok(c) ==> c@ == (SignerView {
            index,
            hiding: nonces@.hiding,
            binding: nonces@.binding,
        }),
        r matches Err(e) ==> e == OsstError::InvalidIndex,
{
    if index == 0 {
        return Err(OsstError::InvalidIndex);
    }
    Ok(
        SigningCommitments {
            index,
            hiding: base_mul::<P>(&nonces.hiding),
            binding: base_mul::<P>(&nonces.binding),
        },
    )
}

/// Round 1: samples nonces, returns commitments for broadcast.
///
/// The nonces must be passed to [`sign`] for exactly one signing session.
///
/// # Errors
///
/// [`OsstError::InvalidIndex`] if the index is 0.
pub fn commit<P: OsstPoint>(index: u32, rng: &mut OsRng) -> (r: Result<
    (Nonces<P::Scalar>, SigningCommitments<P>),
    OsstError,
>)
    ensures
        r is Ok <==> index != 0,
        r matches Ok((k, c)) ==> c@ == (SignerView {
            index,
            hiding: k@.hiding,
            binding: k@.binding,
        }),
        r matches Err(e) ==> e == OsstError::InvalidIndex,
{
    if index == 0 {
        return Err(OsstError::InvalidIndex);
    }
    let hiding = <P::Scalar as OsstScalar>::random(rng);
    let binding = <P::Scalar as OsstScalar>::random(rng);
    let nonces = Nonces { hiding, binding };
    match commitments_of::<P>(index, &nonces) {
        Ok(commitments) => Ok((nonces, commitments)),
        Err(e) => Err(e),
    }
}

/// The response a signer owes: the one that its commitments, the binding factor,
/// its Lagrange coefficient and the challenge give for a secret.
pub open spec fn expected_response<P: OsstPoint>(
    v: PackageView,
    index: u32,
    secret: int,
    group_pubkey: int,
) -> int {
    response_value(
        NoncesView { hiding: v.signer(index).hiding, binding: v.signer(index).binding },
        v.binding_factor::<P>(index, group_pubkey),
        v.lambda(index, ord::<P>()),
        v.challenge::<P>(group_pubkey),
        secret,
        ord::<P>(),
    )
}

/// Why a signer does not sign, if it does not.
pub open spec fn sign_error(
    v: PackageView,
    nonces: NoncesView,
    share: SecretShareView,
) -> Option<OsstError> {
    if !v.has(share.index) {
        Some(OsstError::InvalidIndex)
    } else if v.signer(share.index).hiding != nonces.hiding || v.signer(share.index).binding
        != nonces.binding {
        Some(OsstError::UnexpectedCommitment)
    } else {
        None
    }
}

/// Round 2: produces a signature share. Consumes the nonces, which are overwritten
/// whatever comes of it.
///
/// # Errors
///
/// [`OsstError::InvalidIndex`] if this signer's index is not in the package,
/// [`OsstError::UnexpectedCommitment`] if the package's commitment for it is not
/// the one that these nonces produced.
pub fn sign<P: OsstPoint>(
    package: &SigningPackage<P>,
    nonces: Nonces<P::Scalar>,
    share: &SecretShare<P::Scalar>,
    group_pubkey: &P,
) -> (r: Result<SignatureShare<P::Scalar>, OsstError>)
    requires
        package.wf(),
    ensures
        r is Ok <==> sign_error(package@, nonces@, share@) is None,
        r matches Ok(s) ==> s.index == share@.index && s.response.val() == expected_response::<P>(
            package@,
            share@.index,
            share@.secret,
            group_pubkey.log(),
        ),
        r matches Err(e) ==> sign_error(package@, nonces@, share@) == Some(e),
{
    let mut nonces = nonces;
    let r = sign_once::<P>(package, &nonces, share, group_pubkey);
    nonces.zeroize();
    r
}

/// The signature share of a nonce pair.
fn sign_once<P: OsstPoint>(
    package: &SigningPackage<P>,
    nonces: &Nonces<P::Scalar>,
    share: &SecretShare<P::Scalar>,
    group_pubkey: &P,
) -> (r: Result<SignatureShare<P::Scalar>, OsstError>)
    requires
        package.wf(),
    ensures
        r is Ok <==> sign_error(package@, nonces@, share@) is None,
        r matches Ok(s) ==> s.index == share@.index && s.response.val() == expected_response::<P>(
            package@,
            share@.index,
            share@.secret,
            group_pubkey.log(),
        ),
        r matches Err(e) ==> sign_error(package@, nonces@, share@) == Some(e),
{
    let index = share.index();
    let mine = match package.get_commitments(index) {
        Some(c) => c,
        None => return Err(OsstError::InvalidIndex),
    };
    if !nonces.matches_commitments::<P>(mine) {
        return Err(OsstError::UnexpectedCommitment);
    }
    let rho = package.binding_factor(index, group_pubkey);
    let group_commitment = package.group_commitment(group_pubkey);
    let challenge = package.challenge(&group_commitment, group_pubkey);
    let indices = package.signer_indices();
    let lagrange = match compute_lagrange_coefficients::<P::Scalar>(&indices) {
        Ok(l) => l,
        Err(e) => {
            assert(indices@.no_duplicates());
            return Err(e)
        },
    };
    match index_position(&indices, index) {
        Some(k) => {
            assert(vals(lagrange@)[k as int] == lagrange@[k as int].val());
            let response = nonces.respond(&rho, &lagrange[k], &challenge, share.scalar());
            Ok(SignatureShare { index, response })
        },
        None => Err(OsstError::InvalidIndex),
    }
}

/// [`sign`] with the message given as an epoch-bound [`SigningContext`].
///
/// # Errors
///
/// [`OsstError::MessageMismatch`] unless the package was built over the
/// context's encoding; otherwise what [`sign`] gives.
pub fn sign_with_context<P: OsstPoint>(
    ctx: &SigningContext<'_>,
    package: &SigningPackage<P>,
    nonces: Nonces<P::Scalar>,
    share: &SecretShare<P::Scalar>,
    group_pubkey: &P,
) -> (r: Result<SignatureShare<P::Scalar>, OsstError>)
    requires
        package.wf(),
    ensures
        r is Ok <==> package@.message == ctx.encoding() && sign_error(package@, nonces@, share@)
            is None,
        r matches Ok(s) ==> s.index == share@.index && s.response.val() == expected_response::<P>(
            package@,
            share@.index,
            share@.secret,
            group_pubkey.log(),
        ),
        r matches Err(e) ==> if package@.message != ctx.encoding() {
            e == OsstError::MessageMismatch
        } else {
            sign_error(package@, nonces@, share@) == Some(e)
        },
{
    let approved = ctx.encode();
    if !bytes_eq(package.message(), &approved) {
        let mut nonces = nonces;
        nonces.zeroize();
        return Err(OsstError::MessageMismatch);
    }
    sign(package, nonces, share, group_pubkey)
}

/// Why a share is not taken into a signature, if it is not: its index is not in
/// the package or has no verifying share, or its response is not the one owed.
pub open spec fn share_error<P: OsstPoint>(
    v: PackageView,
    share: SignatureShare<P::Scalar>,
    group_pubkey: int,
    verifier_shares: Map<u32, P>,
) -> Option<OsstError> {
    if !v.has(share.index) || !verifier_shares.contains_key(share.index) {
        Some(OsstError::InvalidIndex)
    } else if share.response.val() != expected_response::<P>(
        v,
        share.index,
        verifier_shares[share.index].log(),
        group_pubkey,
    ) {
        Some(OsstError::InvalidResponse)
    } else {
        None
    }
}

/// The error of the first share at fault.
pub open spec fn shares_error<P: OsstPoint>(
    v: PackageView,
    shares: Seq<SignatureShare<P::Scalar>>,
    group_pubkey: int,
    verifier_shares: Map<u32, P>,
) -> Option<OsstError>
    decreases shares.len(),
{
    if shares.len() == 0 {
        None
    } else {
        match shares_error::<P>(v, shares.drop_last(), group_pubkey, verifier_shares) {
            Some(e) => Some(e),
            None => share_error::<P>(v, shares.last(), group_pubkey, verifier_shares),
        }
    }
}

proof fn lemma_shares_error<P: OsstPoint>(
    v: PackageView,
    shares: Seq<SignatureShare<P::Scalar>>,
    i: nat,
    group_pubkey: int,
    verifier_shares: Map<u32, P>,
)
    requires
        i <= shares.len(),
        shares_error::<P>(v, shares.subrange(0, i as int), group_pubkey, verifier_shares) is Some,
    ensures
        shares_error::<P>(v, shares, group_pubkey, verifier_shares) == shares_error::<P>(
            v,
            shares.subrange(0, i as int),
            group_pubkey,
            verifier_shares,
        ),
    decreases shares.len() - i,
{
    if i < shares.len() {
        assert(shares.subrange(0, i as int + 1).drop_last() =~= shares.subrange(0, i as int));
        lemma_shares_error::<P>(v, shares, i + 1, group_pubkey, verifier_shares);
    } else {
        assert(shares.subrange(0, i as int) =~= shares);
    }
}

/// The responses of some shares.
pub open spec fn responses<S: OsstScalar>(shares: Seq<SignatureShare<S>>) -> Seq<int> {
    Seq::new(shares.len(), |i: int| shares[i].response.val())
}

/// Why shares do not aggregate, if they do not.
pub open spec fn aggregate_error<P: OsstPoint>(
    v: PackageView,
    shares: Seq<SignatureShare<P::Scalar>>,
    group_pubkey: int,
    verifier_shares: Option<Map<u32, P>>,
) -> Option<OsstError> {
    if shares.len() < v.signers.len() {
        Some(
            OsstError::InsufficientContributions {
                got: shares.len() as usize,
                need: v.signers.len() as usize,
            },
        )
    } else {
        match verifier_shares {
            Some(m) => shares_error::<P>(v, shares, group_pubkey, m),
            None => if exists|i: int| 0 <= i < shares.len() && !v.has((#[trigger] shares[i]).index) {
                Some(OsstError::InvalidIndex)
            } else {
                None
            },
        }
    }
}

/// Aggregates signature shares into a standard Schnorr signature.
///
/// Where the verifying shares are given, each share is verified first.
///
/// # Errors
///
/// [`OsstError::InsufficientContributions`] if there are fewer shares than
/// signers; [`OsstError::InvalidIndex`] if a share is not in the package. Where the
/// verifying shares are given, for the first share at fault
/// [`OsstError::InvalidIndex`] if it is not in the package or has no verifying share,
/// and [`OsstError::InvalidResponse`] if it fails verification.
pub fn aggregate<P: OsstPoint>(
    package: &SigningPackage<P>,
    shares: &[SignatureShare<P::Scalar>],
    group_pubkey: &P,
    verifier_shares: Option<&BTreeMap<u32, P>>,
) -> (r: Result<Signature<P>, OsstError>)
    requires
        package.wf(),
    ensures
        ({
            let error = aggregate_error::<P>(
                package@,
                shares@,
                group_pubkey.log(),
                match verifier_shares {
                    Some(m) => Some(m@),
                    None => None,
                },
            );
            &&& r is Ok <==> error is None
            &&& r matches Err(e) ==> error == Some(e)
        }),
        r matches Ok(s) ==> s.r.log() == package@.group_commitment::<P>(group_pubkey.log())
            && s.z.val() == sum(responses(shares@)) % ord::<P>(),
{
    let ghost n = ord::<P>();
    let ghost v = package@;
    let ghost y = group_pubkey.log();
    proof {
        <P::Scalar as OsstScalar>::lemma_order();
    }
    if shares.len() < package.num_signers() {
        return Err(
            OsstError::InsufficientContributions { got: shares.len(), need: package.num_signers() },
        );
    }
    let group_commitment = package.group_commitment(group_pubkey);
    let challenge = package.challenge(&group_commitment, group_pubkey);
    if let Some(vshares) = verifier_shares {
        let indices = package.signer_indices();
        let lagrange = match compute_lagrange_coefficients::<P::Scalar>(&indices) {
            Ok(l) => l,
            Err(e) => {
                assert(indices@.no_duplicates());
                return Err(e)
            },
        };
        let mut i: usize = 0;
        assert(shares@.subrange(0, 0).len() == 0);
        while i < shares.len()
            invariant
                i <= shares@.len(),
                shares@.len() >= v.signers.len(),
                verifier_shares == Some(vshares),
                package.wf(),
                v == package@,
                y == group_pubkey.log(),
                n == ord::<P>(),
                n > 0,
                challenge.val() == v.challenge::<P>(y),
                indices@ == v.indices(),
                indices@.no_duplicates(),
                lagrange@.len() == v.signers.len(),
                vals(lagrange@) == coefficients(v.indices(), n),
                shares_error::<P>(v, shares@.subrange(0, i as int), y, vshares@) is None,
            decreases shares@.len() - i,
        {
            let share = &shares[i];
            let ghost next = shares@.subrange(0, i as int + 1);
            proof {
                assert(next.drop_last() =~= shares@.subrange(0, i as int));
                assert(next.last() == *share);
                if share_error::<P>(v, *share, y, vshares@) is Some {
                    lemma_shares_error::<P>(v, shares@, (i + 1) as nat, y, vshares@);
                }
            }
            let pos = match index_position(&indices, share.index) {
                Some(k) => k,
                None => return Err(OsstError::InvalidIndex),
            };
            let yi = match vshares.get(&share.index) {
                Some(p) => p,
                None => return Err(OsstError::InvalidIndex),
            };
            let rho = package.binding_factor(share.index, group_pubkey);
            let comm = match package.get_commitments(share.index) {
                Some(c) => c,
                None => return Err(OsstError::InvalidIndex),
            };
            let lhs = base_mul::<P>(&share.response);
            let rhs = comm.hiding.add(&comm.binding.mul_scalar(&rho)).add(
                &yi.mul_scalar(&lagrange[pos].mul(&challenge)),
            );
            proof {
                let (h, b, p) = (comm.hiding.log(), comm.binding.log(), rho.val());
                let (l, c, s) = (lagrange@[pos as int].val(), challenge.val(), yi.log());
                assert(vals(lagrange@)[pos as int] == l);
                assert(b * p == p * b) by (nonlinear_arith);
                lemma_mod_mul(s, l * c, n);
                assert(s * (l * c) == l * c * s) by (nonlinear_arith);
                lemma_mod_add(h, p * b, n);
                lemma_mod_add(h + p * b, l * c * s, n);
                assert(rhs.log() == expected_response::<P>(v, share.index, s, y));
            }
            if !lhs.equals(&rhs) {
                return Err(OsstError::InvalidResponse);
            }
            i += 1;
        }
        assert(shares@.subrange(0, i as int) =~= shares@);
    } else {
        let mut i: usize = 0;
        while i < shares.len()
            invariant
                i <= shares@.len(),
                shares@.len() >= v.signers.len(),
                verifier_shares is None,
                package.wf(),
                v == package@,
                forall|j: int| 0 <= j < i ==> v.has((#[trigger] shares@[j]).index),
            decreases shares@.len() - i,
        {
            if package.get_commitments(shares[i].index).is_none() {
                assert(!v.has(shares@[i as int].index));
                return Err(OsstError::InvalidIndex);
            }
            i += 1;
        }
    }
    let mut z = <P::Scalar as OsstScalar>::zero();
    let ghost zs = responses(shares@);
    let mut i: usize = 0;
    proof {
        lemma_small_mod(0, n as nat);
        assert(zs.subrange(0, 0).len() == 0);
    }
    while i < shares.len()
        invariant
            i <= shares@.len(),
            n == ord::<P>(),
            n > 0,
            zs == responses(shares@),
            z.val() == sum(zs.subrange(0, i as int)) % n,
        decreases shares@.len() - i,
    {
        z = z.add(&shares[i].response);
        proof {
            assert(zs.subrange(0, i as int + 1).drop_last() =~= zs.subrange(0, i as int));
            lemma_mod_add(sum(zs.subrange(0, i as int)), zs[i as int], n);
        }
        i += 1;
    }
    assert(zs.subrange(0, i as int) =~= zs);
    Ok(Signature { r: group_commitment, z })
}

/// A signature is valid: `z G = R + c Y`.
pub open spec fn is_valid_signature<P: OsstPoint>(
    group_pubkey: int,
    message: Seq<u8>,
    r: int,
    z: int,
) -> bool {
    z == (r + challenge_value::<P>(r, group_pubkey, message) * group_pubkey) % ord::<P>()
}

/// Verifies a standard Schnorr signature against a group public key.
pub fn verify_signature<P: OsstPoint>(
    group_pubkey: &P,
    message: &[u8],
    signature: &Signature<P>,
) -> (r: bool)
    ensures
        r == is_valid_signature::<P>(
            group_pubkey.log(),
            message@,
            signature.r.log(),
            signature.z.val(),
        ),
        has_encoding::<P>(signature.r.log()),
        has_encoding::<P>(group_pubkey.log()),
{
    let challenge = compute_challenge::<P>(&signature.r, group_pubkey, message);
    let lhs = base_mul::<P>(&signature.z);
    let rhs = signature.r.add(&group_pubkey.mul_scalar(&challenge));
    proof {
        <P::Scalar as OsstScalar>::lemma_order();
        let n = ord::<P>();
        let (y, c) = (group_pubkey.log(), challenge.val());
        assert(y * c == c * y) by (nonlinear_arith);
        lemma_mod_add(signature.r.log(), c * y, n);
    }
    lhs.equals(&rhs)
}

// ---------------------------------------------------------------------------
// Laws
// ---------------------------------------------------------------------------

/// The responses owed for the secrets `f(i)`, in the order of the signers.
spec fn owed<P: OsstPoint>(v: PackageView, f: Seq<int>, group_pubkey: int) -> spec_fn(u32) -> int {
    |i: u32| expected_response::<P>(v, i, poly(f, i as int) % ord::<P>(), group_pubkey)
}

/// The sum of the responses owed by the first signers.
proof fn lemma_owed<P: OsstPoint>(v: PackageView, f: Seq<int>, y: int, k: nat)
    requires
        v.wf(),
        k <= v.signers.len(),
        ord::<P>() > 0,
    ensures
        ({
            let n = ord::<P>();
            let secrets = Seq::new(v.signers.len(), |i: int| poly(f, v.indices()[i] as int) % n);
            eqm(
                sum_by(owed::<P>(v, f, y), v.indices().subrange(0, k as int)),
                commitment_sum(
                    v.signers.subrange(0, k as int),
                    v.binding_factors::<P>(y).subrange(0, k as int),
                ) + v.challenge::<P>(y) * dot(
                    coefficients(v.indices(), n).subrange(0, k as int),
                    secrets.subrange(0, k as int),
                ),
                n,
            )
        }),
    decreases k,
{
    let n = ord::<P>();
    let g = owed::<P>(v, f, y);
    let ids = v.indices();
    let rhos = v.binding_factors::<P>(y);
    let c = v.challenge::<P>(y);
    let l = coefficients(ids, n);
    let s = Seq::new(v.signers.len(), |i: int| poly(f, ids[i] as int) % n);
    if k == 0 {
        assert(ids.subrange(0, 0).len() == 0);
        assert(c * 0 == 0) by (nonlinear_arith);
    } else {
        let m = (k - 1) as nat;
        lemma_owed::<P>(v, f, y, m);
        let i = m as int;
        assert(ids.subrange(0, k as int) =~= ids.subrange(0, i).push(ids[i]));
        lemma_sum_by_push(g, ids.subrange(0, i), ids[i]);
        assert(v.signers.subrange(0, k as int).drop_last() =~= v.signers.subrange(0, i));
        assert(rhos.subrange(0, k as int).drop_last() =~= rhos.subrange(0, i));
        assert(l.subrange(0, k as int) =~= l.subrange(0, i).push(l[i]));
        assert(s.subrange(0, k as int) =~= s.subrange(0, i).push(s[i]));
        lemma_dot_push(l.subrange(0, i), s.subrange(0, i), l[i], s[i]);
        lemma_index_of(ids, i);
        let (h, b, p) = (v.signers[i].hiding, v.signers[i].binding, rhos[i]);
        let one = h + p * b + l[i] * c * s[i];
        assert(g(ids[i]) == one % n);
        lemma_eqm_mod(one, n);
        let cs = commitment_sum(v.signers.subrange(0, i), rhos.subrange(0, i));
        let d = dot(l.subrange(0, i), s.subrange(0, i));
        let before = sum_by(g, ids.subrange(0, i));
        lemma_eqm_add(before, cs + c * d, one % n, one, n);
        assert(cs + c * d + one == cs + h + p * b + c * (d + l[i] * s[i])) by (nonlinear_arith)
            requires
                one == h + p * b + l[i] * c * s[i],
        ;
    }
}

/// Honest shares aggregate to a valid signature: where the group key is a
/// polynomial's value at zero, there are at least as many signers as it has
/// coefficients, and the shares are, in any order, the responses the signers owe
/// for its values at their indices, the sum of the responses is valid with the
/// group commitment.
pub proof fn law_honest_signature_valid<P: OsstPoint>(
    v: PackageView,
    polynomial: Seq<int>,
    group_pubkey: int,
    shares: Seq<SignatureShare<P::Scalar>>,
)
    requires
        is_field(ord::<P>()),
        ord::<P>() > 0x1_0000_0000,
        v.wf(),
        0 < polynomial.len() <= v.signers.len(),
        group_pubkey == polynomial[0] % ord::<P>(),
        shares.len() == v.signers.len(),
        share_indices(shares).no_duplicates(),
        forall|i: int|
            0 <= i < shares.len() ==> v.has((#[trigger] shares[i]).index)
                && shares[i].response.val() == expected_response::<P>(
                v,
                shares[i].index,
                poly(polynomial, shares[i].index as int) % ord::<P>(),
                group_pubkey,
            ),
    ensures
        is_valid_signature::<P>(
            group_pubkey,
            v.message,
            v.group_commitment::<P>(group_pubkey),
            sum(responses(shares)) % ord::<P>(),
        ),
{
    let n = ord::<P>();
    let y = group_pubkey;
    let ids = v.indices();
    let g = owed::<P>(v, polynomial, y);
    let picked = share_indices(shares);
    // the shares are those of the signers, in some order
    assert(ids.no_duplicates());
    assert forall|i: int| 0 <= i < picked.len() implies ids.contains(#[trigger] picked[i]) by {
        assert(v.has(shares[i].index));
    }
    lemma_same_multiset(picked, ids);
    lemma_sum_permutation(g, picked, ids);
    assert(responses(shares) =~= Seq::new(picked.len(), |i: int| g(picked[i])));
    lemma_owed::<P>(v, polynomial, y, v.signers.len());
    assert(ids.subrange(0, ids.len() as int) =~= ids);
    let rhos = v.binding_factors::<P>(y);
    assert(v.signers.subrange(0, v.signers.len() as int) =~= v.signers);
    assert(rhos.subrange(0, rhos.len() as int) =~= rhos);
    let l = coefficients(ids, n);
    let s = Seq::new(v.signers.len(), |i: int| poly(polynomial, ids[i] as int) % n);
    assert(l.subrange(0, l.len() as int) =~= l);
    assert(s.subrange(0, s.len() as int) =~= s);
    // the weighted secrets add up to the group key
    assert forall|i: int| 0 <= i < ids.len() implies eqm(
        #[trigger] s[i],
        poly(polynomial, ids[i] as int),
        n,
    ) by {
        lemma_eqm_mod(poly(polynomial, ids[i] as int), n);
    }
    lemma_reconstruct(ids, s, polynomial, n);
    lemma_poly_zero(polynomial);
    lemma_eqm_mod(polynomial[0], n);
    let c = v.challenge::<P>(y);
    let cs = commitment_sum(v.signers, rhos);
    lemma_eqm_mul(c, c, dot(l, s), y, n);
    lemma_eqm_mod(cs, n);
    lemma_eqm_add(cs, cs % n, c * dot(l, s), c * y, n);
}

/// The indices of some shares.
pub open spec fn share_indices<S: OsstScalar>(shares: Seq<SignatureShare<S>>) -> Seq<u32> {
    Seq::new(shares.len(), |i: int| shares[i].index)
}

/// Verified shares aggregate to a valid signature: where the verifying shares
/// are a polynomial's values in the exponent and the group key its value at
/// zero, shares of distinct signers, one to a signer, that pass verification
/// have a valid sum.
pub proof fn law_verified_signature_valid<P: OsstPoint>(
    v: PackageView,
    polynomial: Seq<int>,
    group_pubkey: int,
    shares: Seq<SignatureShare<P::Scalar>>,
    verifier_shares: Map<u32, P>,
)
    requires
        is_field(ord::<P>()),
        ord::<P>() > 0x1_0000_0000,
        v.wf(),
        0 < polynomial.len() <= v.signers.len(),
        group_pubkey == polynomial[0] % ord::<P>(),
        shares.len() == v.signers.len(),
        share_indices(shares).no_duplicates(),
        forall|i: u32| #[trigger]
            verifier_shares.contains_key(i) ==> verifier_shares[i].log() == poly(
                polynomial,
                i as int,
            ) % ord::<P>(),
        aggregate_error::<P>(v, shares, group_pubkey, Some(verifier_shares)) is None,
    ensures
        is_valid_signature::<P>(
            group_pubkey,
            v.message,
            v.group_commitment::<P>(group_pubkey),
            sum(responses(shares)) % ord::<P>(),
        ),
{
    assert forall|i: int| 0 <= i < shares.len() implies v.has((#[trigger] shares[i]).index)
        && shares[i].response.val() == expected_response::<P>(
        v,
        shares[i].index,
        poly(polynomial, shares[i].index as int) % ord::<P>(),
        group_pubkey,
    ) by {
        lemma_no_share_error::<P>(v, shares, group_pubkey, verifier_shares, i);
    }
    law_honest_signature_valid::<P>(v, polynomial, group_pubkey, shares);
}

proof fn lemma_no_share_error<P: OsstPoint>(
    v: PackageView,
    shares: Seq<SignatureShare<P::Scalar>>,
    group_pubkey: int,
    verifier_shares: Map<u32, P>,
    i: int,
)
    requires
        shares_error::<P>(v, shares, group_pubkey, verifier_shares) is None,
        0 <= i < shares.len(),
    ensures
        share_error::<P>(v, shares[i], group_pubkey, verifier_shares) is None,
    decreases shares.len(),
{
    if i < shares.len() - 1 {
        lemma_no_share_error::<P>(v, shares.drop_last(), group_pubkey, verifier_shares, i);
        assert(shares.drop_last()[i] == shares[i]);
    }
}

/// An honest share passes verification under the verifying share of its secret.
pub proof fn law_honest_share_verifies<P: OsstPoint>(
    v: PackageView,
    nonces: NoncesView,
    share: SecretShareView,
    group_pubkey: int,
    response: SignatureShare<P::Scalar>,
    verifier_shares: Map<u32, P>,
)
    requires
        sign_error(v, nonces, share) is None,
        response.index == share.index,
        response.response.val() == expected_response::<P>(
            v,
            share.index,
            share.secret,
            group_pubkey,
        ),
        verifier_shares.contains_key(share.index),
        verifier_shares[share.index].log() == share.secret,
    ensures
        share_error::<P>(v, response, group_pubkey, verifier_shares) is None,
{
}

/// The input of the binding factor is injective: inputs with one encoding have
/// one group key encoding, one message, one commitment list and one index.
pub proof fn law_binding_input_injective<P: OsstPoint>(
    key_a: int,
    message_a: Seq<u8>,
    encoded_a: Seq<u8>,
    index_a: u32,
    key_b: int,
    message_b: Seq<u8>,
    encoded_b: Seq<u8>,
    index_b: u32,
)
    requires
        P::encoding(key_a).len() == P::encoding(key_b).len(),
        message_a.len() <= u64::MAX,
        message_b.len() <= u64::MAX,
        encoded_a.len() <= u64::MAX,
        encoded_b.len() <= u64::MAX,
        binding_input::<P>(key_a, message_a, encoded_a, index_a) == binding_input::<P>(
            key_b,
            message_b,
            encoded_b,
            index_b,
        ),
    ensures
        P::encoding(key_a) == P::encoding(key_b),
        message_a == message_b,
        encoded_a == encoded_b,
        index_a == index_b,
{
    lemma_byte_bounds();
    let (ia, ib) = (le_bytes(index_a as int, 4), le_bytes(index_b as int, 4));
    let (ta, tb) = (prefixed(encoded_a) + ia, prefixed(encoded_b) + ib);
    let (ma, mb) = (prefixed(message_a) + ta, prefixed(message_b) + tb);
    lemma_concat_split(
        BINDING_DOMAIN@,
        P::encoding(key_a) + ma,
        BINDING_DOMAIN@,
        P::encoding(key_b) + mb,
    );
    lemma_concat_split(P::encoding(key_a), ma, P::encoding(key_b), mb);
    lemma_prefixed_split(message_a, ta, message_b, tb);
    lemma_prefixed_split(encoded_a, ia, encoded_b, ib);
    lemma_le_bytes_injective(index_a as int, index_b as int, 4);
}

/// A signature share has one encoding: thirty-six bytes that are read as a share are
/// what the share is written as.
pub proof fn law_share_bytes_canonical<S: OsstScalar>(bytes: Seq<u8>)
    requires
        bytes.len() == 36,
        parse_share::<S>(bytes) is Ok,
    ensures
        parse_share::<S>(bytes) matches Ok((index, z)) && bytes == le_bytes(index as int, 4)
            + S::repr(z),
{
    let (head, tail) = (bytes.subrange(0, 4), bytes.subrange(4, 36));
    lemma_byte_bounds();
    lemma_le_value(head);
    S::lemma_unrepr(tail);
    assert(bytes =~= head + tail);
}

/// A signature has one encoding: bytes that are read as a signature are what the
/// signature is written as.
pub proof fn law_signature_bytes_canonical<P: OsstPoint>(bytes: Seq<u8>)
    requires
        parse_signature::<P>(bytes) is Ok,
    ensures
        parse_signature::<P>(bytes) matches Ok((r, z)) && bytes == P::encoding(r)
            + <P::Scalar as OsstScalar>::repr(z),
{
    let n = P::COMPRESSED_SIZE as int;
    let (head, tail) = (bytes.subrange(0, n), bytes.subrange(n, n + 32));
    P::lemma_size();
    P::lemma_decode(head);
    <P::Scalar as OsstScalar>::lemma_unrepr(tail);
    assert(bytes =~= head + tail);
}

/// What is written of a signature share reads back as the share.
pub proof fn law_share_round_trip<S: OsstScalar>(index: u32, z: int)
    requires
        index != 0,
        0 <= z < S::order(),
    ensures
        parse_share::<S>(le_bytes(index as int, 4) + S::repr(z)) == Ok::<(u32, int), OsstError>(
            (index, z),
        ),
{
    let bytes = le_bytes(index as int, 4) + S::repr(z);
    S::lemma_repr(z);
    lemma_byte_bounds();
    lemma_le_bytes(index as int, 4);
    assert(bytes.subrange(0, 4) =~= le_bytes(index as int, 4));
    assert(bytes.subrange(4, 36) =~= S::repr(z));
}

/// Signers in ascending order are determined by their multiset.
proof fn lemma_signers_unique(a: Seq<SignerView>, b: Seq<SignerView>)
    requires
        forall|i: int, j: int|
            0 <= i < j < a.len() ==> (#[trigger] a[i]).index < (#[trigger] a[j]).index,
        forall|i: int, j: int|
            0 <= i < j < b.len() ==> (#[trigger] b[i]).index < (#[trigger] b[j]).index,
        a.to_multiset() == b.to_multiset(),
    ensures
        a == b,
    decreases a.len(),
{
    broadcast use vstd::seq_lib::group_to_multiset_ensures;

    assert(a.to_multiset().len() == a.len() && b.to_multiset().len() == b.len());
    if a.len() == 0 {
        assert(a =~= b);
    } else {
        let (x, y) = (a.last(), b.last());
        assert(a[a.len() - 1] == x && b[b.len() - 1] == y);
        assert(a.contains(x) && b.contains(y));
        assert(b.to_multiset().count(x) > 0 && a.to_multiset().count(y) > 0);
        assert(b.contains(x) && a.contains(y));
        let i = choose|i: int| 0 <= i < b.len() && b[i] == x;
        let j = choose|j: int| 0 <= j < a.len() && a[j] == y;
        if i < b.len() - 1 {
            assert(b[i].index < b[b.len() - 1].index);
            if j < a.len() - 1 {
                assert(a[j].index < a[a.len() - 1].index);
            }
        }
        assert(x == y);
        let (ra, rb) = (a.drop_last(), b.drop_last());
        assert(a =~= ra.push(x) && b =~= rb.push(x));
        assert(ra.push(x).to_multiset() =~= ra.to_multiset().insert(x));
        assert(rb.push(x).to_multiset() =~= rb.to_multiset().insert(x));
        assert(ra.to_multiset() =~= a.to_multiset().remove(x));
        assert(rb.to_multiset() =~= b.to_multiset().remove(x));
        lemma_signers_unique(ra, rb);
    }
}

/// All signers compute one binding factor, one group commitment and one challenge:
/// the package does not depend on the order in which the commitments were
/// collected.
pub proof fn law_package_order_independent<P: OsstPoint>(
    a: PackageView,
    b: PackageView,
    group_pubkey: int,
    index: u32,
)
    requires
        a.wf(),
        b.wf(),
        a.message == b.message,
        a.signers.to_multiset() == b.signers.to_multiset(),
    ensures
        a == b,
        a.binding_factor::<P>(index, group_pubkey) == b.binding_factor::<P>(index, group_pubkey),
        a.group_commitment::<P>(group_pubkey) == b.group_commitment::<P>(group_pubkey),
        a.challenge::<P>(group_pubkey) == b.challenge::<P>(group_pubkey),
{
    let (x, y) = (a.indices(), b.indices());
    assert forall|i: int, j: int| 0 <= i < j < a.signers.len() implies (
    #[trigger] a.signers[i]).index < (#[trigger] a.signers[j]).index by {
        assert(x[i] < x[j]);
    }
    assert forall|i: int, j: int| 0 <= i < j < b.signers.len() implies (
    #[trigger] b.signers[i]).index < (#[trigger] b.signers[j]).index by {
        assert(y[i] < y[j]);
    }
    lemma_signers_unique(a.signers, b.signers);
}

/// The challenge covers everything: its inputs are equal exactly where the group
/// commitment, the group key and the whole message are, and so are the challenges, where
/// SHA-512 does not collide on the two inputs.
pub proof fn law_challenge_binds<P: OsstPoint>(
    commitment_a: int,
    key_a: int,
    message_a: Seq<u8>,
    commitment_b: int,
    key_b: int,
    message_b: Seq<u8>,
)
    requires
        has_encoding::<P>(commitment_a),
        has_encoding::<P>(key_a),
        has_encoding::<P>(commitment_b),
        has_encoding::<P>(key_b),
    ensures
        challenge_input::<P>(commitment_a, key_a, message_a) == challenge_input::<P>(
            commitment_b,
            key_b,
            message_b,
        ) <==> commitment_a == commitment_b && key_a == key_b && message_a == message_b,
        told_apart::<P::Scalar>(
            challenge_input::<P>(commitment_a, key_a, message_a),
            challenge_input::<P>(commitment_b, key_b, message_b),
        ) ==> (challenge_value::<P>(commitment_a, key_a, message_a) == challenge_value::<P>(
            commitment_b,
            key_b,
            message_b,
        ) <==> commitment_a == commitment_b && key_a == key_b && message_a == message_b),
{
    let (ra, rb) = (P::encoding(commitment_a), P::encoding(commitment_b));
    let (ya, yb) = (P::encoding(key_a), P::encoding(key_b));
    let a = challenge_input::<P>(commitment_a, key_a, message_a);
    let b = challenge_input::<P>(commitment_b, key_b, message_b);
    lemma_encodings::<P>(commitment_a, commitment_b);
    lemma_encodings::<P>(key_a, key_b);
    if a == b {
        assert(a =~= CHALLENGE_DOMAIN@ + (ra + (ya + message_a)));
        assert(b =~= CHALLENGE_DOMAIN@ + (rb + (yb + message_b)));
        lemma_concat_split(
            CHALLENGE_DOMAIN@,
            ra + (ya + message_a),
            CHALLENGE_DOMAIN@,
            rb + (yb + message_b),
        );
        lemma_concat_split(ra, ya + message_a, rb, yb + message_b);
        lemma_concat_split(ya, message_a, yb, message_b);
    }
    if told_apart::<P::Scalar>(a, b) {
        law_hash_binds_input::<P::Scalar>(a, b);
    }
}

/// A signature is on one message: under a key other than the identity, one that is valid
/// for two messages is valid for one message, of whatever length, where SHA-512 does not
/// collide on the inputs of the two challenges.
pub proof fn law_signature_binds_message<P: OsstPoint>(
    group_pubkey: int,
    message_a: Seq<u8>,
    message_b: Seq<u8>,
    r: int,
    z: int,
)
    requires
        is_field(ord::<P>()),
        has_encoding::<P>(group_pubkey),
        has_encoding::<P>(r),
        group_pubkey != 0,
        is_valid_signature::<P>(group_pubkey, message_a, r, z),
        is_valid_signature::<P>(group_pubkey, message_b, r, z),
        told_apart::<P::Scalar>(
            challenge_input::<P>(r, group_pubkey, message_a),
            challenge_input::<P>(r, group_pubkey, message_b),
        ),
    ensures
        message_a == message_b,
{
    let n = ord::<P>();
    let (c, d) = (
        challenge_value::<P>(r, group_pubkey, message_a),
        challenge_value::<P>(r, group_pubkey, message_b),
    );
    lemma_encodings::<P>(r, group_pubkey);
    law_challenge_binds::<P>(r, group_pubkey, message_a, r, group_pubkey, message_b);
    law_hash_binds_input::<P::Scalar>(
        challenge_input::<P>(r, group_pubkey, message_a),
        challenge_input::<P>(r, group_pubkey, message_a),
    );
    law_hash_binds_input::<P::Scalar>(
        challenge_input::<P>(r, group_pubkey, message_b),
        challenge_input::<P>(r, group_pubkey, message_b),
    );
    law_response_binds_challenge(r, c, d, group_pubkey, n);
}

/// One response is valid for a key, a message and a group commitment, and no other.
pub proof fn law_signature_unique<P: OsstPoint>(
    group_pubkey: int,
    message: Seq<u8>,
    r: int,
    z: int,
    other: int,
)
    requires
        is_valid_signature::<P>(group_pubkey, message, r, z),
        is_valid_signature::<P>(group_pubkey, message, r, other),
    ensures
        z == other,
        0 <= z < ord::<P>(),
{
    <P::Scalar as OsstScalar>::lemma_order();
    let e = challenge_value::<P>(r, group_pubkey, message);
    lemma_eqm_mod(r + e * group_pubkey, ord::<P>());
}

/// Signing twice with one group commitment gives up the secret: the responses of two
/// valid signatures differ by the secret times the difference of their challenges. It is
/// why a nonce pair signs once.
pub proof fn law_signatures_differ_by_secret<P: OsstPoint>(
    group_pubkey: int,
    message_a: Seq<u8>,
    message_b: Seq<u8>,
    r: int,
    z_a: int,
    z_b: int,
)
    requires
        is_valid_signature::<P>(group_pubkey, message_a, r, z_a),
        is_valid_signature::<P>(group_pubkey, message_b, r, z_b),
    ensures
        eqm(
            z_a - z_b,
            (challenge_value::<P>(r, group_pubkey, message_a) - challenge_value::<P>(
                r,
                group_pubkey,
                message_b,
            )) * group_pubkey,
            ord::<P>(),
        ),
{
    <P::Scalar as OsstScalar>::lemma_order();
    law_responses_differ_by_secret(
        r,
        challenge_value::<P>(r, group_pubkey, message_a),
        challenge_value::<P>(r, group_pubkey, message_b),
        group_pubkey,
        ord::<P>(),
    );
}

/// The encoding of commitments has one length, and determines them.
proof fn lemma_commitments_bytes<P: OsstPoint>(a: SignerView, b: SignerView)
    requires
        has_encoding::<P>(a.hiding),
        has_encoding::<P>(a.binding),
        has_encoding::<P>(b.hiding),
        has_encoding::<P>(b.binding),
    ensures
        commitments_bytes::<P>(a).len() == 4 + 2 * P::COMPRESSED_SIZE,
        commitments_bytes::<P>(b).len() == 4 + 2 * P::COMPRESSED_SIZE,
        commitments_bytes::<P>(a) == commitments_bytes::<P>(b) <==> a == b,
{
    let (ia, ib) = (le_bytes(a.index as int, 4), le_bytes(b.index as int, 4));
    let (ha, hb) = (P::encoding(a.hiding), P::encoding(b.hiding));
    let (ba, bb) = (P::encoding(a.binding), P::encoding(b.binding));
    lemma_byte_bounds();
    lemma_le_bytes(a.index as int, 4);
    lemma_le_bytes(b.index as int, 4);
    lemma_encodings::<P>(a.hiding, b.hiding);
    lemma_encodings::<P>(a.binding, b.binding);
    if commitments_bytes::<P>(a) == commitments_bytes::<P>(b) {
        assert(commitments_bytes::<P>(a) =~= ia + (ha + ba));
        assert(commitments_bytes::<P>(b) =~= ib + (hb + bb));
        lemma_concat_split(ia, ha + ba, ib, hb + bb);
        lemma_concat_split(ha, ba, hb, bb);
        lemma_le_bytes_injective(a.index as int, b.index as int, 4);
    }
}

/// The length of the encodings of some commitments.
proof fn lemma_signers_bytes<P: OsstPoint>(s: Seq<SignerView>)
    requires
        are_encodable::<P>(s),
    ensures
        signers_bytes::<P>(s).len() == s.len() * (4 + 2 * P::COMPRESSED_SIZE),
    decreases s.len(),
{
    let w = 4 + 2 * P::COMPRESSED_SIZE as int;
    if s.len() > 0 {
        let rest = s.drop_last();
        assert forall|i: int| 0 <= i < rest.len() implies has_encoding::<P>(
            (#[trigger] rest[i]).hiding,
        ) && has_encoding::<P>(rest[i].binding) by {
            assert(rest[i] == s[i]);
        }
        lemma_signers_bytes::<P>(rest);
        assert(s.last() == s[s.len() - 1]);
        lemma_commitments_bytes::<P>(s.last(), s.last());
        assert((s.len() - 1) * w + w == s.len() * w) by (nonlinear_arith);
    } else {
        assert(0 * w == 0) by (nonlinear_arith);
    }
}

/// The encoding of a list of commitments determines it: every signer, with both of its
/// commitments, in order.
pub proof fn law_signers_bytes_injective<P: OsstPoint>(a: Seq<SignerView>, b: Seq<SignerView>)
    requires
        are_encodable::<P>(a),
        are_encodable::<P>(b),
        signers_bytes::<P>(a) == signers_bytes::<P>(b),
    ensures
        a == b,
    decreases a.len(),
{
    let w = 4 + 2 * P::COMPRESSED_SIZE as int;
    let (la, lb) = (a.len() as int, b.len() as int);
    lemma_signers_bytes::<P>(a);
    lemma_signers_bytes::<P>(b);
    assert(la == lb) by (nonlinear_arith)
        requires
            la * w == lb * w,
            w > 0,
    ;
    if la > 0 {
        let (ra, rb) = (a.drop_last(), b.drop_last());
        assert forall|i: int| 0 <= i < ra.len() implies has_encoding::<P>(
            (#[trigger] ra[i]).hiding,
        ) && has_encoding::<P>(ra[i].binding) by {
            assert(ra[i] == a[i]);
        }
        assert forall|i: int| 0 <= i < rb.len() implies has_encoding::<P>(
            (#[trigger] rb[i]).hiding,
        ) && has_encoding::<P>(rb[i].binding) by {
            assert(rb[i] == b[i]);
        }
        lemma_signers_bytes::<P>(ra);
        lemma_signers_bytes::<P>(rb);
        assert(a.last() == a[la - 1] && b.last() == b[lb - 1]);
        lemma_concat_split(
            signers_bytes::<P>(ra),
            commitments_bytes::<P>(a.last()),
            signers_bytes::<P>(rb),
            commitments_bytes::<P>(b.last()),
        );
        lemma_commitments_bytes::<P>(a.last(), b.last());
        law_signers_bytes_injective::<P>(ra, rb);
        assert(a =~= ra.push(a.last()) && b =~= rb.push(b.last()));
    } else {
        assert(a =~= b);
    }
}

/// A binding factor covers everything: two are equal exactly where the group key, the
/// whole message, all commitments of all signers and the index are, where SHA-512 does
/// not collide on their inputs.
pub proof fn law_binding_factor_binds<P: OsstPoint>(
    a: PackageView,
    key_a: int,
    index_a: u32,
    b: PackageView,
    key_b: int,
    index_b: u32,
)
    requires
        a.is_encodable::<P>(),
        b.is_encodable::<P>(),
        has_encoding::<P>(key_a),
        has_encoding::<P>(key_b),
        told_apart::<P::Scalar>(
            binding_input::<P>(key_a, a.message, signers_bytes::<P>(a.signers), index_a),
            binding_input::<P>(key_b, b.message, signers_bytes::<P>(b.signers), index_b),
        ),
    ensures
        a.binding_factor::<P>(index_a, key_a) == b.binding_factor::<P>(index_b, key_b) <==> key_a
            == key_b && a.message == b.message && a.signers == b.signers && index_a == index_b,
{
    let (sa, sb) = (signers_bytes::<P>(a.signers), signers_bytes::<P>(b.signers));
    let x = binding_input::<P>(key_a, a.message, sa, index_a);
    let y = binding_input::<P>(key_b, b.message, sb, index_b);
    lemma_encodings::<P>(key_a, key_b);
    law_hash_binds_input::<P::Scalar>(x, y);
    if x == y {
        law_binding_input_injective::<P>(
            key_a,
            a.message,
            sa,
            index_a,
            key_b,
            b.message,
            sb,
            index_b,
        );
        law_signers_bytes_injective::<P>(a.signers, b.signers);
    }
}

/// The hiding parts of some commitments.
pub open spec fn hiding_parts(signers: Seq<SignerView>) -> Seq<int> {
    Seq::new(signers.len(), |i: int| signers[i].hiding)
}

/// The binding parts of some commitments.
pub open spec fn binding_parts(signers: Seq<SignerView>) -> Seq<int> {
    Seq::new(signers.len(), |i: int| signers[i].binding)
}

proof fn lemma_commitment_sum(signers: Seq<SignerView>, rhos: Seq<int>)
    requires
        signers.len() == rhos.len(),
    ensures
        commitment_sum(signers, rhos) == sum(hiding_parts(signers)) + dot(
            rhos,
            binding_parts(signers),
        ),
    decreases signers.len(),
{
    if signers.len() > 0 {
        let (s, r) = (signers.drop_last(), rhos.drop_last());
        lemma_commitment_sum(s, r);
        assert(hiding_parts(signers).drop_last() =~= hiding_parts(s));
        assert(binding_parts(signers).drop_last() =~= binding_parts(s));
    }
}

/// The group commitment is that of all signers: the hiding commitments added up, and the
/// binding commitments weighted with the binding factor of their signer.
pub proof fn law_group_commitment_of_all<P: OsstPoint>(v: PackageView, group_pubkey: int)
    ensures
        eqm(
            v.group_commitment::<P>(group_pubkey),
            sum(hiding_parts(v.signers)) + dot(
                Seq::new(
                    v.signers.len(),
                    |i: int| v.binding_factor::<P>(v.signers[i].index, group_pubkey),
                ),
                binding_parts(v.signers),
            ),
            ord::<P>(),
        ),
        0 <= v.group_commitment::<P>(group_pubkey) < ord::<P>(),
{
    let rhos = Seq::new(
        v.signers.len(),
        |i: int| v.binding_factor::<P>(v.signers[i].index, group_pubkey),
    );
    <P::Scalar as OsstScalar>::lemma_order();
    assert(rhos =~= v.binding_factors::<P>(group_pubkey));
    lemma_commitment_sum(v.signers, rhos);
    lemma_eqm_mod(commitment_sum(v.signers, rhos), ord::<P>());
}

/// A signer signs exactly where the package holds the commitments of its nonces under
/// its index. Without any commitments under its index it is not in the package; with
/// others they are foreign.
pub proof fn law_signer_answers_own_commitment(
    v: PackageView,
    nonces: NoncesView,
    share: SecretShareView,
)
    requires
        v.wf(),
    ensures
        sign_error(v, nonces, share) is None <==> v.signers.contains(
            SignerView { index: share.index, hiding: nonces.hiding, binding: nonces.binding },
        ),
        sign_error(v, nonces, share) == Some(OsstError::InvalidIndex) <==> forall|i: int|
            0 <= i < v.signers.len() ==> (#[trigger] v.signers[i]).index != share.index,
        sign_error(v, nonces, share) matches Some(e) ==> e == OsstError::InvalidIndex || e
            == OsstError::UnexpectedCommitment,
{
    let ids = v.indices();
    let mine = SignerView {
        index: share.index,
        hiding: nonces.hiding,
        binding: nonces.binding,
    };
    if v.has(share.index) {
        let k = ids.index_of(share.index);
        assert(0 <= k < ids.len() && ids[k] == share.index);
        assert(v.signers[k].index == share.index);
        if v.signers.contains(mine) {
            let j = choose|j: int| 0 <= j < v.signers.len() && v.signers[j] == mine;
            assert(ids[j] == share.index);
            lemma_index_of(ids, j);
        }
        if sign_error(v, nonces, share) is None {
            assert(v.signers[k] == mine);
        }
    } else {
        assert forall|i: int| 0 <= i < v.signers.len() implies (#[trigger] v.signers[i]).index
            != share.index by {
            assert(ids[i] == v.signers[i].index);
            assert(ids.contains(ids[i]));
        }
        if v.signers.contains(mine) {
            let j = choose|j: int| 0 <= j < v.signers.len() && v.signers[j] == mine;
            assert(v.signers[j].index == share.index);
        }
    }
}

/// The first commitment at fault in a list: those before it are distinct signers, and its
/// index is zero or occurred before.
pub open spec fn is_first_fault<P: OsstPoint>(
    cs: Seq<SigningCommitments<P>>,
    k: int,
    e: OsstError,
) -> bool {
    &&& 0 <= k < cs.len()
    &&& forall|i: int| 0 <= i < k ==> (#[trigger] cs[i]).index != 0
    &&& forall|i: int, j: int|
        0 <= i < j < k ==> (#[trigger] cs[i]).index != (#[trigger] cs[j]).index
    &&& if cs[k].index == 0 {
        e == OsstError::InvalidIndex
    } else {
        e == OsstError::DuplicateIndex(cs[k].index) && exists|i: int|
            0 <= i < k && (#[trigger] cs[i]).index == cs[k].index
    }
}

/// A list of commitments is a set of signers exactly where no index is zero and none
/// occurs twice; otherwise the first commitment at fault is named.
pub proof fn law_signers_are_distinct<P: OsstPoint>(cs: Seq<SigningCommitments<P>>)
    ensures
        signers_error(cs) is None <==> {
            &&& forall|i: int| 0 <= i < cs.len() ==> (#[trigger] cs[i]).index != 0
            &&& forall|i: int, j: int|
                0 <= i < j < cs.len() ==> (#[trigger] cs[i]).index != (#[trigger] cs[j]).index
        },
        signers_error(cs) matches Some(e) ==> exists|k: int| #[trigger] is_first_fault(cs, k, e),
    decreases cs.len(),
{
    if cs.len() > 0 {
        let rest = cs.drop_last();
        let last = cs.len() - 1;
        law_signers_are_distinct(rest);
        assert forall|i: int| 0 <= i < last implies rest[i] == #[trigger] cs[i] by {}
        match signers_error(rest) {
            Some(e) => {
                let k = choose|k: int| #[trigger] is_first_fault(rest, k, e);
                assert forall|i: int| 0 <= i < k implies (#[trigger] cs[i]).index != 0 by {
                    assert(rest[i].index != 0);
                }
                assert forall|i: int, j: int| 0 <= i < j < k implies (#[trigger] cs[i]).index != (
                #[trigger] cs[j]).index by {
                    assert(rest[i].index != rest[j].index);
                }
                assert(rest[k] == cs[k]);
                if rest[k].index != 0 {
                    let i = choose|i: int| 0 <= i < k && (#[trigger] rest[i]).index
                        == rest[k].index;
                    assert(cs[i].index == cs[k].index);
                }
                assert(is_first_fault(cs, k, e));
            },
            None => {
                lemma_signers_distinct(rest);
                let ids = commitment_indices(rest);
                assert forall|i: int| 0 <= i < last implies (#[trigger] cs[i]).index != 0 by {
                    assert(rest[i].index != 0);
                }
                assert forall|i: int, j: int| 0 <= i < j < last implies (
                #[trigger] cs[i]).index != (#[trigger] cs[j]).index by {
                    assert(rest[i].index != rest[j].index);
                }
                if ids.contains(cs.last().index) {
                    let i = choose|i: int| 0 <= i < ids.len() && ids[i] == cs.last().index;
                    assert(cs[i].index == cs[last].index);
                } else {
                    assert forall|i: int| 0 <= i < last implies (#[trigger] cs[i]).index
                        != cs[last].index by {
                        assert(ids[i] == cs[i].index);
                        assert(ids.contains(ids[i]));
                    }
                }
                match signers_error(cs) {
                    Some(e) => {
                        assert(is_first_fault(cs, last, e));
                    },
                    None => {},
                }
            },
        }
    }
}

/// A share satisfies its equation: `z G = D + rho E + lambda c Y`, with the commitments
/// that the package has of a signer.
pub open spec fn is_owed<P: OsstPoint>(
    v: PackageView,
    index: u32,
    z: int,
    verifying_share: int,
    group_pubkey: int,
) -> bool {
    exists|k: int|
        {
            &&& 0 <= k < v.signers.len()
            &&& (#[trigger] v.signers[k]).index == index
            &&& eqm(
                z,
                v.signers[k].hiding + v.binding_factor::<P>(index, group_pubkey)
                    * v.signers[k].binding + coefficients(v.indices(), ord::<P>())[k]
                    * v.challenge::<P>(group_pubkey) * verifying_share,
                ord::<P>(),
            )
        }
}

/// Shares with verifying shares aggregate exactly where there are as many as signers and
/// every one of them, with no exception, is of a signer of the package that has a
/// verifying share and satisfies its equation.
pub proof fn law_every_share_is_verified<P: OsstPoint>(
    v: PackageView,
    shares: Seq<SignatureShare<P::Scalar>>,
    group_pubkey: int,
    verifier_shares: Map<u32, P>,
)
    requires
        v.wf(),
    ensures
        aggregate_error::<P>(v, shares, group_pubkey, Some(verifier_shares)) is None <==> {
            &&& shares.len() >= v.signers.len()
            &&& forall|i: int|
                0 <= i < shares.len() ==> verifier_shares.contains_key(
                    (#[trigger] shares[i]).index,
                ) && is_owed::<P>(
                    v,
                    shares[i].index,
                    shares[i].response.val(),
                    verifier_shares[shares[i].index].log(),
                    group_pubkey,
                )
        },
{
    <P::Scalar as OsstScalar>::lemma_order();
    if aggregate_error::<P>(v, shares, group_pubkey, Some(verifier_shares)) is None {
        assert forall|i: int| 0 <= i < shares.len() implies verifier_shares.contains_key(
            (#[trigger] shares[i]).index,
        ) && is_owed::<P>(
            v,
            shares[i].index,
            shares[i].response.val(),
            verifier_shares[shares[i].index].log(),
            group_pubkey,
        ) by {
            lemma_no_share_error::<P>(v, shares, group_pubkey, verifier_shares, i);
            lemma_share_equation::<P>(v, shares[i], group_pubkey, verifier_shares);
        }
    }
    if shares.len() >= v.signers.len() && forall|i: int|
        0 <= i < shares.len() ==> verifier_shares.contains_key((#[trigger] shares[i]).index)
            && is_owed::<P>(
            v,
            shares[i].index,
            shares[i].response.val(),
            verifier_shares[shares[i].index].log(),
            group_pubkey,
        ) {
        lemma_shares_owed::<P>(v, shares, group_pubkey, verifier_shares);
    }
}

proof fn lemma_share_equation<P: OsstPoint>(
    v: PackageView,
    share: SignatureShare<P::Scalar>,
    group_pubkey: int,
    verifier_shares: Map<u32, P>,
)
    requires
        v.wf(),
        verifier_shares.contains_key(share.index),
    ensures
        share_error::<P>(v, share, group_pubkey, verifier_shares) is None <==> is_owed::<P>(
            v,
            share.index,
            share.response.val(),
            verifier_shares[share.index].log(),
            group_pubkey,
        ),
{
    let n = ord::<P>();
    let ids = v.indices();
    let (z, s) = (share.response.val(), verifier_shares[share.index].log());
    <P::Scalar as OsstScalar>::lemma_order();
    share.response.lemma_val();
    if v.has(share.index) {
        let k = ids.index_of(share.index);
        assert(0 <= k < ids.len() && ids[k] == share.index);
        let w = v.signers[k].hiding + v.binding_factor::<P>(share.index, group_pubkey)
            * v.signers[k].binding + coefficients(ids, n)[k] * v.challenge::<P>(group_pubkey) * s;
        assert(v.signers[k].index == share.index);
        lemma_eqm_mod(w, n);
        lemma_small_mod(z as nat, n as nat);
        assert(expected_response::<P>(v, share.index, s, group_pubkey) == w % n);
        if is_owed::<P>(v, share.index, z, s, group_pubkey) {
            let j = choose|j: int|
                {
                    &&& 0 <= j < v.signers.len()
                    &&& (#[trigger] v.signers[j]).index == share.index
                    &&& eqm(
                        z,
                        v.signers[j].hiding + v.binding_factor::<P>(share.index, group_pubkey)
                            * v.signers[j].binding + coefficients(ids, n)[j] * v.challenge::<P>(
                            group_pubkey,
                        ) * s,
                        n,
                    )
                };
            assert(ids[j] == share.index);
            lemma_index_of(ids, j);
        }
    } else {
        if is_owed::<P>(v, share.index, z, s, group_pubkey) {
            let j = choose|j: int|
                0 <= j < v.signers.len() && (#[trigger] v.signers[j]).index == share.index;
            assert(ids[j] == share.index);
            assert(ids.contains(ids[j]));
        }
    }
}

proof fn lemma_shares_owed<P: OsstPoint>(
    v: PackageView,
    shares: Seq<SignatureShare<P::Scalar>>,
    group_pubkey: int,
    verifier_shares: Map<u32, P>,
)
    requires
        v.wf(),
        forall|i: int|
            0 <= i < shares.len() ==> verifier_shares.contains_key((#[trigger] shares[i]).index)
                && is_owed::<P>(
                v,
                shares[i].index,
                shares[i].response.val(),
                verifier_shares[shares[i].index].log(),
                group_pubkey,
            ),
    ensures
        shares_error::<P>(v, shares, group_pubkey, verifier_shares) is None,
    decreases shares.len(),
{
    if shares.len() > 0 {
        let rest = shares.drop_last();
        assert forall|i: int| 0 <= i < rest.len() implies verifier_shares.contains_key(
            (#[trigger] rest[i]).index,
        ) && is_owed::<P>(
            v,
            rest[i].index,
            rest[i].response.val(),
            verifier_shares[rest[i].index].log(),
            group_pubkey,
        ) by {
            assert(rest[i] == shares[i]);
        }
        lemma_shares_owed::<P>(v, rest, group_pubkey, verifier_shares);
        assert(shares.last() == shares[shares.len() - 1]);
        lemma_share_equation::<P>(v, shares.last(), group_pubkey, verifier_shares);
    }
}

/// Without verifying shares, shares aggregate exactly where there are as many as signers
/// and every one is of a signer of the package.
pub proof fn law_unverified_shares_are_of_signers<P: OsstPoint>(
    v: PackageView,
    shares: Seq<SignatureShare<P::Scalar>>,
    group_pubkey: int,
)
    ensures
        aggregate_error::<P>(v, shares, group_pubkey, None) is None <==> {
            &&& shares.len() >= v.signers.len()
            &&& forall|i: int|
                0 <= i < shares.len() ==> v.indices().contains((#[trigger] shares[i]).index)
        },
        shares.len() >= v.signers.len() && aggregate_error::<P>(v, shares, group_pubkey, None)
            is Some ==> aggregate_error::<P>(v, shares, group_pubkey, None) == Some(
            OsstError::InvalidIndex,
        ),
{
}

/// Commitments are read back as they were written, and what is read is written as it was.
pub proof fn law_commitments_round_trip<P: OsstPoint>(c: SignerView, bytes: Seq<u8>)
    requires
        has_encoding::<P>(c.hiding),
        has_encoding::<P>(c.binding),
        c.index != 0,
    ensures
        parse_commitments::<P>(bytes) == Ok::<SignerView, OsstError>(c) <==> bytes
            == commitments_bytes::<P>(c),
{
    let n = P::COMPRESSED_SIZE as int;
    let b = commitments_bytes::<P>(c);
    lemma_byte_bounds();
    lemma_le_bytes(c.index as int, 4);
    lemma_commitments_bytes::<P>(c, c);
    lemma_encodings::<P>(c.hiding, c.binding);
    assert(b.subrange(0, 4) =~= le_bytes(c.index as int, 4));
    assert(b.subrange(4, 4 + n) =~= P::encoding(c.hiding));
    assert(b.subrange(4 + n, 4 + 2 * n) =~= P::encoding(c.binding));
    if parse_commitments::<P>(bytes) == Ok::<SignerView, OsstError>(c) {
        lemma_le_value(bytes.subrange(0, 4));
        P::lemma_decode(bytes.subrange(4, 4 + n));
        P::lemma_decode(bytes.subrange(4 + n, 4 + 2 * n));
        assert(bytes =~= bytes.subrange(0, 4) + bytes.subrange(4, 4 + n) + bytes.subrange(
            4 + n,
            4 + 2 * n,
        ));
    }
}

/// What is written of a signature reads back as the signature.
pub proof fn law_signature_round_trip<P: OsstPoint>(r: int, z: int)
    requires
        has_encoding::<P>(r),
        0 <= z < ord::<P>(),
    ensures
        parse_signature::<P>(P::encoding(r) + <P::Scalar as OsstScalar>::repr(z)) == Ok::<
            (int, int),
            OsstError,
        >((r, z)),
{
    let n = P::COMPRESSED_SIZE as int;
    let bytes = P::encoding(r) + <P::Scalar as OsstScalar>::repr(z);
    lemma_encodings::<P>(r, r);
    <P::Scalar as OsstScalar>::lemma_repr(z);
    assert(bytes.subrange(0, n) =~= P::encoding(r));
    assert(bytes.subrange(n, n + 32) =~= <P::Scalar as OsstScalar>::repr(z));
}

/// Signing, from the signers' shares to the verified signature: where every signer of a
/// package signs with its value of a polynomial, in any order, and the group key is the
/// polynomial's value at zero, the shares aggregate, with or without their verifying shares,
/// and the signature verifies for the package's message.
pub proof fn law_signed_package_verifies<P: OsstPoint>(
    package: SigningPackage<P>,
    key: P,
    polynomial: Seq<int>,
    nonces: Seq<Nonces<P::Scalar>>,
    secrets: Seq<SecretShare<P::Scalar>>,
    shares: &[SignatureShare<P::Scalar>],
    verifiers: Option<&BTreeMap<u32, P>>,
    r: Result<Signature<P>, OsstError>,
    message: &[u8],
    verified: bool,
)
    requires
        is_field(ord::<P>()),
        package.wf(),
        0 < polynomial.len() <= package@.signers.len(),
        key.log() == polynomial[0] % ord::<P>(),
        shares@.len() == package@.signers.len(),
        share_indices(shares@).no_duplicates(),
        nonces.len() == shares@.len(),
        secrets.len() == shares@.len(),
        forall|i: int|
            0 <= i < shares@.len() ==> {
                &&& call_ensures(
                    sign::<P>,
                    (&package, nonces[i], &secrets[i], &key),
                    Ok::<SignatureShare<P::Scalar>, OsstError>(#[trigger] shares@[i]),
                )
                &&& secrets[i]@.secret == poly(polynomial, secrets[i]@.index as int) % ord::<P>()
                &&& verifiers matches Some(m) ==> m@.contains_key(secrets[i]@.index)
                    && m@[secrets[i]@.index].log() == secrets[i]@.secret
            },
        call_ensures(aggregate::<P>, (&package, shares, &key, verifiers), r),
        message@ == package@.message,
        r is Ok ==> call_ensures(verify_signature::<P>, (&key, message, &r->Ok_0), verified),
    ensures
        r is Ok,
        verified,
{
    let v = package@;
    <P::Scalar as OsstScalar>::lemma_order();
    package.lemma_wf();
    assert forall|i: int| 0 <= i < shares@.len() implies v.has((#[trigger] shares@[i]).index)
        && shares@[i].response.val() == expected_response::<P>(
        v,
        shares@[i].index,
        poly(polynomial, shares@[i].index as int) % ord::<P>(),
        key.log(),
    ) by {
        let s = shares@[i];
        assert(call_ensures(
            sign::<P>,
            (&package, nonces[i], &secrets[i], &key),
            Ok::<SignatureShare<P::Scalar>, OsstError>(s),
        ));
        assert(sign_error(v, nonces[i]@, secrets[i]@) is None);
    }
    law_honest_signature_valid::<P>(v, polynomial, key.log(), shares@);
    match verifiers {
        Some(m) => {
            lemma_no_fault::<P>(v, shares@, key.log(), m@);
        },
        None => {},
    }
}

/// Shares that are each without fault have none together.
proof fn lemma_no_fault<P: OsstPoint>(
    v: PackageView,
    shares: Seq<SignatureShare<P::Scalar>>,
    group_pubkey: int,
    verifier_shares: Map<u32, P>,
)
    requires
        forall|i: int|
            0 <= i < shares.len() ==> share_error::<P>(
                v,
                #[trigger] shares[i],
                group_pubkey,
                verifier_shares,
            ) is None,
    ensures
        shares_error::<P>(v, shares, group_pubkey, verifier_shares) is None,
    decreases shares.len(),
{
    if shares.len() > 0 {
        let rest = shares.drop_last();
        assert forall|i: int| 0 <= i < rest.len() implies share_error::<P>(
            v,
            #[trigger] rest[i],
            group_pubkey,
            verifier_shares,
        ) is None by {
            assert(rest[i] == shares[i]);
        }
        lemma_no_fault::<P>(v, rest, group_pubkey, verifier_shares);
        assert(shares.last() == shares[shares.len() - 1]);
    }
}

/// A signature that verifies for one message verifies for no other, from call to call: of
/// whatever length the messages are, under a key other than the identity, where SHA-512 does
/// not collide on the inputs of the two challenges.
pub proof fn law_verified_for_one_message<P: OsstPoint>(
    key: P,
    message_a: &[u8],
    message_b: &[u8],
    signature: Signature<P>,
)
    requires
        is_field(ord::<P>()),
        key.log() != 0,
        call_ensures(verify_signature::<P>, (&key, message_a, &signature), true),
        call_ensures(verify_signature::<P>, (&key, message_b, &signature), true),
        told_apart::<P::Scalar>(
            challenge_input::<P>(signature.r.log(), key.log(), message_a@),
            challenge_input::<P>(signature.r.log(), key.log(), message_b@),
        ),
    ensures
        message_a@ == message_b@,
{
    law_signature_binds_message::<P>(
        key.log(),
        message_a@,
        message_b@,
        signature.r.log(),
        signature.z.val(),
    );
}

/// One package for one set of commitments: it is made exactly where there are commitments,
/// none has index zero and no index occurs twice, and holds the message and all of the
/// commitments as they were given.
pub proof fn law_package_holds_what_was_given<P: OsstPoint>(
    message: Vec<u8>,
    commitments: Vec<SigningCommitments<P>>,
    r: Result<SigningPackage<P>, OsstError>,
    i: int,
    found: Option<&SigningCommitments<P>>,
)
    requires
        call_ensures(SigningPackage::<P>::new, (message, commitments), r),
        0 <= i < commitments@.len(),
        r is Ok ==> call_ensures(
            SigningPackage::<P>::get_commitments,
            (&r->Ok_0, commitments@[i].index),
            found,
        ),
    ensures
        r is Ok <==> {
            &&& forall|i: int| 0 <= i < commitments@.len() ==> (#[trigger] commitments@[i]).index
                != 0
            &&& forall|i: int, j: int|
                0 <= i < j < commitments@.len() ==> (#[trigger] commitments@[i]).index != (
                #[trigger] commitments@[j]).index
        },
        r matches Ok(p) ==> p@.message == message@ && p@.signers.len() == commitments@.len(),
        r is Ok ==> (found matches Some(c) && c@ == commitments@[i]@),
{
    broadcast use vstd::seq_lib::group_to_multiset_ensures;

    law_signers_are_distinct(commitments@);
    if r is Ok {
        let v = r->Ok_0@;
        let given = signer_views(commitments@);
        r->Ok_0.lemma_wf();
        assert(v.signers.to_multiset().len() == v.signers.len());
        assert(given.to_multiset().len() == given.len());
        assert(given[i] == commitments@[i]@);
        assert(given.contains(given[i]));
        assert(given.to_multiset().count(given[i]) > 0);
        assert(v.signers.contains(given[i]));
        let k = choose|k: int| 0 <= k < v.signers.len() && v.signers[k] == given[i];
        let ids = v.indices();
        assert(ids[k] == commitments@[i].index);
        lemma_index_of(ids, k);
    }
}

/// A signer that is bound to a context signs nothing else: it signs exactly where the
/// package carries the context's encoding and it would sign the package.
pub proof fn law_context_signer<P: OsstPoint>(
    ctx: SigningContext<'_>,
    package: SigningPackage<P>,
    nonces: Nonces<P::Scalar>,
    share: SecretShare<P::Scalar>,
    key: P,
    bound: Result<SignatureShare<P::Scalar>, OsstError>,
    plain: Result<SignatureShare<P::Scalar>, OsstError>,
)
    requires
        package.wf(),
        call_ensures(sign_with_context::<P>, (&ctx, &package, nonces, &share, &key), bound),
        call_ensures(sign::<P>, (&package, nonces, &share, &key), plain),
    ensures
        package@.message != ctx.encoding() <==> bound == Err::<
            SignatureShare<P::Scalar>,
            OsstError,
        >(OsstError::MessageMismatch),
        package@.message == ctx.encoding() ==> (bound is Ok <==> plain is Ok),
        bound matches Ok(s) ==> s.index == plain->Ok_0.index && s.response.val()
            == plain->Ok_0.response.val(),
{
}

/// Signature shares and signatures are read back as they were written, from call to call.
pub proof fn law_written_signatures_read_back<P: OsstPoint>(
    share: SignatureShare<P::Scalar>,
    share_bytes: [u8; 36],
    share_read: Result<SignatureShare<P::Scalar>, OsstError>,
    signature: Signature<P>,
    bytes: Vec<u8>,
    slice: &[u8],
    read: Result<Signature<P>, OsstError>,
)
    requires
        share.index != 0,
        call_ensures(SignatureShare::<P::Scalar>::to_bytes, (&share,), share_bytes),
        call_ensures(SignatureShare::<P::Scalar>::from_bytes, (&share_bytes,), share_read),
        call_ensures(Signature::<P>::to_bytes, (&signature,), bytes),
        slice@ == bytes@,
        call_ensures(Signature::<P>::from_bytes, (slice,), read),
    ensures
        share_read matches Ok(s) && s.index == share.index && s.response.val()
            == share.response.val(),
        read matches Ok(s) && s.r.log() == signature.r.log() && s.z.val() == signature.z.val(),
{
}

/// A response is made of all its parts: `z = d + rho e + lambda c s`.
pub proof fn law_response_of_parts<S: OsstScalar>(
    nonces: Nonces<S>,
    rho: S,
    lambda: S,
    challenge: S,
    secret: S,
    response: S,
)
    requires
        call_ensures(
            Nonces::<S>::compute_response,
            (nonces, &rho, &lambda, &challenge, &secret),
            response,
        ),
    ensures
        eqm(
            response.val(),
            nonces@.hiding + rho.val() * nonces@.binding + lambda.val() * challenge.val()
                * secret.val(),
            S::order(),
        ),
{
    S::lemma_order();
    lemma_eqm_mod(
        nonces@.hiding + rho.val() * nonces@.binding + lambda.val() * challenge.val()
            * secret.val(),
        S::order(),
    );
}

/// A signer owes its response to its own secret alone: what it signs with another secret
/// differs by the difference of the secrets, weighted with its Lagrange coefficient and the
/// challenge.
pub proof fn law_share_follows_secret<P: OsstPoint>(
    v: PackageView,
    at: int,
    secret_a: int,
    secret_b: int,
    group_pubkey: int,
)
    requires
        v.wf(),
        0 <= at < v.signers.len(),
    ensures
        eqm(
            expected_response::<P>(v, v.signers[at].index, secret_a, group_pubkey)
                - expected_response::<P>(v, v.signers[at].index, secret_b, group_pubkey),
            coefficients(v.indices(), ord::<P>())[at] * v.challenge::<P>(group_pubkey) * (secret_a
                - secret_b),
            ord::<P>(),
        ),
{
    let n = ord::<P>();
    let ids = v.indices();
    let s = v.signers[at];
    let l = coefficients(ids, n)[at];
    let c = v.challenge::<P>(group_pubkey);
    let base = s.hiding + v.binding_factor::<P>(s.index, group_pubkey) * s.binding;
    <P::Scalar as OsstScalar>::lemma_order();
    assert(ids[at] == s.index);
    lemma_index_of(ids, at);
    let (a, b) = (base + l * c * secret_a, base + l * c * secret_b);
    lemma_eqm_mod(a, n);
    lemma_eqm_mod(b, n);
    crate::math::lemma_eqm_sub(a % n, a, b % n, b, n);
    assert(a - b == l * c * (secret_a - secret_b)) by (nonlinear_arith)
        requires
            a == base + l * c * secret_a,
            b == base + l * c * secret_b,
    ;
}

/// Every share counts: the response of an aggregate is the sum of all responses that it was
/// made of, and its commitment the group commitment of the package.
pub proof fn law_every_share_counts<P: OsstPoint>(
    package: SigningPackage<P>,
    shares: &[SignatureShare<P::Scalar>],
    key: P,
    verifiers: Option<&BTreeMap<u32, P>>,
    signature: Signature<P>,
    commitment: P,
)
    requires
        package.wf(),
        call_ensures(
            aggregate::<P>,
            (&package, shares, &key, verifiers),
            Ok::<Signature<P>, OsstError>(signature),
        ),
        call_ensures(SigningPackage::<P>::group_commitment, (&package, &key), commitment),
    ensures
        eqm(signature.z.val(), sum(responses(shares@)), ord::<P>()),
        signature.r.log() == commitment.log(),
{
    <P::Scalar as OsstScalar>::lemma_order();
    lemma_eqm_mod(sum(responses(shares@)), ord::<P>());
}

/// The first share at fault in a list, and its error.
pub open spec fn is_first_bad_share<P: OsstPoint>(
    v: PackageView,
    shares: Seq<SignatureShare<P::Scalar>>,
    group_pubkey: int,
    verifier_shares: Map<u32, P>,
    k: int,
    e: OsstError,
) -> bool {
    &&& 0 <= k < shares.len()
    &&& forall|i: int|
        0 <= i < k ==> verifier_shares.contains_key((#[trigger] shares[i]).index) && is_owed::<P>(
            v,
            shares[i].index,
            shares[i].response.val(),
            verifier_shares[shares[i].index].log(),
            group_pubkey,
        )
    &&& if v.indices().contains(shares[k].index) && verifier_shares.contains_key(
        shares[k].index,
    ) {
        e == OsstError::InvalidResponse && !is_owed::<P>(
            v,
            shares[k].index,
            shares[k].response.val(),
            verifier_shares[shares[k].index].log(),
            group_pubkey,
        )
    } else {
        e == OsstError::InvalidIndex
    }
}

/// Too few shares are counted, and otherwise the first share at fault is the one whose error
/// is returned: without a signer or a verifying share as an index, with a response that does
/// not satisfy its equation as a response.
pub proof fn law_first_bad_share_is_named<P: OsstPoint>(
    v: PackageView,
    shares: Seq<SignatureShare<P::Scalar>>,
    group_pubkey: int,
    verifier_shares: Map<u32, P>,
)
    requires
        v.wf(),
    ensures
        shares.len() < v.signers.len() ==> aggregate_error::<P>(
            v,
            shares,
            group_pubkey,
            Some(verifier_shares),
        ) == Some(
            OsstError::InsufficientContributions {
                got: shares.len() as usize,
                need: v.signers.len() as usize,
            },
        ),
        shares.len() >= v.signers.len() ==> (aggregate_error::<P>(
            v,
            shares,
            group_pubkey,
            Some(verifier_shares),
        ) matches Some(e) ==> exists|k: int| #[trigger]
            is_first_bad_share::<P>(v, shares, group_pubkey, verifier_shares, k, e)),
{
    lemma_first_bad_share::<P>(v, shares, group_pubkey, verifier_shares);
}

proof fn lemma_first_bad_share<P: OsstPoint>(
    v: PackageView,
    shares: Seq<SignatureShare<P::Scalar>>,
    group_pubkey: int,
    verifier_shares: Map<u32, P>,
)
    requires
        v.wf(),
    ensures
        shares_error::<P>(v, shares, group_pubkey, verifier_shares) matches Some(e) ==> exists|
            k: int,
        | #[trigger]
            is_first_bad_share::<P>(v, shares, group_pubkey, verifier_shares, k, e),
    decreases shares.len(),
{
    if shares.len() > 0 {
        let rest = shares.drop_last();
        let last = shares.len() - 1;
        lemma_first_bad_share::<P>(v, rest, group_pubkey, verifier_shares);
        assert forall|i: int| 0 <= i < last implies rest[i] == #[trigger] shares[i] by {}
        match shares_error::<P>(v, rest, group_pubkey, verifier_shares) {
            Some(e) => {
                let k = choose|k: int| #[trigger]
                    is_first_bad_share::<P>(v, rest, group_pubkey, verifier_shares, k, e);
                assert forall|i: int| 0 <= i < k implies verifier_shares.contains_key(
                    (#[trigger] shares[i]).index,
                ) && is_owed::<P>(
                    v,
                    shares[i].index,
                    shares[i].response.val(),
                    verifier_shares[shares[i].index].log(),
                    group_pubkey,
                ) by {
                    assert(rest[i] == shares[i]);
                }
                assert(rest[k] == shares[k]);
                assert(is_first_bad_share::<P>(
                    v,
                    shares,
                    group_pubkey,
                    verifier_shares,
                    k,
                    e,
                ));
            },
            None => {
                match share_error::<P>(v, shares.last(), group_pubkey, verifier_shares) {
                    Some(e) => {
                        assert forall|i: int| 0 <= i < last implies verifier_shares.contains_key(
                            (#[trigger] shares[i]).index,
                        ) && is_owed::<P>(
                            v,
                            shares[i].index,
                            shares[i].response.val(),
                            verifier_shares[shares[i].index].log(),
                            group_pubkey,
                        ) by {
                            lemma_no_share_error::<P>(
                                v,
                                rest,
                                group_pubkey,
                                verifier_shares,
                                i,
                            );
                            assert(rest[i] == shares[i]);
                            lemma_share_equation::<P>(
                                v,
                                shares[i],
                                group_pubkey,
                                verifier_shares,
                            );
                        }
                        if verifier_shares.contains_key(shares[last].index) {
                            lemma_share_equation::<P>(
                                v,
                                shares[last],
                                group_pubkey,
                                verifier_shares,
                            );
                        }
                        assert(is_first_bad_share::<P>(
                            v,
                            shares,
                            group_pubkey,
                            verifier_shares,
                            last,
                            e,
                        ));
                    },
                    None => {},
                }
            },
        }
    }
}

/// Commitments that are read are the commitments that their bytes are the encoding of, of a
/// signer.
pub proof fn law_read_commitments<P: OsstPoint>(bytes: Seq<u8>, c: SignerView)
    requires
        parse_commitments::<P>(bytes) == Ok::<SignerView, OsstError>(c),
    ensures
        bytes == commitments_bytes::<P>(c),
        c.index != 0,
        has_encoding::<P>(c.hiding),
        has_encoding::<P>(c.binding),
{
    let n = P::COMPRESSED_SIZE as int;
    lemma_byte_bounds();
    lemma_le_value(bytes.subrange(0, 4));
    P::lemma_decode(bytes.subrange(4, 4 + n));
    P::lemma_decode(bytes.subrange(4 + n, 4 + 2 * n));
    law_commitments_round_trip::<P>(c, bytes);
}

/// Text for debugging gives nothing away: it is the same whatever the secrets are.
pub proof fn law_debug_texts_hide_secrets<S: OsstScalar>(
    a: Nonces<S>,
    b: Nonces<S>,
    text_a: String,
    text_b: String,
    share_a: SignatureShare<S>,
    share_b: SignatureShare<S>,
    share_text_a: String,
    share_text_b: String,
)
    requires
        call_ensures(Nonces::<S>::debug_text, (&a,), text_a),
        call_ensures(Nonces::<S>::debug_text, (&b,), text_b),
        share_a.index == share_b.index,
        call_ensures(SignatureShare::<S>::debug_text, (&share_a,), share_text_a),
        call_ensures(SignatureShare::<S>::debug_text, (&share_b,), share_text_b),
    ensures
        text_a@ == text_b@,
        share_text_a@ == share_text_b@,
{
}

/// The domains of the hashes, as text.
pub proof fn law_domain_texts()
    ensures
        BINDING_DOMAIN@ == ascii("frost-binding-v2"@),
        CHALLENGE_DOMAIN@ == ascii("frost-challenge-v1"@),
{
    reveal_strlit("frost-binding-v2");
    reveal_strlit("frost-challenge-v1");
    assert(BINDING_DOMAIN@ =~= ascii("frost-binding-v2"@));
    assert(CHALLENGE_DOMAIN@ =~= ascii("frost-challenge-v1"@));
}

/// A size is the size of what is written.
pub proof fn law_sizes_are_those_written<P: OsstPoint>(
    commitments: SigningCommitments<P>,
    written: Vec<u8>,
    size: usize,
    signature: Signature<P>,
    signature_written: Vec<u8>,
    signature_size: usize,
)
    requires
        call_ensures(SigningCommitments::<P>::to_bytes, (&commitments,), written),
        call_ensures(SigningCommitments::<P>::byte_size, (), size),
        call_ensures(Signature::<P>::to_bytes, (&signature,), signature_written),
        call_ensures(Signature::<P>::byte_size, (), signature_size),
    ensures
        written@.len() == size,
        signature_written@.len() == signature_size,
{
}

/// Commitments are read back as they were written, from call to call, and what a nonce pair
/// commits to are its own nonces.
pub proof fn law_written_commitments_read_back<P: OsstPoint>(
    index: u32,
    nonces: Nonces<P::Scalar>,
    made: Result<SigningCommitments<P>, OsstError>,
    written: Vec<u8>,
    slice: &[u8],
    read: Result<SigningCommitments<P>, OsstError>,
)
    requires
        call_ensures(commitments_of::<P>, (index, &nonces), made),
        made is Ok ==> call_ensures(SigningCommitments::<P>::to_bytes, (&made->Ok_0,), written),
        slice@ == written@,
        call_ensures(SigningCommitments::<P>::from_bytes, (slice,), read),
    ensures
        made is Ok <==> index != 0,
        made matches Ok(c) ==> c.index == index && c.hiding.log() == nonces@.hiding
            && c.binding.log() == nonces@.binding,
        made is Ok ==> (read matches Ok(c) && c@ == made->Ok_0@),
{
}

/// A package lists its signers: as many as there are commitments, ascending, and exactly
/// those that have commitments in it.
pub proof fn law_package_lists_signers<P: OsstPoint>(
    package: SigningPackage<P>,
    indices: Vec<u32>,
    count: usize,
    index: u32,
    found: Option<&SigningCommitments<P>>,
)
    requires
        package.wf(),
        call_ensures(SigningPackage::<P>::signer_indices, (&package,), indices),
        call_ensures(SigningPackage::<P>::num_signers, (&package,), count),
        call_ensures(SigningPackage::<P>::get_commitments, (&package, index), found),
    ensures
        indices@.len() == count,
        forall|i: int, j: int| 0 <= i < j < indices@.len() ==> indices@[i] < indices@[j],
        found is Some <==> indices@.contains(index),
        found matches Some(c) ==> c.index == index,
{
    package.lemma_wf();
}

/// A signature is of one epoch: one that verifies for the encodings of two contexts is of one
/// epoch, one manifest and one message, so that shares of an epoch that has passed sign
/// nothing for another, where SHA-512 does not collide on the inputs of the two challenges.
pub proof fn law_signature_of_one_context<P: OsstPoint>(
    key: P,
    a: SigningContext<'_>,
    b: SigningContext<'_>,
    bytes_a: &[u8],
    bytes_b: &[u8],
    signature: Signature<P>,
)
    requires
        is_field(ord::<P>()),
        key.log() != 0,
        a.message@.len() <= u64::MAX,
        b.message@.len() <= u64::MAX,
        bytes_a@ == a.encoding(),
        bytes_b@ == b.encoding(),
        call_ensures(verify_signature::<P>, (&key, bytes_a, &signature), true),
        call_ensures(verify_signature::<P>, (&key, bytes_b, &signature), true),
        told_apart::<P::Scalar>(
            challenge_input::<P>(signature.r.log(), key.log(), a.encoding()),
            challenge_input::<P>(signature.r.log(), key.log(), b.encoding()),
        ),
    ensures
        a.epoch == b.epoch,
        a.manifest_hash@ == b.manifest_hash@,
        a.message@ == b.message@,
{
    law_verified_for_one_message::<P>(key, bytes_a, bytes_b, signature);
    crate::context::law_encoding_injective(
        a.epoch,
        a.manifest_hash@,
        a.message@,
        b.epoch,
        b.manifest_hash@,
        b.message@,
    );
}

/// What a signer draws it commits to: the commitments that come with nonces are theirs, under
/// the signer's index, and every signer with an index has them.
pub proof fn law_drawn_nonces_and_commitments<P: OsstPoint>(
    index: u32,
    rng: &mut OsRng,
    r: Result<(Nonces<P::Scalar>, SigningCommitments<P>), OsstError>,
)
    requires
        call_ensures(commit::<P>, (index, rng), r),
    ensures
        r is Ok <==> index != 0,
        r matches Ok((nonces, c)) ==> c.index == index && c.hiding.log() == nonces@.hiding
            && c.binding.log() == nonces@.binding,
        r matches Err(e) ==> e == OsstError::InvalidIndex,
{
}

} // verus!
