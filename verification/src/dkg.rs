//! Distributed key generation (Feldman VSS), where every participant acts as a
//! dealer: each generates a random polynomial, publishes commitments and sends
//! sub-shares to all other participants.
//!
//! The group secret, the sum of the constant terms, is never known to anyone;
//! the group public key is publicly derivable.
//!
//! 1. Each participant generates a random polynomial.
//! 2. Each broadcasts a [`Round1Package`]: the commitment to the polynomial and
//!    a Schnorr proof of knowledge of its constant term. Recipients verify the
//!    proof before recording the commitment.
//! 3. Each sends every other participant its sub-share, confidentially.
//! 4. Recipients verify each sub-share against the commitment.
//! 5. A failure is a complaint naming the dealer; every participant applies it
//!    with [`DkgState::disqualify`], or they derive different keys.
//! 6. A participant's final share is the sum of its sub-shares over the
//!    qualified dealers, and the group key the sum of their constant terms.
use rand_core::OsRng;
use std::collections::BTreeMap;
use vstd::arithmetic::div_mod::lemma_small_mod;
use vstd::prelude::*;

use crate::bytes::{
    bytes_eq, get_array32, le_bytes, lemma_byte_bounds, lemma_concat_split, lemma_le_bytes,
    lemma_le_bytes_injective, lemma_prefixed_split, prefixed, put_len, put_slice, put_u32, put_u64,
};
use crate::curve::{
    decode_scalar, has_encoding, hash_to_scalar, hash_value, law_hash_binds_input,
    lemma_encodings, logs, ord, told_apart, vals, OsstPoint, OsstScalar,
};
use crate::error::OsstError;
use crate::hash::{sha512, sha512_digest};
use crate::hex::{hex_string, hex_text};
use crate::lagrange::{coefficients, lemma_reconstruct};
use crate::math::{
    combine, dot, eqm, evaluations, is_field, lemma_combine, lemma_dot_eqm, lemma_dot_ones,
    lemma_eqm_mod, lemma_mod_add, lemma_poly_eqm, lemma_poly_zero, poly, reduced, sum,
};
use crate::reshare::{
    self, commitment_bytes, constant_terms, dealer_indices, dealt, filled, is_encodable,
    law_commitment_bytes_injective, law_submitted_fill_slots, law_subshare_bytes_injective,
    lemma_delivered, lemma_subshare_bytes, submitted, subshare_bytes, AggregatorView,
    CommitmentView, DealerCommitment, DealerView, DeliveryView, SubShare, SubShareView,
};
use crate::schnorr::{
    check, law_response_binds_challenge, law_responses_differ_by_secret, respond,
    schnorr_response,
};
use crate::sets::{
    ascending, contains_index, index_set, index_set_error, insert_index, is_index_set,
    lemma_ascending_bound, lemma_same_multiset, lemma_sum_permutation,
};
use crate::shamir::base_mul;
use crate::text::{ascii, decimal, decimal_items, put_decimal, put_decimals, put_text};

verus! {

/// Domain tag for the proof of knowledge: `osst/dkg-pok/v1`.
pub const DKG_POK_DOMAIN: [u8; 15] = [
    111u8, 115u8, 115u8, 116u8, 47u8, 100u8, 107u8, 103u8, 45u8, 112u8, 111u8, 107u8, 47u8, 118u8,
    49u8,
];

/// Domain tag for the complaint signature: `osst/dkg-complaint/v1`.
pub const COMPLAINT_SIG_DOMAIN: [u8; 21] = [
    111u8, 115u8, 115u8, 116u8, 47u8, 100u8, 107u8, 103u8, 45u8, 99u8, 111u8, 109u8, 112u8, 108u8,
    97u8, 105u8, 110u8, 116u8, 47u8, 118u8, 49u8,
];

/// Domain tag for the round-1 echo digest: `osst/dkg-round1-echo/v1`.
pub const ECHO_DIGEST_DOMAIN: [u8; 23] = [
    111u8, 115u8, 115u8, 116u8, 47u8, 100u8, 107u8, 103u8, 45u8, 114u8, 111u8, 117u8, 110u8, 100u8,
    49u8, 45u8, 101u8, 99u8, 104u8, 111u8, 47u8, 118u8, 49u8,
];

// ---------------------------------------------------------------------------
// Proof of knowledge of the constant term
// ---------------------------------------------------------------------------

/// Schnorr proof of knowledge of a dealer's constant term.
///
/// Without it a dealer can publish a constant-term commitment it did not choose.
/// The epoch is in the challenge, so a proof cannot be replayed from one
/// ceremony into another.
#[derive(Clone, Copy, Debug, PartialEq)]
pub struct ProofOfKnowledge<P: OsstPoint> {
    /// The commitment of the proof.
    pub r: P,
    /// The response of the proof.
    pub z: P::Scalar,
}

/// The input of the proof's challenge: the domain, the dealer's index, the
/// epoch, the constant-term commitment and the proof's commitment.
pub open spec fn pok_input<P: OsstPoint>(
    dealer_index: u32,
    epoch: u64,
    constant: int,
    r: int,
) -> Seq<u8> {
    DKG_POK_DOMAIN@ + le_bytes(dealer_index as int, 4) + le_bytes(epoch as int, 8) + P::encoding(
        constant,
    ) + P::encoding(r)
}

/// The challenge of the proof.
pub open spec fn pok_challenge<P: OsstPoint>(
    dealer_index: u32,
    epoch: u64,
    constant: int,
    r: int,
) -> int {
    hash_value::<P::Scalar>(pok_input::<P>(dealer_index, epoch, constant, r))
}

/// The proof is valid for a dealer, an epoch and a constant-term commitment.
pub open spec fn is_valid_pok<P: OsstPoint>(
    dealer_index: u32,
    epoch: u64,
    constant: int,
    r: int,
    z: int,
) -> bool {
    z == schnorr_response(
        r,
        pok_challenge::<P>(dealer_index, epoch, constant, r),
        constant,
        ord::<P>(),
    )
}

impl<P: OsstPoint> ProofOfKnowledge<P> {
    fn challenge(dealer_index: u32, epoch: u64, constant_commitment: &P, r: &P) -> (e: P::Scalar)
        ensures
            e.val() == pok_challenge::<P>(
                dealer_index,
                epoch,
                constant_commitment.log(),
                r.log(),
            ),
            has_encoding::<P>(constant_commitment.log()),
            has_encoding::<P>(r.log()),
    {
        let mut h: Vec<u8> = Vec::new();
        put_slice(&mut h, &DKG_POK_DOMAIN);
        put_u32(&mut h, dealer_index);
        put_u64(&mut h, epoch);
        let c = constant_commitment.compress_vec();
        put_slice(&mut h, &c);
        let rc = r.compress_vec();
        put_slice(&mut h, &rc);
        assert(h@ =~= pok_input::<P>(dealer_index, epoch, constant_commitment.log(), r.log()));
        hash_to_scalar::<P::Scalar>(&h)
    }

    /// Proves knowledge of `a_0` with a given nonce, which must be used once.
    pub fn prove_with_nonce(
        dealer_index: u32,
        epoch: u64,
        a_0: &P::Scalar,
        nonce: &P::Scalar,
    ) -> (p: Self)
        ensures
            p.r.log() == nonce.val(),
            p.z.val() == schnorr_response(
                nonce.val(),
                pok_challenge::<P>(dealer_index, epoch, a_0.val(), nonce.val()),
                a_0.val(),
                ord::<P>(),
            ),
            is_valid_pok::<P>(dealer_index, epoch, a_0.val(), p.r.log(), p.z.val()),
    {
        let r = base_mul::<P>(nonce);
        let constant_commitment = base_mul::<P>(a_0);
        let e = Self::challenge(dealer_index, epoch, &constant_commitment, &r);
        ProofOfKnowledge { z: respond(nonce, &e, a_0), r }
    }

    /// Proves knowledge of `a_0`. What is proved verifies.
    pub fn prove(dealer_index: u32, epoch: u64, a_0: &P::Scalar, rng: &mut OsRng) -> (p: Self)
        ensures
            is_valid_pok::<P>(dealer_index, epoch, a_0.val(), p.r.log(), p.z.val()),
    {
        let k = <P::Scalar as OsstScalar>::random(rng);
        Self::prove_with_nonce(dealer_index, epoch, a_0, &k)
    }

    /// Verifies against a dealer's constant-term commitment.
    pub fn verify(&self, dealer_index: u32, epoch: u64, constant_commitment: &P) -> (ok: bool)
        ensures
            ok == is_valid_pok::<P>(
                dealer_index,
                epoch,
                constant_commitment.log(),
                self.r.log(),
                self.z.val(),
            ),
            has_encoding::<P>(constant_commitment.log()),
            has_encoding::<P>(self.r.log()),
    {
        let e = Self::challenge(dealer_index, epoch, constant_commitment, &self.r);
        check::<P>(&self.z, &self.r, &e, constant_commitment)
    }
}

/// What a dealer broadcasts in round 1: its commitment and its proof of
/// knowledge of the constant term.
#[derive(Debug)]
pub struct Round1Package<P: OsstPoint> {
    /// The commitment.
    pub commitment: DealerCommitment<P>,
    /// The proof of knowledge.
    pub proof_of_knowledge: ProofOfKnowledge<P>,
}

impl<P: OsstPoint> Clone for Round1Package<P> {
    fn clone(&self) -> (r: Self)
        ensures
            r.commitment@ == self.commitment@,
            r.commitment.coefficients@ == self.commitment.coefficients@,
            r.proof_of_knowledge == self.proof_of_knowledge,
    {
        Round1Package {
            commitment: self.commitment.clone(),
            proof_of_knowledge: self.proof_of_knowledge,
        }
    }
}

impl<P: OsstPoint> Round1Package<P> {
    /// The proof verifies against the package's own commitment.
    pub open spec fn is_proved(&self, epoch: u64) -> bool {
        is_valid_pok::<P>(
            self.commitment.dealer_index,
            epoch,
            self.commitment.polynomial()[0],
            self.proof_of_knowledge.r.log(),
            self.proof_of_knowledge.z.val(),
        )
    }

    /// The dealer's index.
    pub fn dealer_index(&self) -> (r: u32)
        ensures
            r == self.commitment.dealer_index,
    {
        self.commitment.dealer_index
    }

    /// Verifies the proof of knowledge against the package's own commitment.
    ///
    /// # Errors
    ///
    /// [`OsstError::InvalidProofOfKnowledge`] naming the dealer.
    pub fn verify(&self, epoch: u64) -> (r: Result<(), OsstError>)
        requires
            self.commitment.coefficients@.len() > 0,
        ensures
            r is Ok <==> self.is_proved(epoch),
            r matches Err(e) ==> e == OsstError::InvalidProofOfKnowledge(
                self.commitment.dealer_index,
            ),
    {
        let idx = self.commitment.dealer_index;
        if self.proof_of_knowledge.verify(idx, epoch, self.commitment.share_commitment()) {
            Ok(())
        } else {
            Err(OsstError::InvalidProofOfKnowledge(idx))
        }
    }
}

// ---------------------------------------------------------------------------
// Dealer
// ---------------------------------------------------------------------------

/// A dealer of the key generation. Unlike a dealer of a reshare, its constant
/// term is random rather than an existing share.
///
/// This struct holds secret key material: call [`zeroize`](Self::zeroize) when
/// it is no longer needed.
pub struct Dealer<P: OsstPoint> {
    inner: reshare::Dealer<P>,
}

impl<P: OsstPoint> View for Dealer<P> {
    type V = DealerView;

    closed spec fn view(&self) -> DealerView {
        self.inner@
    }
}

impl<P: OsstPoint> Dealer<P> {
    /// The commitment is to the polynomial held.
    pub closed spec fn wf(&self) -> bool {
        &&& self.inner.wf()
        &&& self.inner@.polynomial.len() > 0
    }

    /// A dealer of a given polynomial.
    ///
    /// # Errors
    ///
    /// [`OsstError::InvalidIndex`] if the index is 0,
    /// [`OsstError::ThresholdMismatch`] if there is no coefficient.
    pub fn from_polynomial(index: u32, polynomial: Vec<P::Scalar>) -> (r: Result<Self, OsstError>)
        ensures
            r matches Ok(d) ==> index != 0 && polynomial@.len() > 0 && d.wf() && d@ == (DealerView {
                index,
                polynomial: vals(polynomial@),
            }),
            r matches Err(e) ==> if index == 0 {
                e == OsstError::InvalidIndex
            } else {
                polynomial@.len() == 0 && e == (OsstError::ThresholdMismatch {
                    expected: 1,
                    got: 0,
                })
            },
    {
        if index == 0 {
            return Err(OsstError::InvalidIndex);
        }
        if polynomial.len() == 0 {
            return Err(OsstError::ThresholdMismatch { expected: 1, got: 0 });
        }
        match reshare::Dealer::<P>::from_polynomial(index, polynomial) {
            Ok(inner) => Ok(Dealer { inner }),
            Err(e) => Err(e),
        }
    }

    /// Creates a dealer with a random secret.
    ///
    /// # Errors
    ///
    /// [`OsstError::InvalidIndex`] if the index is 0,
    /// [`OsstError::ThresholdMismatch`] if the threshold is 0.
    pub fn new(index: u32, threshold: u32, rng: &mut OsRng) -> (r: Result<Self, OsstError>)
        ensures
            r matches Ok(d) ==> index != 0 && threshold != 0 && d.wf() && d@.index == index
                && d@.polynomial.len() == threshold,
            r matches Err(e) ==> if index == 0 {
                e == OsstError::InvalidIndex
            } else {
                threshold == 0 && e == (OsstError::ThresholdMismatch { expected: 1, got: 0 })
            },
    {
        if index == 0 {
            return Err(OsstError::InvalidIndex);
        }
        if threshold == 0 {
            return Err(OsstError::ThresholdMismatch { expected: 1, got: 0 });
        }
        let mut polynomial: Vec<P::Scalar> = Vec::new();
        let mut i: u32 = 0;
        while i < threshold
            invariant
                i <= threshold,
                polynomial@.len() == i,
            decreases threshold - i,
        {
            polynomial.push(<P::Scalar as OsstScalar>::random(rng));
            i += 1;
        }
        Self::from_polynomial(index, polynomial)
    }

    /// The dealer's index.
    pub fn index(&self) -> (r: u32)
        ensures
            r == self@.index,
    {
        self.inner.index()
    }

    /// The dealer's commitment.
    pub fn commitment(&self) -> (r: &DealerCommitment<P>)
        requires
            self.wf(),
        ensures
            r@ == (CommitmentView { dealer: self@.index, polynomial: self@.polynomial }),
            r.coefficients@.len() == self@.polynomial.len(),
            r.coefficients@.len() > 0,
            r.dealer_index == self@.index,
            r.polynomial() == self@.polynomial,
            self@.index != 0,
    {
        proof {
            self.inner.lemma_wf();
        }
        let r = self.inner.commitment();
        assert(r.polynomial().len() == r.coefficients@.len());
        r
    }

    /// This dealer's round-1 broadcast: the commitment and a proof of knowledge
    /// of the constant term, bound to `epoch`. It verifies.
    pub fn round1_package(&self, epoch: u64, rng: &mut OsRng) -> (r: Round1Package<P>)
        requires
            self.wf(),
        ensures
            r.commitment@ == (CommitmentView {
                dealer: self@.index,
                polynomial: self@.polynomial,
            }),
            r.commitment.coefficients@.len() == self@.polynomial.len(),
            r.is_proved(epoch),
    {
        let commitment = self.commitment().clone();
        let proof_of_knowledge = ProofOfKnowledge::<P>::prove(
            self.inner.index(),
            epoch,
            self.inner.constant_term(),
            rng,
        );
        Round1Package { commitment, proof_of_knowledge }
    }

    /// Generates the sub-share for a player: the polynomial at its index.
    ///
    /// # Errors
    ///
    /// [`OsstError::InvalidIndex`] if the index is 0.
    pub fn generate_subshare(&self, player_index: u32) -> (r: Result<
        SubShare<P::Scalar>,
        OsstError,
    >)
        requires
            self.wf(),
        ensures
            r is Ok <==> player_index != 0,
            r matches Ok(s) ==> s@ == dealt::<P>(self@, player_index),
            r matches Err(e) ==> e == OsstError::InvalidIndex,
    {
        self.inner.generate_subshare(player_index)
    }

    /// Generates the sub-shares for players `1..=num_players`, in order. It does
    /// not fail.
    pub fn generate_subshares(&self, num_players: u32) -> (r: Result<
        Vec<SubShare<P::Scalar>>,
        OsstError,
    >)
        requires
            self.wf(),
        ensures
            r is Ok,
            r matches Ok(v) ==> v@.len() == num_players && forall|i: int|
                0 <= i < num_players ==> (#[trigger] v@[i])@ == dealt::<P>(self@, (i + 1) as u32),
    {
        Ok(self.inner.generate_subshares(num_players))
    }

    /// Overwrites the polynomial with zeros. The dealer cannot deal any more.
    pub fn zeroize(&mut self)
        ensures
            final(self)@ == (DealerView {
                index: old(self)@.index,
                polynomial: Seq::new(old(self)@.polynomial.len(), |i: int| 0int),
            }),
    {
        self.inner.zeroize();
    }
}

// ---------------------------------------------------------------------------
// Aggregator
// ---------------------------------------------------------------------------

/// A verified sub-share and its dealer's constant term.
struct Delivery<P: OsstPoint> {
    dealer: u32,
    value: P::Scalar,
    constant: P,
    polynomial: Ghost<Seq<int>>,
}

/// Collects sub-shares from a **fixed** dealer set and sums them.
///
/// The dealer set has to be agreed up front: a player that sums one dealer more
/// or fewer than its peers derives a different group key and an incompatible
/// share.
pub struct Aggregator<P: OsstPoint> {
    player_index: u32,
    dealer_set: Vec<u32>,
    deliveries: Vec<Delivery<P>>,
}

impl<P: OsstPoint> View for Aggregator<P> {
    type V = AggregatorView;

    closed spec fn view(&self) -> AggregatorView {
        AggregatorView {
            player: self.player_index,
            dealers: self.dealer_set@,
            deliveries: Seq::new(
                self.deliveries@.len(),
                |i: int|
                    DeliveryView {
                        dealer: self.deliveries@[i].dealer,
                        value: self.deliveries@[i].value.val(),
                        polynomial: self.deliveries@[i].polynomial@,
                    },
            ),
        }
    }
}

/// The constant terms, in the order of the dealer set.
pub open spec fn constants(v: AggregatorView) -> Seq<int> {
    Seq::new(
        v.dealers.len(),
        |i: int| v.deliveries[v.position(v.dealers[i])].polynomial[0],
    )
}

/// The final share: the sum of the sub-shares over the dealer set.
pub open spec fn final_share(v: AggregatorView, n: int) -> int {
    sum(v.values()) % n
}

/// The group key: the sum of the constant terms over the dealer set.
pub open spec fn group_key(v: AggregatorView, n: int) -> int {
    sum(constants(v)) % n
}

/// What comes of adding a sub-share: whether it was added, or why it was
/// refused.
pub open spec fn add_outcome<P: OsstPoint>(
    v: AggregatorView,
    s: SubShareView,
    c: DealerCommitment<P>,
) -> Result<bool, OsstError> {
    if s.player != v.player || s.dealer != c.dealer_index || s.dealer == 0 {
        Err(OsstError::InvalidIndex)
    } else if !v.dealers.contains(s.dealer) {
        Err(OsstError::UnexpectedDealer(s.dealer))
    } else if v.delivered(s.dealer) {
        Ok(false)
    } else if s.value != c.value_at(v.player) {
        Err(OsstError::InvalidSubShare(s.dealer))
    } else {
        Ok(true)
    }
}

/// The aggregator after a sub-share was offered to it.
pub open spec fn after_add<P: OsstPoint>(
    v: AggregatorView,
    s: SubShareView,
    c: DealerCommitment<P>,
) -> AggregatorView {
    if add_outcome(v, s, c) == Ok::<bool, OsstError>(true) {
        AggregatorView {
            deliveries: v.deliveries.push(
                DeliveryView { dealer: s.dealer, value: s.value, polynomial: c.polynomial() },
            ),
            ..v
        }
    } else {
        v
    }
}

/// The dealers that have delivered, in order of arrival.
spec fn arrivals(v: AggregatorView) -> Seq<u32> {
    Seq::new(v.deliveries.len(), |i: int| v.deliveries[i].dealer)
}

/// In a complete aggregator the arrivals are the dealer set in some order, and
/// each stands where `position` finds it.
proof fn lemma_arrivals(v: AggregatorView, n: int)
    requires
        v.verified(n),
        v.complete(),
    ensures
        arrivals(v).to_multiset() == v.dealers.to_multiset(),
        forall|i: int|
            0 <= i < v.deliveries.len() ==> v.position(#[trigger] v.deliveries[i].dealer) == i,
{
    let a = arrivals(v);
    assert forall|i: int| 0 <= i < a.len() implies v.dealers.contains(#[trigger] a[i]) by {
        assert(v.dealers.contains(v.deliveries[i].dealer));
    }
    lemma_same_multiset(a, v.dealers);
    assert forall|i: int| 0 <= i < v.deliveries.len() implies v.position(
        #[trigger] v.deliveries[i].dealer,
    ) == i by {
        let d = v.deliveries[i].dealer;
        let p = v.position(d);
        assert(0 <= p < v.deliveries.len() && v.deliveries[p].dealer == d);
        if p < i {
            assert(v.deliveries[p].dealer != v.deliveries[i].dealer);
        } else if i < p {
            assert(v.deliveries[i].dealer != v.deliveries[p].dealer);
        }
    }
}

/// The sum over the arrivals is the sum over the dealer set.
pub proof fn lemma_arrival_sums(v: AggregatorView, n: int)
    requires
        v.verified(n),
        v.complete(),
    ensures
        sum(v.values()) == sum(Seq::new(v.deliveries.len(), |i: int| v.deliveries[i].value)),
        sum(constants(v)) == sum(
            Seq::new(v.deliveries.len(), |i: int| v.deliveries[i].polynomial[0]),
        ),
{
    lemma_arrivals(v, n);
    let a = arrivals(v);
    let f = |d: u32| v.deliveries[v.position(d)].value;
    let g = |d: u32| v.deliveries[v.position(d)].polynomial[0];
    lemma_sum_permutation(f, a, v.dealers);
    lemma_sum_permutation(g, a, v.dealers);
    assert(v.values() =~= Seq::new(v.dealers.len(), |i: int| f(v.dealers[i])));
    assert(constants(v) =~= Seq::new(v.dealers.len(), |i: int| g(v.dealers[i])));
    assert(Seq::new(v.deliveries.len(), |i: int| v.deliveries[i].value) =~= Seq::new(
        a.len(),
        |i: int| f(a[i]),
    )) by {
        assert forall|i: int| 0 <= i < a.len() implies v.deliveries[i].value == f(a[i]) by {
            assert(v.position(v.deliveries[i].dealer) == i);
        }
    }
    assert(Seq::new(v.deliveries.len(), |i: int| v.deliveries[i].polynomial[0]) =~= Seq::new(
        a.len(),
        |i: int| g(a[i]),
    )) by {
        assert forall|i: int| 0 <= i < a.len() implies v.deliveries[i].polynomial[0] == g(
            a[i],
        ) by {
            assert(v.position(v.deliveries[i].dealer) == i);
        }
    }
}

impl<P: OsstPoint> Aggregator<P> {
    /// Text for debugging, without the sub-shares.
    pub fn debug_text(&self) -> (r: String)
        ensures
            r@ == "dkg::Aggregator { player_index: "@ + decimal(self@.player as nat)
                + ", dealer_set: "@ + "["@ + decimal_items(self@.dealers) + "]"@ + ", count: "@
                + decimal(self@.deliveries.len()) + " }"@,
    {
        let mut out = String::new();
        put_text(&mut out, "dkg::Aggregator { player_index: ");
        put_decimal(&mut out, self.player_index as u64);
        put_text(&mut out, ", dealer_set: ");
        put_decimals(&mut out, &self.dealer_set);
        put_text(&mut out, ", count: ");
        put_decimal(&mut out, self.deliveries.len() as u64);
        put_text(&mut out, " }");
        out
    }

    /// What an aggregator keeps: everything it holds is verified, and the
    /// constant terms are those of the committed polynomials.
    pub closed spec fn wf(&self) -> bool {
        &&& self@.verified(ord::<P>())
        &&& forall|i: int|
            0 <= i < self.deliveries@.len() ==> {
                let d = #[trigger] self.deliveries@[i];
                d.polynomial@.len() > 0 && d.constant.log() == d.polynomial@[0]
            }
    }

    /// Everything an aggregator holds is verified.
    pub proof fn lemma_wf(&self)
        requires
            self.wf(),
        ensures
            self@.verified(ord::<P>()),
            forall|i: int|
                0 <= i < self@.deliveries.len() ==> (
                #[trigger] self@.deliveries[i]).polynomial.len() > 0,
    {
        assert forall|i: int| 0 <= i < self@.deliveries.len() implies (
        #[trigger] self@.deliveries[i]).polynomial.len() > 0 by {
            assert(self.deliveries@[i].polynomial@.len() > 0);
        }
    }

    /// Creates an aggregator for `player_index` that sums exactly `dealer_set`.
    ///
    /// # Errors
    ///
    /// [`OsstError::InvalidIndex`] if the player's index is 0; otherwise what
    /// keeps `dealer_set` from being a set of share indices.
    pub fn new(player_index: u32, dealer_set: &[u32]) -> (r: Result<Self, OsstError>)
        ensures
            r is Ok <==> player_index != 0 && is_index_set(dealer_set@),
            r matches Ok(a) ==> a.wf() && a@.player == player_index && a@.deliveries.len() == 0
                && a@.dealers.to_multiset() == dealer_set@.to_multiset() && forall|d: u32|
                a@.dealers.contains(d) <==> #[trigger] dealer_set@.contains(d),
            r matches Err(e) ==> if player_index == 0 {
                e == OsstError::InvalidIndex
            } else {
                index_set_error(dealer_set@, e)
            },
    {
        if player_index == 0 {
            return Err(OsstError::InvalidIndex);
        }
        match index_set(dealer_set) {
            Ok(sorted) => Ok(
                Aggregator { player_index, dealer_set: sorted, deliveries: Vec::new() },
            ),
            Err(e) => Err(e),
        }
    }

    /// Aggregator over all dealers `1..=n`.
    ///
    /// # Errors
    ///
    /// [`OsstError::InvalidIndex`] if the player's index is 0,
    /// [`OsstError::EmptyContributions`] if there is no dealer.
    pub fn all_dealers(player_index: u32, n: u32) -> (r: Result<Self, OsstError>)
        ensures
            r is Ok <==> player_index != 0 && n != 0,
            r matches Ok(a) ==> a.wf() && a@.player == player_index && a@.deliveries.len() == 0
                && a@.dealers.len() == n && forall|d: u32|
                #[trigger] a@.dealers.contains(d) <==> 1 <= d <= n,
            r matches Err(e) ==> e == if player_index == 0 {
                OsstError::InvalidIndex
            } else {
                OsstError::EmptyContributions
            },
    {
        let mut set: Vec<u32> = Vec::new();
        let mut i: u32 = 0;
        while i < n
            invariant
                i <= n,
                set@ == Seq::new(i as nat, |k: int| (k + 1) as u32),
            decreases n - i,
        {
            set.push(i + 1);
            i += 1;
            assert(set@ =~= Seq::new(i as nat, |k: int| (k + 1) as u32));
        }
        proof {
            assert(set@.no_duplicates());
            assert forall|d: u32| #[trigger] set@.contains(d) <==> 1 <= d <= n by {
                if 1 <= d <= n {
                    assert(set@[d - 1] == d);
                }
            }
            assert(is_index_set(set@) <==> n != 0);
        }
        let r = Self::new(player_index, &set);
        proof {
            broadcast use vstd::seq_lib::group_to_multiset_ensures;

            if r is Ok {
                let a = r->Ok_0;
                assert(a@.dealers.to_multiset().len() == a@.dealers.len());
                assert(set@.to_multiset().len() == set@.len());
                assert forall|d: u32| #[trigger] a@.dealers.contains(d) <==> 1 <= d <= n by {
                    assert(set@.contains(d) <==> a@.dealers.contains(d));
                }
            }
        }
        r
    }

    /// Aggregator whose dealer set is the one the echo round agreed on.
    ///
    /// # Errors
    ///
    /// What [`new`](Self::new) gives for that set.
    pub fn from_agreed(player_index: u32, agreed: &AgreedRound1<P>) -> (r: Result<
        Self,
        OsstError,
    >)
        ensures
            r is Ok <==> player_index != 0 && is_index_set(agreed@.dealers()),
            r matches Ok(a) ==> a.wf() && a@.player == player_index && a@.deliveries.len() == 0
                && a@.dealers.to_multiset() == agreed@.dealers().to_multiset() && forall|d: u32|
                a@.dealers.contains(d) <==> #[trigger] agreed@.dealers().contains(d),
            r matches Err(e) ==> if player_index == 0 {
                e == OsstError::InvalidIndex
            } else {
                index_set_error(agreed@.dealers(), e)
            },
    {
        let set = agreed.dealer_set();
        Self::new(player_index, &set)
    }

    /// The player.
    pub fn player_index(&self) -> (r: u32)
        ensures
            r == self@.player,
    {
        self.player_index
    }

    /// The agreed dealer set, ascending.
    pub fn dealer_set(&self) -> (r: &[u32])
        ensures
            r@ == self@.dealers,
    {
        &self.dealer_set
    }

    /// Number of verified sub-shares collected.
    pub fn count(&self) -> (r: usize)
        ensures
            r == self@.deliveries.len(),
    {
        self.deliveries.len()
    }

    /// Whether a verified sub-share has arrived from every dealer of the set.
    pub fn is_complete(&self) -> (r: bool)
        ensures
            r == self@.complete(),
    {
        self.deliveries.len() == self.dealer_set.len()
    }

    /// Whether a dealer has delivered.
    fn has_delivered(&self, dealer: u32) -> (r: bool)
        ensures
            r == self@.delivered(dealer),
    {
        let mut i: usize = 0;
        while i < self.deliveries.len()
            invariant
                i <= self.deliveries@.len(),
                forall|j: int| 0 <= j < i ==> self@.deliveries[j].dealer != dealer,
            decreases self.deliveries@.len() - i,
        {
            if self.deliveries[i].dealer == dealer {
                assert(self@.deliveries[i as int].dealer == dealer);
                return true;
            }
            i += 1;
        }
        false
    }

    /// Dealers of the set whose sub-share has not arrived yet, ascending.
    pub fn missing_dealers(&self) -> (r: Vec<u32>)
        ensures
            r@ == self@.dealers.filter(|d: u32| !self@.delivered(d)),
    {
        let ghost keep = |d: u32| !self@.delivered(d);
        let mut out: Vec<u32> = Vec::new();
        let mut i: usize = 0;
        assert(self@.dealers.subrange(0, 0).filter(keep) =~= Seq::empty()) by {
            reveal(Seq::filter);
        }
        while i < self.dealer_set.len()
            invariant
                i <= self.dealer_set@.len(),
                keep == (|d: u32| !self@.delivered(d)),
                out@ == self@.dealers.subrange(0, i as int).filter(keep),
            decreases self.dealer_set@.len() - i,
        {
            let d = self.dealer_set[i];
            let ghost before = self@.dealers.subrange(0, i as int);
            let ghost after = self@.dealers.subrange(0, i as int + 1);
            proof {
                reveal(Seq::filter);
                assert(after.drop_last() =~= before);
                assert(after.last() == d);
            }
            if !self.has_delivered(d) {
                out.push(d);
            }
            i += 1;
        }
        assert(self@.dealers.subrange(0, i as int) =~= self@.dealers);
        out
    }

    /// Adds a sub-share after verifying it. The sub-share is consumed, and overwritten
    /// whatever comes of it.
    ///
    /// `Ok(true)` if it was added, `Ok(false)` if the dealer has delivered
    /// already.
    ///
    /// # Errors
    ///
    /// [`OsstError::InvalidIndex`] if it is not for this player or not from the
    /// dealer of the commitment, [`OsstError::UnexpectedDealer`] if the dealer
    /// is outside the set, [`OsstError::InvalidSubShare`] naming the dealer if
    /// the value is not on the committed polynomial.
    pub fn add_subshare(
        &mut self,
        subshare: SubShare<P::Scalar>,
        commitment: &DealerCommitment<P>,
    ) -> (r: Result<bool, OsstError>)
        requires
            old(self).wf(),
            add_outcome(old(self)@, subshare@, *commitment) == Ok::<bool, OsstError>(true)
                ==> commitment.coefficients@.len() > 0,
        ensures
            final(self).wf(),
            r == add_outcome(old(self)@, subshare@, *commitment),
            final(self)@ == after_add(old(self)@, subshare@, *commitment),
    {
        let mut subshare = subshare;
        let r = self.offer(&subshare, commitment);
        subshare.zeroize();
        r
    }

    /// Adds the value of a sub-share after verifying it.
    fn offer(&mut self, subshare: &SubShare<P::Scalar>, commitment: &DealerCommitment<P>) -> (r:
        Result<bool, OsstError>)
        requires
            old(self).wf(),
            add_outcome(old(self)@, subshare@, *commitment) == Ok::<bool, OsstError>(true)
                ==> commitment.coefficients@.len() > 0,
        ensures
            final(self).wf(),
            r == add_outcome(old(self)@, subshare@, *commitment),
            final(self)@ == after_add(old(self)@, subshare@, *commitment),
    {
        let dealer = subshare.dealer();
        if subshare.player() != self.player_index {
            return Err(OsstError::InvalidIndex);
        }
        if dealer != commitment.dealer_index {
            return Err(OsstError::InvalidIndex);
        }
        if dealer == 0 {
            return Err(OsstError::InvalidIndex);
        }
        if !contains_index(&self.dealer_set, dealer) {
            return Err(OsstError::UnexpectedDealer(dealer));
        }
        if self.has_delivered(dealer) {
            return Ok(false);
        }
        if !commitment.verify_subshare(self.player_index, subshare.value()) {
            return Err(OsstError::InvalidSubShare(dealer));
        }
        let ghost before = self@;
        self.deliveries.push(
            Delivery {
                dealer,
                value: *subshare.value(),
                constant: *commitment.share_commitment(),
                polynomial: Ghost(commitment.polynomial()),
            },
        );
        proof {
            assert(self@.deliveries =~= before.deliveries.push(
                DeliveryView {
                    dealer: subshare@.dealer,
                    value: subshare@.value,
                    polynomial: commitment.polynomial(),
                },
            ));
            assert forall|i: int, j: int| 0 <= i < j < self@.deliveries.len() implies
                #[trigger] self@.deliveries[i].dealer != #[trigger] self@.deliveries[j].dealer by {
                assert(self@.deliveries[i] == before.deliveries[i]);
                if j < before.deliveries.len() {
                    assert(self@.deliveries[j] == before.deliveries[j]);
                }
            }
            assert forall|i: int| 0 <= i < self@.deliveries.len() implies {
                let d = #[trigger] self@.deliveries[i];
                &&& self@.dealers.contains(d.dealer)
                &&& d.value == poly(d.polynomial, self@.player as int) % ord::<P>()
            } by {
                if i < before.deliveries.len() {
                    assert(self@.deliveries[i] == before.deliveries[i]);
                }
            }
        }
        Ok(true)
    }

    /// The error until every dealer of the set has delivered.
    pub open spec fn incomplete(&self) -> OsstError {
        OsstError::InsufficientContributions {
            got: self@.deliveries.len() as usize,
            need: self@.dealers.len() as usize,
        }
    }

    fn require_complete(&self) -> (r: Result<(), OsstError>)
        ensures
            r is Ok <==> self@.complete(),
            r matches Err(e) ==> e == self.incomplete(),
    {
        if !self.is_complete() {
            return Err(
                OsstError::InsufficientContributions {
                    got: self.deliveries.len(),
                    need: self.dealer_set.len(),
                },
            );
        }
        Ok(())
    }

    /// Derives the group public key: the sum of the constant terms over the
    /// dealer set.
    ///
    /// # Errors
    ///
    /// [`OsstError::InsufficientContributions`] until every dealer of the set
    /// has delivered.
    pub fn derive_group_key(&self) -> (r: Result<P, OsstError>)
        requires
            self.wf(),
        ensures
            r is Ok <==> self@.complete(),
            r matches Ok(p) ==> p.log() == group_key(self@, ord::<P>()),
            r matches Err(e) ==> e == self.incomplete(),
    {
        match self.require_complete() {
            Ok(_) => {},
            Err(e) => return Err(e),
        }
        let ghost n = ord::<P>();
        let ghost cs = Seq::new(
            self@.deliveries.len(),
            |i: int| self@.deliveries[i].polynomial[0],
        );
        proof {
            <P::Scalar as OsstScalar>::lemma_order();
            lemma_small_mod(0, n as nat);
            lemma_arrival_sums(self@, n);
            assert(cs.subrange(0, 0).len() == 0);
        }
        let mut key = P::identity();
        let mut i: usize = 0;
        while i < self.deliveries.len()
            invariant
                i <= self.deliveries@.len(),
                self.wf(),
                n == ord::<P>(),
                n > 0,
                cs == Seq::new(
                    self@.deliveries.len(),
                    |i: int| self@.deliveries[i].polynomial[0],
                ),
                key.log() == sum(cs.subrange(0, i as int)) % n,
            decreases self.deliveries@.len() - i,
        {
            key = key.add(&self.deliveries[i].constant);
            proof {
                assert(self.deliveries@[i as int].constant.log()
                    == self.deliveries@[i as int].polynomial@[0]);
                assert(cs.subrange(0, i as int + 1).drop_last() =~= cs.subrange(0, i as int));
                lemma_mod_add(sum(cs.subrange(0, i as int)), cs[i as int], n);
            }
            i += 1;
        }
        assert(cs.subrange(0, i as int) =~= cs);
        Ok(key)
    }

    /// Aggregates the final share: the sum of the sub-shares over the dealer
    /// set.
    ///
    /// # Errors
    ///
    /// [`OsstError::InsufficientContributions`] until every dealer of the set
    /// has delivered.
    pub fn finalize(&self) -> (r: Result<P::Scalar, OsstError>)
        requires
            self.wf(),
        ensures
            r is Ok <==> self@.complete(),
            r matches Ok(s) ==> s.val() == final_share(self@, ord::<P>()),
            r matches Err(e) ==> e == self.incomplete(),
    {
        match self.require_complete() {
            Ok(_) => {},
            Err(e) => return Err(e),
        }
        let ghost n = ord::<P>();
        let ghost vs = Seq::new(self@.deliveries.len(), |i: int| self@.deliveries[i].value);
        proof {
            <P::Scalar as OsstScalar>::lemma_order();
            lemma_small_mod(0, n as nat);
            lemma_arrival_sums(self@, n);
            assert(vs.subrange(0, 0).len() == 0);
        }
        let mut share = <P::Scalar as OsstScalar>::zero();
        let mut i: usize = 0;
        while i < self.deliveries.len()
            invariant
                i <= self.deliveries@.len(),
                n == ord::<P>(),
                n > 0,
                vs == Seq::new(self@.deliveries.len(), |i: int| self@.deliveries[i].value),
                share.val() == sum(vs.subrange(0, i as int)) % n,
            decreases self.deliveries@.len() - i,
        {
            share = share.add(&self.deliveries[i].value);
            proof {
                assert(vs.subrange(0, i as int + 1).drop_last() =~= vs.subrange(0, i as int));
                lemma_mod_add(sum(vs.subrange(0, i as int)), vs[i as int], n);
            }
            i += 1;
        }
        assert(vs.subrange(0, i as int) =~= vs);
        Ok(share)
    }
}

// ---------------------------------------------------------------------------
// Coordination
// ---------------------------------------------------------------------------

/// Round state of a key generation.
pub struct DkgState<P: OsstPoint> {
    /// Epoch being generated.
    pub epoch: u64,
    /// Threshold for the new key.
    pub threshold: u32,
    /// Total number of participants (all are dealers).
    pub num_participants: u32,
    /// Collected commitments, indexed by dealer index minus one.
    pub commitments: Vec<Option<DealerCommitment<P>>>,
    /// Dealers disqualified by a complaint, ascending.
    disqualified: Vec<u32>,
}

/// What a round state holds.
pub ghost struct DkgStateView<P: OsstPoint> {
    /// Epoch being generated.
    pub epoch: u64,
    /// Threshold for the new key.
    pub threshold: u32,
    /// Total number of participants.
    pub participants: u32,
    /// Collected commitments, by dealer.
    pub commitments: Seq<Option<DealerCommitment<P>>>,
    /// Disqualified dealers, ascending.
    pub disqualified: Seq<u32>,
}

impl<P: OsstPoint> View for DkgState<P> {
    type V = DkgStateView<P>;

    closed spec fn view(&self) -> DkgStateView<P> {
        DkgStateView {
            epoch: self.epoch,
            threshold: self.threshold,
            participants: self.num_participants,
            commitments: self.commitments@,
            disqualified: self.disqualified@,
        }
    }
}

/// The values of several committed polynomials at a player.
pub open spec fn committed_values<P: OsstPoint>(
    cs: Seq<DealerCommitment<P>>,
    player: u32,
) -> Seq<int> {
    Seq::new(cs.len(), |i: int| cs[i].value_at(player))
}

/// What several dealers committed to.
pub open spec fn commitment_views<P: OsstPoint>(cs: Seq<DealerCommitment<P>>) -> Seq<
    CommitmentView,
> {
    Seq::new(cs.len(), |i: int| cs[i]@)
}

impl<P: OsstPoint> DkgStateView<P> {
    /// What a round state keeps: a slot for each participant that holds its own
    /// commitment to the threshold, and a set of disqualified dealers whose
    /// slots are empty.
    pub open spec fn wf(self) -> bool {
        &&& self.commitments.len() == self.participants
        &&& forall|i: int|
            0 <= i < self.commitments.len() ==> (#[trigger] self.commitments[i] matches Some(c)
                ==> {
                &&& c.dealer_index == i + 1
                &&& c.coefficients@.len() as u32 == self.threshold
                &&& c.coefficients@.len() > 0
                &&& !self.disqualified.contains((i + 1) as u32)
            })
        &&& ascending(self.disqualified)
        &&& forall|i: int|
            0 <= i < self.disqualified.len() ==> 1 <= #[trigger] self.disqualified[i]
                <= self.participants
    }

    /// Every participant that has not been disqualified has committed.
    pub open spec fn complete(self) -> bool {
        submitted(self.commitments).len() + self.disqualified.len() == self.participants
    }

    /// The error until then.
    pub open spec fn incomplete(self) -> OsstError {
        OsstError::InsufficientContributions {
            got: submitted(self.commitments).len() as usize,
            need: (self.participants - self.disqualified.len()) as usize,
        }
    }

    /// The group key: the sum of the constant terms.
    pub open spec fn group_key(self) -> int {
        sum(constant_terms(submitted(self.commitments))) % ord::<P>()
    }

    /// The verifying share of a player: the sum of the committed values.
    pub open spec fn verification_share(self, player: u32) -> int {
        sum(committed_values(submitted(self.commitments), player)) % ord::<P>()
    }

    /// What comes of submitting a package: whether it is new, or why it is
    /// refused.
    pub open spec fn submit_outcome(self, package: Round1Package<P>) -> Result<bool, OsstError> {
        let c = package.commitment;
        if !package.is_proved(self.epoch) {
            Err(OsstError::InvalidProofOfKnowledge(c.dealer_index))
        } else if self.disqualified.contains(c.dealer_index) {
            Err(OsstError::UnexpectedDealer(c.dealer_index))
        } else if c.dealer_index == 0 || c.dealer_index > self.commitments.len() {
            Err(OsstError::InvalidIndex)
        } else if c.coefficients@.len() as u32 != self.threshold {
            Err(OsstError::InvalidCommitment)
        } else {
            Ok(self.commitments[c.dealer_index - 1] is None)
        }
    }

    /// The state after a submission.
    pub open spec fn after_submit(self, package: Round1Package<P>) -> Self {
        if self.submit_outcome(package) == Ok::<bool, OsstError>(true) {
            let c = package.commitment;
            DkgStateView {
                commitments: self.commitments.update(c.dealer_index - 1, Some(c)),
                ..self
            }
        } else {
            self
        }
    }
}

/// What stands in the slots of a well-formed state.
proof fn lemma_slots<P: OsstPoint>(v: DkgStateView<P>)
    requires
        v.wf(),
    ensures
        submitted(v.commitments).len() <= v.participants,
        ascending(dealer_indices(submitted(v.commitments))),
        forall|k: int|
            0 <= k < submitted(v.commitments).len() ==> (
            #[trigger] submitted(v.commitments)[k]).coefficients@.len() > 0,
        v.disqualified.len() <= v.participants,
{
    reshare::lemma_submitted(v.commitments, v.threshold);
    let s = submitted(v.commitments);
    assert forall|k: int| 0 <= k < s.len() implies (#[trigger] s[k]).coefficients@.len() > 0 by {
        assert(v.commitments[s[k].dealer_index - 1] == Some(s[k]));
    }
    lemma_ascending_bound(v.disqualified, v.participants);
}

impl<P: OsstPoint> DkgState<P> {
    /// Starts a key generation.
    pub fn new(epoch: u64, threshold: u32, num_participants: u32) -> (r: Self)
        ensures
            r@ == (DkgStateView {
                epoch,
                threshold,
                participants: num_participants,
                commitments: Seq::new(
                    num_participants as nat,
                    |i: int| None::<DealerCommitment<P>>,
                ),
                disqualified: Seq::empty(),
            }),
            r@.wf(),
    {
        let mut commitments: Vec<Option<DealerCommitment<P>>> = Vec::new();
        let mut i: u32 = 0;
        while i < num_participants
            invariant
                i <= num_participants,
                commitments@ == Seq::new(i as nat, |i: int| None::<DealerCommitment<P>>),
            decreases num_participants - i,
        {
            commitments.push(None);
            i += 1;
            assert(commitments@ =~= Seq::new(i as nat, |i: int| None::<DealerCommitment<P>>));
        }
        let r = DkgState {
            epoch,
            threshold,
            num_participants,
            commitments,
            disqualified: Vec::new(),
        };
        assert(r@.disqualified =~= Seq::empty());
        r
    }

    /// Epoch being generated.
    pub fn epoch(&self) -> (r: u64)
        ensures
            r == self@.epoch,
    {
        self.epoch
    }

    /// Threshold for the new key.
    pub fn threshold(&self) -> (r: u32)
        ensures
            r == self@.threshold,
    {
        self.threshold
    }

    /// Total number of participants.
    pub fn num_participants(&self) -> (r: u32)
        ensures
            r == self@.participants,
    {
        self.num_participants
    }

    /// Collected commitments, indexed by dealer index minus one.
    pub fn commitments(&self) -> (r: &[Option<DealerCommitment<P>>])
        ensures
            r@ == self@.commitments,
    {
        &self.commitments
    }

    /// Submits a dealer's round-1 package.
    ///
    /// `Ok(true)` if it is new, `Ok(false)` if the dealer has committed already.
    /// The proof of knowledge is verified before the commitment is recorded.
    ///
    /// # Errors
    ///
    /// [`OsstError::InvalidProofOfKnowledge`] naming the dealer,
    /// [`OsstError::UnexpectedDealer`] if the dealer is disqualified,
    /// [`OsstError::InvalidIndex`] if there is no such dealer,
    /// [`OsstError::InvalidCommitment`] if it is not to the threshold.
    pub fn submit_commitment(&mut self, package: Round1Package<P>) -> (r: Result<bool, OsstError>)
        requires
            old(self)@.wf(),
            package.commitment.coefficients@.len() > 0,
        ensures
            r == old(self)@.submit_outcome(package),
            final(self)@ == old(self)@.after_submit(package),
            final(self)@.wf(),
    {
        match package.verify(self.epoch) {
            Ok(_) => {},
            Err(e) => return Err(e),
        }
        let commitment = package.commitment;
        if contains_index(&self.disqualified, commitment.dealer_index) {
            return Err(OsstError::UnexpectedDealer(commitment.dealer_index));
        }
        if commitment.dealer_index == 0 {
            return Err(OsstError::InvalidIndex);
        }
        let idx: u32 = commitment.dealer_index - 1;
        if idx as u64 >= self.commitments.len() as u64 {
            return Err(OsstError::InvalidIndex);
        }
        if commitment.threshold() != self.threshold {
            return Err(OsstError::InvalidCommitment);
        }
        if self.commitments[idx as usize].is_some() {
            return Ok(false);
        }
        self.commitments.set(idx as usize, Some(commitment));
        Ok(true)
    }

    /// Number of commitments received.
    pub fn commitment_count(&self) -> (r: usize)
        ensures
            r == submitted(self@.commitments).len(),
    {
        self.get_commitments().len()
    }

    /// Whether every participant that has not been disqualified has submitted a
    /// commitment.
    pub fn is_complete(&self) -> (r: bool)
        requires
            self@.wf(),
        ensures
            r == self@.complete(),
    {
        proof {
            lemma_slots(self@);
        }
        self.commitment_count() as u64 + self.disqualified.len() as u64
            == self.num_participants as u64
    }

    /// Dealers disqualified by a complaint, ascending.
    pub fn disqualified(&self) -> (r: &[u32])
        ensures
            r@ == self@.disqualified,
    {
        &self.disqualified
    }

    /// Dealers still in the ceremony that have committed, ascending.
    pub fn qualified_dealers(&self) -> (r: Vec<u32>)
        ensures
            r@ == dealer_indices(submitted(self@.commitments)),
    {
        let all = self.get_commitments();
        let ghost s = submitted(self@.commitments);
        let mut out: Vec<u32> = Vec::new();
        let mut i: usize = 0;
        assert(dealer_indices(s.subrange(0, 0)) =~= Seq::empty());
        while i < all.len()
            invariant
                i <= all@.len(),
                all@.len() == s.len(),
                forall|k: int| 0 <= k < all@.len() ==> *(#[trigger] all@[k]) == s[k],
                out@ == dealer_indices(s.subrange(0, i as int)),
            decreases all@.len() - i,
        {
            out.push(all[i].dealer_index);
            i += 1;
            assert(out@ =~= dealer_indices(s.subrange(0, i as int)));
        }
        assert(s.subrange(0, i as int) =~= s);
        out
    }

    /// Disqualifies a dealer named by a complaint. Its commitment is dropped, so
    /// it contributes nothing to the group key or to any verifying share, and
    /// further submissions from it are refused.
    ///
    /// This is a local mutation: every participant must apply the same
    /// complaints, or they derive different keys.
    ///
    /// # Errors
    ///
    /// [`OsstError::InvalidIndex`] if there is no such dealer;
    /// [`OsstError::DkgAborted`] when fewer than `threshold` dealers remain: the
    /// dealer is disqualified, and the ceremony must be restarted.
    pub fn disqualify(&mut self, dealer_index: u32) -> (r: Result<(), OsstError>)
        requires
            old(self)@.wf(),
        ensures
            final(self)@.wf(),
            dealer_index == 0 || dealer_index > old(self)@.participants ==> final(self)@ == old(
                self,
            )@ && r == Err::<(), OsstError>(OsstError::InvalidIndex),
            1 <= dealer_index <= old(self)@.participants ==> {
                let remaining = final(self)@.participants - final(self)@.disqualified.len();
                &&& final(self)@ == (DkgStateView {
                    commitments: old(self)@.commitments.update(dealer_index - 1, None),
                    disqualified: final(self)@.disqualified,
                    ..old(self)@
                })
                &&& forall|d: u32| #[trigger]
                    final(self)@.disqualified.contains(d) <==> old(self)@.disqualified.contains(d)
                        || d == dealer_index
                &&& r == if remaining < old(self)@.threshold {
                    Err::<(), OsstError>(
                        OsstError::DkgAborted {
                            qualified: remaining as usize,
                            need: old(self)@.threshold as usize,
                        },
                    )
                } else {
                    Ok(())
                }
            },
    {
        if dealer_index == 0 {
            return Err(OsstError::InvalidIndex);
        }
        let idx: u32 = dealer_index - 1;
        if idx as u64 >= self.commitments.len() as u64 {
            return Err(OsstError::InvalidIndex);
        }
        let ghost before = self@;
        self.commitments.set(idx as usize, None);
        insert_index(&mut self.disqualified, dealer_index);
        proof {
            let after = self@;
            assert(after.commitments =~= before.commitments.update(dealer_index - 1, None));
            assert forall|i: int| 0 <= i < after.disqualified.len() implies 1
                <= #[trigger] after.disqualified[i] <= after.participants by {
                assert(after.disqualified.contains(after.disqualified[i]));
                if after.disqualified[i] != dealer_index {
                    assert(before.disqualified.contains(after.disqualified[i]));
                }
            }
            assert forall|i: int| 0 <= i < after.commitments.len() implies (
            #[trigger] after.commitments[i] matches Some(c) ==> {
                &&& c.dealer_index == i + 1
                &&& c.coefficients@.len() as u32 == after.threshold
                &&& c.coefficients@.len() > 0
                &&& !after.disqualified.contains((i + 1) as u32)
            }) by {
                if i != dealer_index - 1 {
                    assert(after.commitments[i] == before.commitments[i]);
                    assert(!before.disqualified.contains((i + 1) as u32)
                        || before.commitments[i] is None);
                }
            }
            lemma_slots(after);
        }
        let remaining: usize = self.num_participants as usize - self.disqualified.len();
        if (remaining as u64) < self.threshold as u64 {
            return Err(
                OsstError::DkgAborted { qualified: remaining, need: self.threshold as usize },
            );
        }
        Ok(())
    }

    /// The error until round 1 is complete.
    fn incomplete(&self) -> (r: OsstError)
        requires
            self@.wf(),
        ensures
            r == self@.incomplete(),
    {
        proof {
            lemma_slots(self@);
        }
        OsstError::InsufficientContributions {
            got: self.commitment_count(),
            need: self.num_participants as usize - self.disqualified.len(),
        }
    }

    /// Derives the group public key from the qualified commitments.
    ///
    /// This sums commitments; it does not witness the sub-share round.
    ///
    /// # Errors
    ///
    /// [`OsstError::InsufficientContributions`] until round 1 is complete.
    pub fn derive_group_key(&self) -> (r: Result<P, OsstError>)
        requires
            self@.wf(),
        ensures
            r is Ok <==> self@.complete(),
            r matches Ok(p) ==> p.log() == self@.group_key(),
            r matches Err(e) ==> e == self@.incomplete(),
    {
        if !self.is_complete() {
            return Err(self.incomplete());
        }
        let all = self.get_commitments();
        let ghost n = ord::<P>();
        let ghost s = submitted(self@.commitments);
        let ghost cs = constant_terms(s);
        proof {
            <P::Scalar as OsstScalar>::lemma_order();
            lemma_small_mod(0, n as nat);
            lemma_slots(self@);
            assert(cs.subrange(0, 0).len() == 0);
        }
        let mut key = P::identity();
        let mut i: usize = 0;
        while i < all.len()
            invariant
                i <= all@.len(),
                n == ord::<P>(),
                n > 0,
                all@.len() == s.len(),
                cs == constant_terms(s),
                forall|k: int| 0 <= k < all@.len() ==> *(#[trigger] all@[k]) == s[k],
                forall|k: int| 0 <= k < s.len() ==> (#[trigger] s[k]).coefficients@.len() > 0,
                key.log() == sum(cs.subrange(0, i as int)) % n,
            decreases all@.len() - i,
        {
            assert(*all@[i as int] == s[i as int]);
            key = key.add(all[i].share_commitment());
            proof {
                assert(cs.subrange(0, i as int + 1).drop_last() =~= cs.subrange(0, i as int));
                lemma_mod_add(sum(cs.subrange(0, i as int)), cs[i as int], n);
            }
            i += 1;
        }
        assert(cs.subrange(0, i as int) =~= cs);
        Ok(key)
    }

    /// Derives the public verifying share of a player: the sum of the committed
    /// values at its index.
    ///
    /// # Errors
    ///
    /// [`OsstError::InvalidIndex`] if the index is 0,
    /// [`OsstError::InsufficientContributions`] until round 1 is complete.
    pub fn derive_verification_share(&self, player_index: u32) -> (r: Result<P, OsstError>)
        requires
            self@.wf(),
        ensures
            r is Ok <==> player_index != 0 && self@.complete(),
            r matches Ok(p) ==> p.log() == self@.verification_share(player_index),
            r matches Err(e) ==> e == if player_index == 0 {
                OsstError::InvalidIndex
            } else {
                self@.incomplete()
            },
    {
        if player_index == 0 {
            return Err(OsstError::InvalidIndex);
        }
        if !self.is_complete() {
            return Err(self.incomplete());
        }
        let all = self.get_commitments();
        let ghost n = ord::<P>();
        let ghost s = submitted(self@.commitments);
        let ghost vs = committed_values(s, player_index);
        proof {
            <P::Scalar as OsstScalar>::lemma_order();
            lemma_small_mod(0, n as nat);
            assert(vs.subrange(0, 0).len() == 0);
        }
        let mut vshare = P::identity();
        let mut i: usize = 0;
        while i < all.len()
            invariant
                i <= all@.len(),
                n == ord::<P>(),
                n > 0,
                player_index != 0,
                all@.len() == s.len(),
                vs == committed_values(s, player_index),
                forall|k: int| 0 <= k < all@.len() ==> *(#[trigger] all@[k]) == s[k],
                vshare.log() == sum(vs.subrange(0, i as int)) % n,
            decreases all@.len() - i,
        {
            assert(*all@[i as int] == s[i as int]);
            match all[i].evaluate_at(player_index) {
                Ok(p) => {
                    vshare = vshare.add(&p);
                    proof {
                        assert(vs.subrange(0, i as int + 1).drop_last() =~= vs.subrange(
                            0,
                            i as int,
                        ));
                        lemma_mod_add(sum(vs.subrange(0, i as int)), vs[i as int], n);
                    }
                },
                Err(_) => {
                    assert(false);
                },
            }
            i += 1;
        }
        assert(vs.subrange(0, i as int) =~= vs);
        Ok(vshare)
    }

    /// Derives all verifying shares, for players `1..=num_participants`.
    ///
    /// # Errors
    ///
    /// [`OsstError::InsufficientContributions`] until round 1 is complete.
    pub fn derive_all_verification_shares(&self) -> (r: Result<BTreeMap<u32, P>, OsstError>)
        requires
            self@.wf(),
        ensures
            r is Ok <==> self@.complete(),
            r matches Ok(m) ==> forall|j: u32|
                {
                    &&& #[trigger] m@.contains_key(j) <==> 1 <= j <= self@.participants
                    &&& m@.contains_key(j) ==> m@[j].log() == self@.verification_share(j)
                },
            r matches Err(e) ==> e == self@.incomplete(),
    {
        proof {
            if self@.participants == 0 {
                lemma_slots(self@);
            }
        }
        let mut map: BTreeMap<u32, P> = BTreeMap::new();
        let mut j: u32 = 0;
        while j < self.num_participants
            invariant
                j <= self.num_participants,
                self@.wf(),
                j > 0 ==> self@.complete(),
                forall|k: u32|
                    {
                        &&& #[trigger] map@.contains_key(k) <==> 1 <= k <= j
                        &&& map@.contains_key(k) ==> map@[k].log() == self@.verification_share(k)
                    },
            decreases self.num_participants - j,
        {
            match self.derive_verification_share(j + 1) {
                Ok(p) => {
                    map.insert(j + 1, p);
                },
                Err(e) => return Err(e),
            }
            j += 1;
        }
        Ok(map)
    }

    /// All submitted commitments, in ascending order of dealers.
    pub fn get_commitments(&self) -> (r: Vec<&DealerCommitment<P>>)
        ensures
            r@.len() == submitted(self@.commitments).len(),
            forall|k: int|
                0 <= k < r@.len() ==> *(#[trigger] r@[k]) == submitted(self@.commitments)[k],
    {
        reshare::collect_submitted(&self.commitments)
    }

    /// The agreed round-1 set and this participant's echo digest over it.
    ///
    /// Broadcast [`AgreedRound1::digest`], collect the peers' digests, and call
    /// [`AgreedRound1::confirm_all`] before any round-2 message is sent or
    /// opened.
    ///
    /// # Errors
    ///
    /// [`OsstError::InsufficientContributions`] unless round 1 is complete:
    /// echoing a partial set agrees on nothing.
    pub fn agreed_round1(&self) -> (r: Result<AgreedRound1<P>, OsstError>)
        requires
            self@.wf(),
        ensures
            r is Ok <==> self@.complete(),
            r matches Ok(a) ==> a.wf() && a@ == (AgreedView {
                epoch: self@.epoch,
                threshold: self@.threshold,
                digest: echo_digest::<P>(
                    self@.epoch,
                    self@.threshold,
                    self@.participants,
                    commitment_views(submitted(self@.commitments)),
                ),
                commitments: commitment_views(submitted(self@.commitments)),
            }) && forall|i: int|
                0 <= i < a@.commitments.len() ==> is_encodable::<P>(#[trigger] a@.commitments[i]),
            r matches Err(e) ==> e == self@.incomplete(),
    {
        if !self.is_complete() {
            return Err(self.incomplete());
        }
        let all = self.get_commitments();
        let ghost s = submitted(self@.commitments);
        let mut commitments: Vec<DealerCommitment<P>> = Vec::new();
        let mut i: usize = 0;
        while i < all.len()
            invariant
                i <= all@.len(),
                all@.len() == s.len(),
                forall|k: int| 0 <= k < all@.len() ==> *(#[trigger] all@[k]) == s[k],
                commitments@.len() == i,
                forall|k: int|
                    0 <= k < i ==> (#[trigger] commitments@[k])@ == s[k]@
                        && commitments@[k].coefficients@ == s[k].coefficients@,
            decreases all@.len() - i,
        {
            assert(*all@[i as int] == s[i as int]);
            commitments.push(all[i].clone());
            i += 1;
        }
        proof {
            assert(commitment_views(commitments@) =~= commitment_views(s));
            lemma_slots(self@);
        }
        let digest = round1_echo_digest::<P>(
            self.epoch,
            self.threshold,
            self.num_participants,
            &commitments,
        );
        let a = AgreedRound1 {
            epoch: self.epoch,
            threshold: self.threshold,
            digest,
            commitments,
        };
        proof {
            assert(a@.dealers() =~= dealer_indices(s));
            assert forall|i: int| 0 <= i < a@.commitments.len() implies is_encodable::<P>(
                #[trigger] a@.commitments[i],
            ) by {
                assert(a.commitments@[i]@ == a@.commitments[i]);
            }
        }
        Ok(a)
    }
}

// ---------------------------------------------------------------------------
// Justified complaints
// ---------------------------------------------------------------------------

/// What a complaint accuses a dealer of, and the evidence for it.
///
/// A forged proof of knowledge is checkable by anyone with no trust in the
/// accuser. A bad sub-share is weaker: anyone can confirm that the revealed
/// value does not lie on the commitment, but only the recipient can know that
/// the dealer actually sent it.
pub enum ComplaintEvidence<P: OsstPoint> {
    /// The dealer's round-1 package, whose proof of knowledge does not verify.
    ForgedProofOfKnowledge {
        /// The package.
        package: Round1Package<P>,
    },
    /// The dealer's commitment, the sub-share the accuser decrypted, and a
    /// digest of the sealed package it came in.
    BadSubShare {
        /// The commitment.
        commitment: DealerCommitment<P>,
        /// The sub-share.
        revealed: SubShare<P::Scalar>,
        /// Digest of the sealed ciphertext as delivered.
        sealed_digest: [u8; 32],
    },
}

impl<P: OsstPoint> Clone for ComplaintEvidence<P> {
    fn clone(&self) -> (r: Self)
        ensures
            evidence_bytes(r) == evidence_bytes(*self),
    {
        match self {
            ComplaintEvidence::ForgedProofOfKnowledge { package } => {
                ComplaintEvidence::ForgedProofOfKnowledge { package: package.clone() }
            },
            ComplaintEvidence::BadSubShare { commitment, revealed, sealed_digest } => {
                ComplaintEvidence::BadSubShare {
                    commitment: commitment.clone(),
                    revealed: revealed.clone(),
                    sealed_digest: *sealed_digest,
                }
            },
        }
    }
}

/// The dealer that some evidence is about.
pub open spec fn accused<P: OsstPoint>(evidence: ComplaintEvidence<P>) -> u32 {
    match evidence {
        ComplaintEvidence::ForgedProofOfKnowledge { package } => package.commitment.dealer_index,
        ComplaintEvidence::BadSubShare { commitment, .. } => commitment.dealer_index,
    }
}

/// The encoding of evidence: its kind, then its parts, each preceded by its
/// length.
pub open spec fn evidence_bytes<P: OsstPoint>(evidence: ComplaintEvidence<P>) -> Seq<u8> {
    match evidence {
        ComplaintEvidence::ForgedProofOfKnowledge { package } => seq![1u8] + (prefixed(
            commitment_bytes::<P>(package.commitment@),
        ) + (prefixed(P::encoding(package.proof_of_knowledge.r.log())) + prefixed(
            <P::Scalar as OsstScalar>::repr(package.proof_of_knowledge.z.val()),
        ))),
        ComplaintEvidence::BadSubShare { commitment, revealed, sealed_digest } => seq![2u8] + (
        prefixed(commitment_bytes::<P>(commitment@)) + (prefixed(
            subshare_bytes::<P::Scalar>(revealed@),
        ) + prefixed(sealed_digest@))),
    }
}

/// What some evidence consists of has encodings.
pub open spec fn is_presentable<P: OsstPoint>(evidence: ComplaintEvidence<P>) -> bool {
    match evidence {
        ComplaintEvidence::ForgedProofOfKnowledge { package } => {
            &&& is_encodable::<P>(package.commitment@)
            &&& has_encoding::<P>(package.proof_of_knowledge.r.log())
        },
        ComplaintEvidence::BadSubShare { commitment, revealed, .. } => {
            &&& is_encodable::<P>(commitment@)
            &&& 0 <= revealed@.value < ord::<P>()
        },
    }
}

/// Two pieces of evidence say the same: they are of one kind, about one commitment, and
/// carry the same proof, or the same sub-share from the same sealed package.
pub open spec fn same_evidence<P: OsstPoint>(
    a: ComplaintEvidence<P>,
    b: ComplaintEvidence<P>,
) -> bool {
    match (a, b) {
        (
            ComplaintEvidence::ForgedProofOfKnowledge { package: p },
            ComplaintEvidence::ForgedProofOfKnowledge { package: q },
        ) => {
            &&& p.commitment.dealer_index == q.commitment.dealer_index
            &&& p.commitment.polynomial() == q.commitment.polynomial()
            &&& p.proof_of_knowledge.r.log() == q.proof_of_knowledge.r.log()
            &&& p.proof_of_knowledge.z.val() == q.proof_of_knowledge.z.val()
        },
        (
            ComplaintEvidence::BadSubShare { commitment: c, revealed: s, sealed_digest: g },
            ComplaintEvidence::BadSubShare { commitment: d, revealed: t, sealed_digest: h },
        ) => {
            &&& c.dealer_index == d.dealer_index
            &&& c.polynomial() == d.polynomial()
            &&& s@.dealer == t@.dealer
            &&& s@.player == t@.player
            &&& s@.value == t@.value
            &&& g@ == h@
        },
        _ => false,
    }
}

/// Appends a byte string preceded by its length.
fn put_field(out: &mut Vec<u8>, bytes: &[u8])
    ensures
        final(out)@ == old(out)@ + prefixed(bytes@),
{
    let ghost before = out@;
    put_len(out, bytes.len());
    put_slice(out, bytes);
    assert(out@ =~= before + prefixed(bytes@));
}

impl<P: OsstPoint> ComplaintEvidence<P> {
    /// The dealer this evidence is about.
    pub fn accused_index(&self) -> (r: u32)
        ensures
            r == accused(*self),
    {
        match self {
            ComplaintEvidence::ForgedProofOfKnowledge { package } => package.dealer_index(),
            ComplaintEvidence::BadSubShare { commitment, .. } => commitment.dealer_index,
        }
    }

    fn encode_into(&self, out: &mut Vec<u8>)
        ensures
            final(out)@ == old(out)@ + evidence_bytes(*self),
            is_presentable(*self),
    {
        let ghost before = out@;
        match self {
            ComplaintEvidence::ForgedProofOfKnowledge { package } => {
                out.push(1);
                let c = package.commitment.to_bytes();
                put_field(out, &c);
                let r = package.proof_of_knowledge.r.compress_vec();
                put_field(out, &r);
                let z = package.proof_of_knowledge.z.to_bytes();
                put_field(out, &z);
                assert(out@ =~= before + evidence_bytes(*self));
            },
            ComplaintEvidence::BadSubShare { commitment, revealed, sealed_digest } => {
                out.push(2);
                let c = commitment.to_bytes();
                put_field(out, &c);
                let s = revealed.encode_plaintext();
                put_field(out, &s);
                put_field(out, sealed_digest);
                assert(out@ =~= before + evidence_bytes(*self));
            },
        }
    }
}

/// What a verifier concluded about a complaint whose signature checked out.
#[derive(Clone, Copy, Debug, PartialEq, Eq, Structural)]
pub enum ComplaintVerdict {
    /// The evidence holds: disqualify the dealer.
    Upheld,
    /// The complaint is authentic but the evidence does not show what it claims:
    /// the accuser, not the accused, is the problem.
    Unfounded,
}

/// A signed, ceremony-bound, justified complaint against a dealer.
///
/// It is signed by the accuser's long-term identity key and bound to the epoch,
/// the session and the round, so it cannot be forged or replayed into a later
/// ceremony, and it names who to blame if it is unfounded. The identity keys
/// must be part of the signed roster of the ceremony.
pub struct Complaint<P: OsstPoint> {
    /// The ceremony this complaint belongs to.
    pub epoch: u64,
    /// The ceremony's session id.
    pub session_id: [u8; 32],
    /// Which round the offence was observed in (1 or 2).
    pub round: u8,
    /// The complainant's roster index.
    pub accuser_index: u32,
    /// The accused dealer's index. Must agree with the evidence.
    pub accused_index: u32,
    /// What the dealer is accused of, and the proof.
    pub evidence: ComplaintEvidence<P>,
    /// The commitment of the accuser's signature.
    pub r: P,
    /// The response of the accuser's signature.
    pub s: P::Scalar,
}

/// The signed body of a complaint: everything but the signature.
pub open spec fn complaint_body(
    epoch: u64,
    session_id: Seq<u8>,
    round: u8,
    accuser: u32,
    accused: u32,
    evidence: Seq<u8>,
) -> Seq<u8> {
    prefixed(COMPLAINT_SIG_DOMAIN@) + (le_bytes(epoch as int, 8) + (session_id + (seq![round] + (
    le_bytes(accuser as int, 4) + (le_bytes(accused as int, 4) + evidence)))))
}

/// What the challenge of a complaint's signature is a hash of: the domain, the
/// commitment, the accuser's key and the body preceded by its length.
pub open spec fn complaint_input<P: OsstPoint>(r: int, key: int, body: Seq<u8>) -> Seq<u8> {
    COMPLAINT_SIG_DOMAIN@ + P::encoding(r) + P::encoding(key) + prefixed(body)
}

/// The challenge of a complaint's signature.
pub open spec fn complaint_challenge<P: OsstPoint>(r: int, key: int, body: Seq<u8>) -> int {
    hash_value::<P::Scalar>(complaint_input::<P>(r, key, body))
}

impl<P: OsstPoint> Complaint<P> {
    /// The signed body.
    pub open spec fn signed_body(&self) -> Seq<u8> {
        complaint_body(
            self.epoch,
            self.session_id@,
            self.round,
            self.accuser_index,
            self.accused_index,
            evidence_bytes(self.evidence),
        )
    }

    /// What a complaint consists of has encodings.
    pub open spec fn is_bindable(&self) -> bool {
        &&& is_presentable(self.evidence)
        &&& has_encoding::<P>(self.r.log())
        &&& self.signed_body().len() <= u64::MAX
    }

    /// The signature is the accuser's.
    pub open spec fn is_signed_by(&self, key: int) -> bool {
        self.s.val() == schnorr_response(
            self.r.log(),
            complaint_challenge::<P>(self.r.log(), key, self.signed_body()),
            key,
            ord::<P>(),
        )
    }

    /// The complaint is of this ceremony, names whom its evidence names, and is
    /// signed by the accuser.
    pub open spec fn is_authentic(&self, epoch: u64, session_id: Seq<u8>, key: int) -> bool {
        &&& self.epoch == epoch
        &&& self.session_id@ == session_id
        &&& self.accuser_index != 0
        &&& self.accused_index != 0
        &&& self.accused_index == accused(self.evidence)
        &&& self.is_signed_by(key)
    }

    /// There is something to judge: the package of an accused dealer commits to
    /// something.
    pub open spec fn is_adjudicable(&self) -> bool {
        match self.evidence {
            ComplaintEvidence::ForgedProofOfKnowledge { package } => {
                package.commitment.dealer_index == self.accused_index
                    ==> package.commitment.coefficients@.len() > 0
            },
            ComplaintEvidence::BadSubShare { .. } => true,
        }
    }

    /// What the evidence shows.
    pub open spec fn verdict(&self) -> ComplaintVerdict {
        match self.evidence {
            ComplaintEvidence::ForgedProofOfKnowledge { package } => {
                if package.commitment.dealer_index == self.accused_index && !package.is_proved(
                    self.epoch,
                ) {
                    ComplaintVerdict::Upheld
                } else {
                    ComplaintVerdict::Unfounded
                }
            },
            ComplaintEvidence::BadSubShare { commitment, revealed, .. } => {
                if commitment.dealer_index == self.accused_index && revealed@.dealer
                    == self.accused_index && revealed@.player == self.accuser_index && !(
                revealed@.player != 0 && revealed@.value == commitment.value_at(revealed@.player)) {
                    ComplaintVerdict::Upheld
                } else {
                    ComplaintVerdict::Unfounded
                }
            },
        }
    }

    fn body(
        epoch: u64,
        session_id: &[u8; 32],
        round: u8,
        accuser_index: u32,
        accused_index: u32,
        evidence: &ComplaintEvidence<P>,
    ) -> (r: Vec<u8>)
        ensures
            r@ == complaint_body(
                epoch,
                session_id@,
                round,
                accuser_index,
                accused_index,
                evidence_bytes(*evidence),
            ),
            r@.len() <= u64::MAX,
            is_presentable(*evidence),
    {
        let mut out: Vec<u8> = Vec::new();
        put_field(&mut out, &COMPLAINT_SIG_DOMAIN);
        put_u64(&mut out, epoch);
        put_slice(&mut out, session_id);
        out.push(round);
        put_u32(&mut out, accuser_index);
        put_u32(&mut out, accused_index);
        evidence.encode_into(&mut out);
        assert(out@ =~= complaint_body(
            epoch,
            session_id@,
            round,
            accuser_index,
            accused_index,
            evidence_bytes(*evidence),
        ));
        assert(out.len() <= u64::MAX);
        out
    }

    fn challenge(r: &P, accuser_pubkey: &P, body: &[u8]) -> (e: P::Scalar)
        ensures
            e.val() == complaint_challenge::<P>(r.log(), accuser_pubkey.log(), body@),
            has_encoding::<P>(r.log()),
            has_encoding::<P>(accuser_pubkey.log()),
    {
        let mut h: Vec<u8> = Vec::new();
        put_slice(&mut h, &COMPLAINT_SIG_DOMAIN);
        let rc = r.compress_vec();
        put_slice(&mut h, &rc);
        let y = accuser_pubkey.compress_vec();
        put_slice(&mut h, &y);
        put_field(&mut h, body);
        assert(h@ =~= COMPLAINT_SIG_DOMAIN@ + P::encoding(r.log()) + P::encoding(
            accuser_pubkey.log(),
        ) + prefixed(body@));
        hash_to_scalar::<P::Scalar>(&h)
    }

    /// Raises a complaint with a given signature nonce, which must be used once.
    ///
    /// # Errors
    ///
    /// [`OsstError::InvalidIndex`] if the accuser's index is 0.
    pub fn sign_with_nonce(
        epoch: u64,
        session_id: [u8; 32],
        round: u8,
        accuser_index: u32,
        evidence: ComplaintEvidence<P>,
        accuser_identity_secret: &P::Scalar,
        nonce: &P::Scalar,
    ) -> (r: Result<Self, OsstError>)
        ensures
            r is Ok <==> accuser_index != 0,
            r matches Ok(c) ==> c.epoch == epoch && c.session_id == session_id && c.round == round
                && c.accuser_index == accuser_index && c.accused_index == accused(evidence)
                && c.evidence == evidence && c.r.log() == nonce.val() && c.is_signed_by(
                accuser_identity_secret.val(),
            ),
            r matches Err(e) ==> e == OsstError::InvalidIndex,
    {
        if accuser_index == 0 {
            return Err(OsstError::InvalidIndex);
        }
        let accused_index = evidence.accused_index();
        let body = Self::body(
            epoch,
            &session_id,
            round,
            accuser_index,
            accused_index,
            &evidence,
        );
        let accuser_pubkey = base_mul::<P>(accuser_identity_secret);
        let r = base_mul::<P>(nonce);
        let e = Self::challenge(&r, &accuser_pubkey, &body);
        let s = respond(nonce, &e, accuser_identity_secret);
        Ok(
            Complaint {
                epoch,
                session_id,
                round,
                accuser_index,
                accused_index,
                evidence,
                r,
                s,
            },
        )
    }

    /// Raises a complaint, signed by the accuser's long-term identity key.
    ///
    /// The accused is taken from the evidence, so a complaint cannot name one
    /// dealer and carry another's package. What is signed here is authentic
    /// under the accuser's public key.
    ///
    /// # Errors
    ///
    /// [`OsstError::InvalidIndex`] if the accuser's index is 0.
    pub fn sign(
        epoch: u64,
        session_id: [u8; 32],
        round: u8,
        accuser_index: u32,
        evidence: ComplaintEvidence<P>,
        accuser_identity_secret: &P::Scalar,
        rng: &mut OsRng,
    ) -> (r: Result<Self, OsstError>)
        ensures
            r is Ok <==> accuser_index != 0,
            r matches Ok(c) ==> c.epoch == epoch && c.session_id == session_id && c.round == round
                && c.accuser_index == accuser_index && c.accused_index == accused(evidence)
                && c.evidence == evidence && c.is_signed_by(accuser_identity_secret.val()),
            r matches Ok(c) ==> (accused(evidence) != 0 ==> c.is_authentic(
                epoch,
                session_id@,
                accuser_identity_secret.val(),
            )),
            r matches Err(e) ==> e == OsstError::InvalidIndex,
    {
        if accuser_index == 0 {
            return Err(OsstError::InvalidIndex);
        }
        let k = <P::Scalar as OsstScalar>::random(rng);
        Self::sign_with_nonce(
            epoch,
            session_id,
            round,
            accuser_index,
            evidence,
            accuser_identity_secret,
            &k,
        )
    }

    /// Verifies a complaint that any third party received.
    ///
    /// Checks that it belongs to this ceremony, that the accused index agrees
    /// with the evidence, that the signature verifies under the accuser's
    /// identity key, and then whether the evidence shows what it claims.
    ///
    /// # Errors
    ///
    /// [`OsstError::InvalidComplaint`] for the wrong ceremony, an index that
    /// disagrees with the evidence, or a signature that does not verify.
    pub fn verify(
        &self,
        epoch: u64,
        session_id: &[u8; 32],
        accuser_identity_pubkey: &P,
    ) -> (r: Result<ComplaintVerdict, OsstError>)
        requires
            self.is_authentic(epoch, session_id@, accuser_identity_pubkey.log())
                ==> self.is_adjudicable(),
        ensures
            r is Ok <==> self.is_authentic(epoch, session_id@, accuser_identity_pubkey.log()),
            r is Ok ==> self.is_bindable() && has_encoding::<P>(accuser_identity_pubkey.log()),
            r matches Ok(v) ==> v == self.verdict(),
            r matches Err(e) ==> e == OsstError::InvalidComplaint,
    {
        if self.epoch != epoch || !bytes_eq(&self.session_id, session_id) {
            return Err(OsstError::InvalidComplaint);
        }
        if self.accuser_index == 0 || self.accused_index == 0 || self.accused_index
            != self.evidence.accused_index() {
            return Err(OsstError::InvalidComplaint);
        }
        let body = Self::body(
            self.epoch,
            &self.session_id,
            self.round,
            self.accuser_index,
            self.accused_index,
            &self.evidence,
        );
        let e = Self::challenge(&self.r, accuser_identity_pubkey, &body);
        if !check::<P>(&self.s, &self.r, &e, accuser_identity_pubkey) {
            return Err(OsstError::InvalidComplaint);
        }
        Ok(self.adjudicate())
    }

    /// Re-runs the evidence, without checking the signature.
    ///
    /// A caller must not act on it: without [`verify`](Self::verify) nothing
    /// ties the complaint to a participant.
    pub fn adjudicate(&self) -> (r: ComplaintVerdict)
        requires
            self.is_adjudicable(),
        ensures
            r == self.verdict(),
    {
        match &self.evidence {
            ComplaintEvidence::ForgedProofOfKnowledge { package } => {
                if package.dealer_index() != self.accused_index {
                    return ComplaintVerdict::Unfounded;
                }
                match package.verify(self.epoch) {
                    Ok(_) => ComplaintVerdict::Unfounded,
                    Err(_) => ComplaintVerdict::Upheld,
                }
            },
            ComplaintEvidence::BadSubShare { commitment, revealed, .. } => {
                if commitment.dealer_index != self.accused_index || revealed.dealer()
                    != self.accused_index || revealed.player() != self.accuser_index {
                    return ComplaintVerdict::Unfounded;
                }
                if commitment.verify_subshare(revealed.player(), revealed.value()) {
                    ComplaintVerdict::Unfounded
                } else {
                    ComplaintVerdict::Upheld
                }
            },
        }
    }
}

// ---------------------------------------------------------------------------
// Echo round over the round-1 set
// ---------------------------------------------------------------------------

/// A participant's view of the whole round-1 commitment set, as one hash.
///
/// A malicious dealer can send different commitments to two participants, each
/// with a matching sub-share. Nothing point to point detects that; so after
/// round 1 every participant publishes a digest of the full set it saw and
/// refuses to enter round 2 until all digests match.
#[derive(Clone, Copy, Debug, PartialEq, Eq)]
pub struct EchoDigest(pub [u8; 32]);

impl EchoDigest {
    /// The digest's bytes.
    pub fn as_bytes(&self) -> (r: &[u8; 32])
        ensures
            *r == self.0,
    {
        &self.0
    }

    /// The digest in lower-case hexadecimal.
    pub fn to_hex(&self) -> (r: String)
        ensures
            r@ == hex_text(self.0@),
    {
        hex_string(&self.0)
    }
}

/// Where a commitment goes among others sorted by dealer: behind those of no
/// greater dealer.
pub open spec fn insert_by_dealer(s: Seq<CommitmentView>, c: CommitmentView) -> Seq<CommitmentView>
    decreases s.len(),
{
    if s.len() == 0 || s.last().dealer <= c.dealer {
        s.push(c)
    } else {
        insert_by_dealer(s.drop_last(), c).push(s.last())
    }
}

/// Commitments in ascending order of dealers, those of one dealer in the order
/// given.
pub open spec fn sort_by_dealer(cs: Seq<CommitmentView>) -> Seq<CommitmentView>
    decreases cs.len(),
{
    if cs.len() == 0 {
        cs
    } else {
        insert_by_dealer(sort_by_dealer(cs.drop_last()), cs.last())
    }
}

/// The entries of an echo digest: for each dealer its index and its commitment
/// preceded by its length.
pub open spec fn echo_entries<P: OsstPoint>(cs: Seq<CommitmentView>) -> Seq<u8>
    decreases cs.len(),
{
    if cs.len() == 0 {
        Seq::empty()
    } else {
        (le_bytes(cs[0].dealer as int, 4) + prefixed(commitment_bytes::<P>(cs[0])))
            + echo_entries::<P>(cs.drop_first())
    }
}

/// The input of an echo digest: the domain, the ceremony's parameters, the
/// number of commitments and their entries.
pub open spec fn echo_input<P: OsstPoint>(
    epoch: u64,
    threshold: u32,
    num_participants: u32,
    cs: Seq<CommitmentView>,
) -> Seq<u8> {
    ECHO_DIGEST_DOMAIN@ + (le_bytes(epoch as int, 8) + (le_bytes(threshold as int, 4) + (le_bytes(
        num_participants as int,
        4,
    ) + (le_bytes(cs.len() as u32 as int, 4) + echo_entries::<P>(cs)))))
}

/// The echo digest: the first half of the SHA-512 of its input over the sorted
/// commitments.
pub open spec fn echo_digest<P: OsstPoint>(
    epoch: u64,
    threshold: u32,
    num_participants: u32,
    cs: Seq<CommitmentView>,
) -> Seq<u8> {
    sha512_digest(
        echo_input::<P>(epoch, threshold, num_participants, sort_by_dealer(cs)),
    ).subrange(0, 32)
}

/// Inserting behind the last commitment of no greater dealer.
proof fn lemma_insert_at(s: Seq<CommitmentView>, c: CommitmentView, at: int)
    requires
        0 <= at <= s.len(),
        at > 0 ==> s[at - 1].dealer <= c.dealer,
        forall|j: int| at <= j < s.len() ==> (#[trigger] s[j]).dealer > c.dealer,
    ensures
        insert_by_dealer(s, c) == s.insert(at, c),
    decreases s.len(),
{
    if at == s.len() {
        assert(s.insert(at, c) =~= s.push(c));
    } else {
        assert(s[s.len() - 1].dealer > c.dealer);
        lemma_insert_at(s.drop_last(), c, at);
        assert(s.insert(at, c) =~= s.drop_last().insert(at, c).push(s.last()));
    }
}

/// The commitments that some references point to.
spec fn pointed<P: OsstPoint>(cs: Seq<&DealerCommitment<P>>) -> Seq<CommitmentView> {
    Seq::new(cs.len(), |i: int| cs[i]@)
}

proof fn lemma_entries_push<P: OsstPoint>(s: Seq<CommitmentView>, c: CommitmentView)
    ensures
        echo_entries::<P>(s.push(c)) == echo_entries::<P>(s) + (le_bytes(c.dealer as int, 4)
            + prefixed(commitment_bytes::<P>(c))),
    decreases s.len(),
{
    let e = le_bytes(c.dealer as int, 4) + prefixed(commitment_bytes::<P>(c));
    if s.len() == 0 {
        let t = s.push(c);
        assert(t[0] == c);
        assert(t.drop_first() =~= Seq::empty());
        assert(echo_entries::<P>(t.drop_first()) =~= Seq::empty());
        assert(echo_entries::<P>(t) =~= e);
        assert(echo_entries::<P>(s) + e =~= e);
    } else {
        lemma_entries_push::<P>(s.drop_first(), c);
        assert(s.push(c).drop_first() =~= s.drop_first().push(c));
        assert(echo_entries::<P>(s.push(c)) =~= echo_entries::<P>(s) + e);
    }
}

/// The canonical round-1 echo digest, for callers that hold the commitment set
/// outside a [`DkgState`]. The commitments are sorted by dealer, so the caller's
/// order does not change the result.
pub fn round1_echo_digest<P: OsstPoint>(
    epoch: u64,
    threshold: u32,
    num_participants: u32,
    commitments: &[DealerCommitment<P>],
) -> (r: EchoDigest)
    ensures
        r.0@ == echo_digest::<P>(
            epoch,
            threshold,
            num_participants,
            commitment_views(commitments@),
        ),
        forall|i: int|
            0 <= i < commitments@.len() ==> is_encodable::<P>((#[trigger] commitments@[i])@),
{
    let ghost v = commitment_views(commitments@);
    let mut sorted: Vec<&DealerCommitment<P>> = Vec::new();
    let mut i: usize = 0;
    assert(pointed(sorted@) =~= sort_by_dealer(v.subrange(0, 0)));
    while i < commitments.len()
        invariant
            i <= commitments@.len(),
            v == commitment_views(commitments@),
            pointed(sorted@) == sort_by_dealer(v.subrange(0, i as int)),
            sorted@.len() == i,
        decreases commitments@.len() - i,
    {
        let c = &commitments[i];
        let ghost s = pointed(sorted@);
        let mut at: usize = sorted.len();
        while at > 0 && sorted[at - 1].dealer_index > c.dealer_index
            invariant
                at <= sorted@.len(),
                s == pointed(sorted@),
                forall|j: int| at <= j < s.len() ==> (#[trigger] s[j]).dealer > c.dealer_index,
            decreases at,
        {
            at -= 1;
        }
        sorted.insert(at, c);
        proof {
            assert(pointed(sorted@) =~= s.insert(at as int, c@));
            lemma_insert_at(s, c@, at as int);
            assert(v.subrange(0, i as int + 1).drop_last() =~= v.subrange(0, i as int));
            assert(v.subrange(0, i as int + 1).last() == c@);
        }
        i += 1;
    }
    assert(v.subrange(0, i as int) =~= v);
    let ghost s = pointed(sorted@);
    let mut h: Vec<u8> = Vec::new();
    put_slice(&mut h, &ECHO_DIGEST_DOMAIN);
    put_u64(&mut h, epoch);
    put_u32(&mut h, threshold);
    put_u32(&mut h, num_participants);
    put_u32(&mut h, sorted.len() as u32);
    let ghost head = h@;
    let mut j: usize = 0;
    assert(head + echo_entries::<P>(s.subrange(0, 0)) =~= head);
    while j < sorted.len()
        invariant
            j <= sorted@.len(),
            s == pointed(sorted@),
            h@ == head + echo_entries::<P>(s.subrange(0, j as int)),
            forall|k: int| 0 <= k < j ==> is_encodable::<P>(#[trigger] s[k]),
        decreases sorted@.len() - j,
    {
        let c = sorted[j];
        let bytes = c.to_bytes();
        put_u32(&mut h, c.dealer_index);
        put_field(&mut h, &bytes);
        proof {
            let before = s.subrange(0, j as int);
            assert(s.subrange(0, j as int + 1) =~= before.push(c@));
            lemma_entries_push::<P>(before, c@);
            assert(s[j as int] == c@);
            assert(h@ =~= head + echo_entries::<P>(s.subrange(0, j as int + 1)));
        }
        j += 1;
    }
    assert(s.subrange(0, j as int) =~= s);
    assert(h@ =~= echo_input::<P>(epoch, threshold, num_participants, s));
    proof {
        lemma_sort_multiset(v);
        assert forall|i: int| 0 <= i < commitments@.len() implies is_encodable::<P>(
            (#[trigger] commitments@[i])@,
        ) by {
            broadcast use vstd::seq_lib::group_to_multiset_ensures;

            assert(v[i] == commitments@[i]@);
            assert(v.contains(v[i]));
            assert(v.to_multiset().count(v[i]) > 0);
            assert(s.contains(v[i]));
        }
    }
    let full = sha512(&h);
    let out = get_array32(&full, 0);
    EchoDigest(out)
}

/// A round-1 commitment set that every participant has agreed on, once
/// [`confirm_all`](Self::confirm_all) has been called with what the peers
/// echoed.
pub struct AgreedRound1<P: OsstPoint> {
    epoch: u64,
    threshold: u32,
    digest: EchoDigest,
    commitments: Vec<DealerCommitment<P>>,
}

/// What an agreed set holds.
pub ghost struct AgreedView {
    /// The epoch.
    pub epoch: u64,
    /// The threshold.
    pub threshold: u32,
    /// The echo digest.
    pub digest: Seq<u8>,
    /// The commitments, in ascending order of dealers.
    pub commitments: Seq<CommitmentView>,
}

impl AgreedView {
    /// The dealer set, ascending.
    pub open spec fn dealers(self) -> Seq<u32> {
        Seq::new(self.commitments.len(), |i: int| self.commitments[i].dealer)
    }

    /// The commitment of a dealer.
    pub open spec fn commitment(self, dealer: u32) -> CommitmentView {
        self.commitments[self.dealers().index_of(dealer)]
    }
}

impl<P: OsstPoint> View for AgreedRound1<P> {
    type V = AgreedView;

    closed spec fn view(&self) -> AgreedView {
        AgreedView {
            epoch: self.epoch,
            threshold: self.threshold,
            digest: self.digest.0@,
            commitments: commitment_views(self.commitments@),
        }
    }
}

impl<P: OsstPoint> AgreedRound1<P> {
    /// What an agreed set keeps: its commitments are in ascending order of
    /// dealers, and none is empty.
    pub closed spec fn wf(&self) -> bool {
        &&& ascending(self@.dealers())
        &&& forall|i: int|
            0 <= i < self.commitments@.len() ==> (
            #[trigger] self.commitments@[i]).coefficients@.len() > 0
    }

    /// The dealers of an agreed set ascend.
    pub proof fn lemma_wf(&self)
        requires
            self.wf(),
        ensures
            ascending(self@.dealers()),
    {
    }

    /// This participant's digest of the set, for broadcast.
    pub fn digest(&self) -> (r: EchoDigest)
        ensures
            r.0@ == self@.digest,
    {
        self.digest
    }

    /// The epoch.
    pub fn epoch(&self) -> (r: u64)
        ensures
            r == self@.epoch,
    {
        self.epoch
    }

    /// The threshold.
    pub fn threshold(&self) -> (r: u32)
        ensures
            r == self@.threshold,
    {
        self.threshold
    }

    /// The agreed dealer set, ascending.
    pub fn dealer_set(&self) -> (r: Vec<u32>)
        ensures
            r@ == self@.dealers(),
    {
        let mut out: Vec<u32> = Vec::new();
        let mut i: usize = 0;
        while i < self.commitments.len()
            invariant
                i <= self.commitments@.len(),
                out@ == self@.dealers().subrange(0, i as int),
            decreases self.commitments@.len() - i,
        {
            out.push(self.commitments[i].dealer_index);
            i += 1;
            assert(out@ =~= self@.dealers().subrange(0, i as int));
        }
        assert(self@.dealers().subrange(0, i as int) =~= self@.dealers());
        out
    }

    /// The commitments, in ascending order of dealers.
    pub fn commitments(&self) -> (r: &[DealerCommitment<P>])
        ensures
            commitment_views(r@) == self@.commitments,
    {
        &self.commitments
    }

    /// A dealer's commitment, from the agreed set.
    ///
    /// # Errors
    ///
    /// [`OsstError::UnexpectedDealer`] if the dealer is not in the set.
    pub fn commitment(&self, dealer_index: u32) -> (r: Result<&DealerCommitment<P>, OsstError>)
        requires
            self.wf(),
        ensures
            r is Ok <==> self@.dealers().contains(dealer_index),
            r matches Ok(c) ==> c@ == self@.commitment(dealer_index) && c.dealer_index
                == dealer_index && c.coefficients@.len() > 0,
            r matches Err(e) ==> e == OsstError::UnexpectedDealer(dealer_index),
    {
        let mut i: usize = 0;
        while i < self.commitments.len()
            invariant
                i <= self.commitments@.len(),
                self.wf(),
                forall|j: int| 0 <= j < i ==> self@.dealers()[j] != dealer_index,
            decreases self.commitments@.len() - i,
        {
            if self.commitments[i].dealer_index == dealer_index {
                proof {
                    let ds = self@.dealers();
                    assert(ds[i as int] == dealer_index);
                    let k = ds.index_of(dealer_index);
                    assert(0 <= k < ds.len() && ds[k] == dealer_index);
                    if i < k {
                        assert(ds[i as int] < ds[k]);
                    }
                }
                return Ok(&self.commitments[i]);
            }
            i += 1;
        }
        Err(OsstError::UnexpectedDealer(dealer_index))
    }

    /// Compares one peer's echoed digest against this one.
    ///
    /// # Errors
    ///
    /// [`OsstError::EchoMismatch`]: a dealer equivocated, or the broadcast is
    /// not reliable. Either way round 2 must not start.
    pub fn confirm(&self, peer: &EchoDigest) -> (r: Result<(), OsstError>)
        ensures
            r is Ok <==> peer.0@ == self@.digest,
            r matches Err(e) ==> e == OsstError::EchoMismatch,
    {
        if bytes_eq(&self.digest.0, &peer.0) {
            Ok(())
        } else {
            Err(OsstError::EchoMismatch)
        }
    }

    /// Confirms every peer's echo, and that there are at least `expected`.
    ///
    /// # Errors
    ///
    /// [`OsstError::InsufficientContributions`] if there are fewer,
    /// [`OsstError::EchoMismatch`] if any disagrees.
    pub fn confirm_all(&self, peers: &[EchoDigest], expected: usize) -> (r: Result<(), OsstError>)
        ensures
            r is Ok <==> peers@.len() >= expected && forall|i: int|
                0 <= i < peers@.len() ==> (#[trigger] peers@[i]).0@ == self@.digest,
            r matches Err(e) ==> e == if peers@.len() < expected {
                OsstError::InsufficientContributions {
                    got: peers@.len() as usize,
                    need: expected,
                }
            } else {
                OsstError::EchoMismatch
            },
    {
        if peers.len() < expected {
            return Err(
                OsstError::InsufficientContributions { got: peers.len(), need: expected },
            );
        }
        let mut i: usize = 0;
        while i < peers.len()
            invariant
                i <= peers@.len(),
                peers@.len() >= expected,
                forall|j: int| 0 <= j < i ==> (#[trigger] peers@[j]).0@ == self@.digest,
            decreases peers@.len() - i,
        {
            match self.confirm(&peers[i]) {
                Ok(_) => {},
                Err(e) => return Err(e),
            }
            i += 1;
        }
        Ok(())
    }
}

// ---------------------------------------------------------------------------
// Evidence of a bad sub-share
// ---------------------------------------------------------------------------

/// Domain of the commitment digest: `frostito/sealed/commitment/v1`.
pub const COMMITMENT_DIGEST_DOMAIN: [u8; 29] = [
    102u8, 114u8, 111u8, 115u8, 116u8, 105u8, 116u8, 111u8, 47u8, 115u8, 101u8, 97u8, 108u8, 101u8,
    100u8, 47u8, 99u8, 111u8, 109u8, 109u8, 105u8, 116u8, 109u8, 101u8, 110u8, 116u8, 47u8, 118u8,
    49u8,
];

/// The digest of a commitment: the first half of the SHA-512 of the domain and
/// the commitment's encoding, preceded by its length.
pub open spec fn commitment_digest_value<P: OsstPoint>(c: CommitmentView) -> Seq<u8> {
    sha512_digest(COMMITMENT_DIGEST_DOMAIN@ + prefixed(commitment_bytes::<P>(c))).subrange(0, 32)
}

/// Digest of a dealer's commitment. It travels inside a sealed package, so that
/// a sub-share and the commitment it is verified against cannot be sourced
/// separately, and names the agreed commitment in the evidence of a complaint.
pub fn commitment_digest<P: OsstPoint>(commitment: &DealerCommitment<P>) -> (r: [u8; 32])
    ensures
        r@ == commitment_digest_value::<P>(commitment@),
{
    let mut h: Vec<u8> = Vec::new();
    put_slice(&mut h, &COMMITMENT_DIGEST_DOMAIN);
    let bytes = commitment.to_bytes();
    put_field(&mut h, &bytes);
    assert(h@ =~= COMMITMENT_DIGEST_DOMAIN@ + prefixed(bytes@));
    let full = sha512(&h);
    get_array32(&full, 0)
}

/// What a recipient that was sent a bad sub-share can show to others: the scalar
/// it opened, the agreed commitment it fails against, and which package it came
/// from.
///
/// The check is exact; the attribution is not. Anyone can confirm that this
/// scalar is not on that commitment. That the dealer sent it only the recipient
/// can know, so disqualification is gated on several accusers
/// ([`ComplaintTally`]).
pub struct BadSubShareEvidence {
    /// Who dealt it.
    pub dealer_index: u32,
    /// Who it was for.
    pub recipient_index: u32,
    /// The ceremony.
    pub session_id: [u8; 32],
    /// The round.
    pub round: u8,
    /// The scalar that was in the package.
    pub subshare: [u8; 32],
    /// The digest of the agreed commitment.
    pub agreed_digest: [u8; 32],
    /// The digest of the sealed package.
    pub sealed_digest: [u8; 32],
}

/// The evidence shows, against an agreed set, that a scalar is not the dealer's
/// sub-share for the recipient: the set has the commitment that the evidence
/// names, and the scalar is not its value.
pub open spec fn is_bad_subshare<P: OsstPoint>(
    e: BadSubShareEvidence,
    agreed: AgreedView,
) -> bool {
    &&& agreed.dealers().contains(e.dealer_index)
    &&& e.recipient_index != 0
    &&& e.agreed_digest@ == commitment_digest_value::<P>(agreed.commitment(e.dealer_index))
    &&& decode_scalar::<P::Scalar>(e.subshare@) matches Some(v) && v != poly(
        agreed.commitment(e.dealer_index).polynomial,
        e.recipient_index as int,
    ) % ord::<P>()
}

impl BadSubShareEvidence {
    /// Re-checks the evidence against this participant's own agreed set.
    pub fn adjudicate<P: OsstPoint>(&self, agreed: &AgreedRound1<P>) -> (r: ComplaintVerdict)
        requires
            agreed.wf(),
        ensures
            r == if is_bad_subshare::<P>(*self, agreed@) {
                ComplaintVerdict::Upheld
            } else {
                ComplaintVerdict::Unfounded
            },
    {
        let commitment = match agreed.commitment(self.dealer_index) {
            Ok(c) => c,
            Err(_) => return ComplaintVerdict::Unfounded,
        };
        if self.recipient_index == 0 {
            return ComplaintVerdict::Unfounded;
        }
        let digest = commitment_digest::<P>(commitment);
        if !bytes_eq(&self.agreed_digest, &digest) {
            return ComplaintVerdict::Unfounded;
        }
        match <P::Scalar as OsstScalar>::from_canonical_bytes(&self.subshare) {
            None => ComplaintVerdict::Unfounded,
            Some(v) => if commitment.verify_subshare(self.recipient_index, &v) {
                ComplaintVerdict::Unfounded
            } else {
                ComplaintVerdict::Upheld
            },
        }
    }

    /// Text for debugging, without the scalar.
    pub fn debug_text(&self) -> (r: String)
        ensures
            r@ == "BadSubShareEvidence { dealer_index: "@ + decimal(self.dealer_index as nat)
                + ", recipient_index: "@ + decimal(self.recipient_index as nat)
                + ", subshare: \"[REDACTED]\" }"@,
    {
        let mut out = String::new();
        put_text(&mut out, "BadSubShareEvidence { dealer_index: ");
        put_decimal(&mut out, self.dealer_index as u64);
        put_text(&mut out, ", recipient_index: ");
        put_decimal(&mut out, self.recipient_index as u64);
        put_text(&mut out, ", subshare: \"[REDACTED]\" }");
        out
    }
}

/// A count of upheld complaints: gates disqualification on distinct accusers.
pub struct ComplaintTally {
    threshold: u32,
    upheld: Vec<(u32, u32)>,
}

/// The accusers of a dealer, in the order of their first complaints.
pub open spec fn accusers(upheld: Seq<(u32, u32)>, accused: u32) -> Seq<u32>
    decreases upheld.len(),
{
    if upheld.len() == 0 {
        Seq::empty()
    } else if upheld.last().1 == accused {
        accusers(upheld.drop_last(), accused).push(upheld.last().0)
    } else {
        accusers(upheld.drop_last(), accused)
    }
}

/// The accusers of a dealer are among those that accused it.
proof fn lemma_accusers(upheld: Seq<(u32, u32)>, accused: u32)
    requires
        upheld.no_duplicates(),
    ensures
        accusers(upheld, accused).no_duplicates(),
        accusers(upheld, accused).len() <= upheld.len(),
        forall|a: u32| #[trigger]
            accusers(upheld, accused).contains(a) <==> upheld.contains((a, accused)),
    decreases upheld.len(),
{
    if upheld.len() > 0 {
        let rest = upheld.drop_last();
        let last = upheld.last();
        assert forall|i: int, j: int|
            0 <= i < rest.len() && 0 <= j < rest.len() && i != j implies rest[i] != rest[j] by {
            assert(upheld[i] != upheld[j]);
        }
        lemma_accusers(rest, accused);
        assert(!rest.contains(last)) by {
            if rest.contains(last) {
                let k = choose|k: int| 0 <= k < rest.len() && rest[k] == last;
                assert(upheld[k] == upheld[upheld.len() - 1]);
            }
        }
        let r = accusers(rest, accused);
        assert forall|a: u32| #[trigger] accusers(upheld, accused).contains(a) <==> upheld.contains(
            (a, accused),
        ) by {
            assert(upheld =~= rest.push(last));
            if rest.contains((a, accused)) {
                let k = choose|k: int| 0 <= k < rest.len() && rest[k] == (a, accused);
                assert(upheld[k] == (a, accused));
            }
            if upheld.contains((a, accused)) && last != (a, accused) {
                let k = choose|k: int| 0 <= k < upheld.len() && upheld[k] == (a, accused);
                assert(rest[k] == (a, accused));
            }
            if last == (a, accused) {
                assert(upheld[upheld.len() - 1] == last);
            }
            if last.1 == accused {
                crate::sets::lemma_push_contains(r, last.0, a);
            }
        }
        if last.1 == accused {
            assert(!r.contains(last.0));
            let p = r.push(last.0);
            assert forall|i: int, j: int|
                0 <= i < p.len() && 0 <= j < p.len() && i != j implies p[i] != p[j] by {
                if i == r.len() {
                    assert(r[j] == p[j]);
                } else if j == r.len() {
                    assert(r[i] == p[i]);
                }
            }
        }
    }
}

impl ComplaintTally {
    /// The upheld complaints: accuser and accused.
    pub closed spec fn complaints(&self) -> Seq<(u32, u32)> {
        self.upheld@
    }

    /// How many accusers it takes.
    pub closed spec fn need(&self) -> u32 {
        self.threshold
    }

    /// No accuser counts twice against one dealer.
    pub open spec fn wf(&self) -> bool {
        self.complaints().no_duplicates()
    }

    /// An empty tally that takes `threshold` accusers.
    pub fn new(threshold: u32) -> (r: Self)
        ensures
            r.wf(),
            r.need() == threshold,
            r.complaints() == Seq::<(u32, u32)>::empty(),
    {
        ComplaintTally { threshold, upheld: Vec::new() }
    }

    /// Records the verdict on a complaint. Only an upheld one counts, and an
    /// accuser counts once against a dealer.
    ///
    /// # Errors
    ///
    /// [`OsstError::InvalidIndex`] if either index is 0.
    pub fn record(
        &mut self,
        accuser_index: u32,
        accused_index: u32,
        verdict: ComplaintVerdict,
    ) -> (r: Result<(), OsstError>)
        requires
            old(self).wf(),
        ensures
            final(self).wf(),
            final(self).need() == old(self).need(),
            r is Ok <==> accuser_index != 0 && accused_index != 0,
            r matches Err(e) ==> e == OsstError::InvalidIndex,
            final(self).complaints() == if r is Ok && verdict == ComplaintVerdict::Upheld && !old(
                self,
            ).complaints().contains((accuser_index, accused_index)) {
                old(self).complaints().push((accuser_index, accused_index))
            } else {
                old(self).complaints()
            },
    {
        if accuser_index == 0 || accused_index == 0 {
            return Err(OsstError::InvalidIndex);
        }
        if verdict != ComplaintVerdict::Upheld {
            return Ok(());
        }
        let ghost pair = (accuser_index, accused_index);
        let mut i: usize = 0;
        while i < self.upheld.len()
            invariant
                i <= self.upheld@.len(),
                pair == (accuser_index, accused_index),
                self.complaints() == old(self).complaints(),
                self.need() == old(self).need(),
                self.wf(),
                accuser_index != 0,
                accused_index != 0,
                forall|j: int| 0 <= j < i ==> self.upheld@[j] != pair,
            decreases self.upheld@.len() - i,
        {
            if self.upheld[i].0 == accuser_index && self.upheld[i].1 == accused_index {
                assert(self.complaints()[i as int] == pair);
                return Ok(());
            }
            i += 1;
        }
        assert(!self.complaints().contains(pair));
        self.upheld.push((accuser_index, accused_index));
        Ok(())
    }

    /// Whether enough distinct accusers were upheld against a dealer.
    pub fn reached(&self, accused_index: u32) -> (r: bool)
        requires
            self.wf(),
        ensures
            r == (accusers(self.complaints(), accused_index).len() >= self.need()),
    {
        let mut count: usize = 0;
        let mut i: usize = 0;
        let ghost u = self.upheld@;
        assert(u.subrange(0, 0).len() == 0);
        while i < self.upheld.len()
            invariant
                i <= self.upheld@.len(),
                u == self.upheld@,
                count <= i,
                count == accusers(u.subrange(0, i as int), accused_index).len(),
            decreases self.upheld@.len() - i,
        {
            assert(u.subrange(0, i as int + 1).drop_last() =~= u.subrange(0, i as int));
            if self.upheld[i].1 == accused_index {
                count += 1;
            }
            i += 1;
        }
        assert(u.subrange(0, i as int) =~= u);
        count as u64 >= self.threshold as u64
    }
}

/// A dealer that reached the tally has that many distinct accusers, each with an
/// upheld complaint.
pub proof fn law_tally_counts_distinct_accusers(upheld: Seq<(u32, u32)>, accused: u32)
    requires
        upheld.no_duplicates(),
    ensures
        accusers(upheld, accused).no_duplicates(),
        forall|a: u32| #[trigger]
            accusers(upheld, accused).contains(a) <==> upheld.contains((a, accused)),
{
    lemma_accusers(upheld, accused);
}

// ---------------------------------------------------------------------------
// Laws
// ---------------------------------------------------------------------------

/// The sum of the dealers' polynomials.
pub open spec fn joint_polynomial(v: AggregatorView, t: nat, n: int) -> Seq<int> {
    reduced(combine(Seq::new(v.dealers.len(), |i: int| 1int), v.polynomials(), t), n)
}

/// A final share lies on the joint polynomial, and the group key is its value at
/// zero: where all dealers of a complete set committed to one threshold.
pub proof fn law_share_on_joint_polynomial(v: AggregatorView, t: nat, n: int)
    requires
        n > 0,
        v.verified(n),
        v.complete(),
        t > 0,
        forall|i: int|
            0 <= i < v.deliveries.len() ==> (#[trigger] v.deliveries[i]).polynomial.len() == t,
    ensures
        joint_polynomial(v, t, n).len() == t,
        final_share(v, n) == poly(joint_polynomial(v, t, n), v.player as int) % n,
        group_key(v, n) == joint_polynomial(v, t, n)[0],
{
    let rows = v.polynomials();
    let ones = Seq::new(v.dealers.len(), |i: int| 1int);
    let x = v.player as int;
    assert forall|i: int| 0 <= i < rows.len() implies (#[trigger] rows[i]).len() == t by {
        assert(v.dealers.contains(v.dealers[i]));
        lemma_delivered(v, n, v.dealers[i]);
    }
    lemma_combine(ones, rows, t, x);
    lemma_combine(ones, rows, t, 0);
    let c = combine(ones, rows, t);
    let e = evaluations(rows, x);
    lemma_dot_ones(v.values());
    assert forall|i: int| 0 <= i < e.len() implies eqm(#[trigger] v.values()[i], e[i], n) by {
        assert(v.dealers.contains(v.dealers[i]));
        lemma_delivered(v, n, v.dealers[i]);
        lemma_eqm_mod(e[i], n);
    }
    lemma_dot_eqm(ones, v.values(), ones, e, n);
    let j = joint_polynomial(v, t, n);
    assert forall|k: int| 0 <= k < c.len() implies eqm(#[trigger] j[k], c[k], n) by {
        lemma_eqm_mod(c[k], n);
    }
    lemma_poly_eqm(j, c, x, n);
    // at zero
    lemma_poly_zero(c);
    lemma_dot_ones(constants(v));
    assert(evaluations(rows, 0) =~= constants(v)) by {
        assert forall|i: int| 0 <= i < rows.len() implies evaluations(rows, 0)[i]
            == constants(v)[i] by {
            assert(rows[i].len() == t);
            lemma_poly_zero(rows[i]);
        }
    }
}

/// The key generation hands out shares of the group secret: any distinct
/// players, at least as many as the threshold, whose final shares lie on the
/// joint polynomial recover, with their Lagrange coefficients, the discrete
/// logarithm of the group key.
pub proof fn law_shares_reconstruct_group_secret(
    v: AggregatorView,
    t: nat,
    players: Seq<u32>,
    shares: Seq<int>,
    n: int,
)
    requires
        is_field(n),
        n > 0x1_0000_0000,
        v.verified(n),
        v.complete(),
        0 < t <= players.len(),
        forall|i: int|
            0 <= i < v.deliveries.len() ==> (#[trigger] v.deliveries[i]).polynomial.len() == t,
        players.no_duplicates(),
        shares.len() == players.len(),
        forall|i: int|
            0 <= i < players.len() ==> #[trigger] shares[i] == poly(
                joint_polynomial(v, t, n),
                players[i] as int,
            ) % n,
    ensures
        dot(coefficients(players, n), shares) % n == group_key(v, n),
{
    law_share_on_joint_polynomial(v, t, n);
    let j = joint_polynomial(v, t, n);
    assert forall|i: int| 0 <= i < players.len() implies eqm(
        #[trigger] shares[i],
        poly(j, players[i] as int),
        n,
    ) by {
        lemma_eqm_mod(poly(j, players[i] as int), n);
    }
    lemma_reconstruct(players, shares, j, n);
    lemma_poly_zero(j);
    let c = combine(Seq::new(v.dealers.len(), |i: int| 1int), v.polynomials(), t);
    lemma_eqm_mod(c[0], n);
    lemma_small_mod((c[0] % n) as nat, n as nat);
}

/// Players that agree on the dealer set and received the same commitments derive
/// the same group key, whatever the order of arrival.
pub proof fn law_same_group_key(a: AggregatorView, b: AggregatorView, n: int)
    requires
        a.verified(n),
        b.verified(n),
        a.complete(),
        b.complete(),
        a.dealers == b.dealers,
        same_commitments(a, b),
    ensures
        group_key(a, n) == group_key(b, n),
{
    assert(constants(a) =~= constants(b)) by {
        assert forall|i: int| 0 <= i < a.dealers.len() implies constants(a)[i] == constants(
            b,
        )[i] by {
            assert(a.dealers.contains(a.dealers[i]));
            lemma_delivered(a, n, a.dealers[i]);
            lemma_delivered(b, n, a.dealers[i]);
        }
    }
}

/// Two players received the same commitments: what a dealer committed to toward the
/// one, it committed to toward the other.
pub open spec fn same_commitments(a: AggregatorView, b: AggregatorView) -> bool {
    forall|i: int, j: int|
        0 <= i < a.deliveries.len() && 0 <= j < b.deliveries.len()
            && #[trigger] a.deliveries[i].dealer == #[trigger] b.deliveries[j].dealer
            ==> a.deliveries[i].polynomial == b.deliveries[j].polynomial
}

/// Players that agree on the dealer set and received the same commitments have one
/// joint polynomial, on which the shares of all of them lie.
pub proof fn law_same_joint_polynomial(a: AggregatorView, b: AggregatorView, t: nat, n: int)
    requires
        a.verified(n),
        b.verified(n),
        a.complete(),
        b.complete(),
        a.dealers == b.dealers,
        same_commitments(a, b),
    ensures
        joint_polynomial(a, t, n) == joint_polynomial(b, t, n),
{
    assert(a.polynomials() =~= b.polynomials()) by {
        assert forall|i: int| 0 <= i < a.dealers.len() implies a.polynomials()[i]
            == b.polynomials()[i] by {
            assert(a.dealers.contains(a.dealers[i]));
            lemma_delivered(a, n, a.dealers[i]);
            lemma_delivered(b, n, a.dealers[i]);
        }
    }
}

/// The players of several aggregators.
pub open spec fn players_of(vs: Seq<AggregatorView>) -> Seq<u32> {
    Seq::new(vs.len(), |i: int| vs[i].player)
}

/// The final shares of several aggregators.
pub open spec fn final_shares(vs: Seq<AggregatorView>, n: int) -> Seq<int> {
    Seq::new(vs.len(), |i: int| final_share(vs[i], n))
}

/// Any threshold of players recovers the group secret: where distinct players, at
/// least as many as the threshold, agree on the dealer set and received the same
/// commitments, their final shares and Lagrange coefficients give the discrete
/// logarithm of the group key that every one of them derives.
pub proof fn law_players_reconstruct_group_secret(vs: Seq<AggregatorView>, t: nat, n: int)
    requires
        is_field(n),
        n > 0x1_0000_0000,
        0 < t <= vs.len(),
        players_of(vs).no_duplicates(),
        forall|i: int|
            #![trigger vs[i]]
            0 <= i < vs.len() ==> {
                &&& vs[i].verified(n)
                &&& vs[i].complete()
                &&& vs[i].dealers == vs[0].dealers
                &&& same_commitments(vs[0], vs[i])
            },
        forall|i: int|
            0 <= i < vs[0].deliveries.len() ==> (#[trigger] vs[0].deliveries[i]).polynomial.len()
                == t,
    ensures
        forall|i: int|
            0 <= i < vs.len() ==> dot(coefficients(players_of(vs), n), final_shares(vs, n)) % n
                == group_key(#[trigger] vs[i], n),
{
    let v = vs[0];
    let (players, shares) = (players_of(vs), final_shares(vs, n));
    assert forall|i: int| 0 <= i < vs.len() implies #[trigger] shares[i] == poly(
        joint_polynomial(v, t, n),
        players[i] as int,
    ) % n by {
        let w = vs[i];
        assert forall|j: int| 0 <= j < w.deliveries.len() implies (
        #[trigger] w.deliveries[j]).polynomial.len() == t by {
            let d = w.deliveries[j].dealer;
            assert(v.dealers.contains(d));
            lemma_delivered(v, n, d);
            let p = v.position(d);
            assert(v.deliveries[p].dealer == w.deliveries[j].dealer);
        }
        law_share_on_joint_polynomial(w, t, n);
        law_same_joint_polynomial(v, w, t, n);
    }
    law_shares_reconstruct_group_secret(v, t, players, shares, n);
    assert forall|i: int| 0 <= i < vs.len() implies group_key(#[trigger] vs[i], n) == group_key(
        v,
        n,
    ) by {
        law_same_group_key(v, vs[i], n);
    }
}

/// A player's aggregator is over the commitments of a round state: its dealer set is
/// that of the commitments, and each sub-share came with the dealer's.
pub open spec fn is_over<P: OsstPoint>(v: AggregatorView, s: DkgStateView<P>) -> bool {
    &&& v.dealers == dealer_indices(submitted(s.commitments))
    &&& forall|i: int, k: int|
        0 <= i < v.deliveries.len() && 0 <= k < submitted(s.commitments).len()
            && #[trigger] v.deliveries[i].dealer == (#[trigger] submitted(
            s.commitments,
        )[k]).dealer_index ==> v.deliveries[i].polynomial == submitted(s.commitments)[k].polynomial()
}

/// The round state and the players agree: the group key of the state is the one that a
/// player's aggregator derives over the same commitments, and the verifying share of
/// the player is the public share of its final share.
pub proof fn law_state_matches_aggregator<P: OsstPoint>(v: AggregatorView, s: DkgStateView<P>)
    requires
        s.wf(),
        v.verified(ord::<P>()),
        v.complete(),
        is_over(v, s),
    ensures
        group_key(v, ord::<P>()) == s.group_key(),
        final_share(v, ord::<P>()) == s.verification_share(v.player),
{
    let n = ord::<P>();
    let cs = submitted(s.commitments);
    assert forall|i: int| 0 <= i < cs.len() implies {
        &&& constants(v)[i] == constant_terms(cs)[i]
        &&& v.values()[i] == committed_values(cs, v.player)[i]
    } by {
        let d = v.dealers[i];
        assert(d == cs[i].dealer_index);
        assert(v.dealers.contains(d));
        lemma_delivered(v, n, d);
        let p = v.position(d);
        assert(v.deliveries[p].dealer == cs[i].dealer_index);
    }
    assert(constants(v) =~= constant_terms(cs));
    assert(v.values() =~= committed_values(cs, v.player));
}

/// What an honest dealer deals verifies against its commitment, for every
/// player, and its package carries a proof that verifies.
pub proof fn law_honest_dealing_verifies<P: OsstPoint>(
    dealer: DealerView,
    c: DealerCommitment<P>,
    player: u32,
)
    requires
        c.dealer_index == dealer.index,
        c.polynomial() == dealer.polynomial,
    ensures
        dealt::<P>(dealer, player).value == c.value_at(player),
{
}

/// Nobody can have a complaint upheld against an honest dealer by telling the
/// truth: a package whose proof verifies, and a value that the dealer dealt, are no
/// evidence.
pub proof fn law_honest_dealer_not_upheld<P: OsstPoint>(c: Complaint<P>, dealer: DealerView)
    requires
        match c.evidence {
            ComplaintEvidence::ForgedProofOfKnowledge { package } => package.is_proved(c.epoch),
            ComplaintEvidence::BadSubShare { commitment, revealed, .. } => {
                &&& commitment.polynomial() == dealer.polynomial
                &&& revealed@.player != 0
                &&& revealed@.value == dealt::<P>(dealer, revealed@.player).value
            },
        },
    ensures
        c.verdict() == ComplaintVerdict::Unfounded,
{
}

/// A disqualified dealer cannot come back: whatever it submits is refused, and
/// the state does not change.
pub proof fn law_disqualified_refused<P: OsstPoint>(
    v: DkgStateView<P>,
    package: Round1Package<P>,
)
    requires
        v.disqualified.contains(package.commitment.dealer_index),
    ensures
        v.submit_outcome(package) is Err,
        v.after_submit(package) == v,
{
}

/// A dealer that cannot prove knowledge of its constant term never enters the
/// ceremony.
pub proof fn law_unproved_refused<P: OsstPoint>(v: DkgStateView<P>, package: Round1Package<P>)
    requires
        !package.is_proved(v.epoch),
    ensures
        v.submit_outcome(package) == Err::<bool, OsstError>(
            OsstError::InvalidProofOfKnowledge(package.commitment.dealer_index),
        ),
        v.after_submit(package) == v,
{
}

/// The input of a proof's challenge binds the dealer, the epoch and the
/// constant term: inputs with one encoding agree on them.
pub proof fn law_pok_input_injective<P: OsstPoint>(
    dealer_a: u32,
    epoch_a: u64,
    constant_a: int,
    r_a: int,
    dealer_b: u32,
    epoch_b: u64,
    constant_b: int,
    r_b: int,
)
    requires
        P::encoding(constant_a).len() == P::encoding(constant_b).len(),
        pok_input::<P>(dealer_a, epoch_a, constant_a, r_a) == pok_input::<P>(
            dealer_b,
            epoch_b,
            constant_b,
            r_b,
        ),
    ensures
        dealer_a == dealer_b,
        epoch_a == epoch_b,
        P::encoding(constant_a) == P::encoding(constant_b),
        P::encoding(r_a) == P::encoding(r_b),
{
    lemma_byte_bounds();
    let d = DKG_POK_DOMAIN@;
    let (da, db) = (le_bytes(dealer_a as int, 4), le_bytes(dealer_b as int, 4));
    let (ea, eb) = (le_bytes(epoch_a as int, 8), le_bytes(epoch_b as int, 8));
    let (ca, cb) = (P::encoding(constant_a), P::encoding(constant_b));
    let (ra, rb) = (P::encoding(r_a), P::encoding(r_b));
    lemma_le_bytes(dealer_a as int, 4);
    lemma_le_bytes(dealer_b as int, 4);
    lemma_le_bytes(epoch_a as int, 8);
    lemma_le_bytes(epoch_b as int, 8);
    assert(pok_input::<P>(dealer_a, epoch_a, constant_a, r_a) =~= d + (da + (ea + (ca + ra))));
    assert(pok_input::<P>(dealer_b, epoch_b, constant_b, r_b) =~= d + (db + (eb + (cb + rb))));
    lemma_concat_split(d, da + (ea + (ca + ra)), d, db + (eb + (cb + rb)));
    lemma_concat_split(da, ea + (ca + ra), db, eb + (cb + rb));
    lemma_concat_split(ea, ca + ra, eb, cb + rb);
    lemma_concat_split(ca, ra, cb, rb);
    lemma_le_bytes_injective(dealer_a as int, dealer_b as int, 4);
    lemma_le_bytes_injective(epoch_a as int, epoch_b as int, 8);
}

/// A complaint cannot be relabelled: bodies with one encoding have one epoch,
/// session, round, accuser, accused and evidence.
pub proof fn law_complaint_body_injective(
    epoch_a: u64,
    session_a: Seq<u8>,
    round_a: u8,
    accuser_a: u32,
    accused_a: u32,
    evidence_a: Seq<u8>,
    epoch_b: u64,
    session_b: Seq<u8>,
    round_b: u8,
    accuser_b: u32,
    accused_b: u32,
    evidence_b: Seq<u8>,
)
    requires
        session_a.len() == 32,
        session_b.len() == 32,
        complaint_body(epoch_a, session_a, round_a, accuser_a, accused_a, evidence_a)
            == complaint_body(epoch_b, session_b, round_b, accuser_b, accused_b, evidence_b),
    ensures
        epoch_a == epoch_b,
        session_a == session_b,
        round_a == round_b,
        accuser_a == accuser_b,
        accused_a == accused_b,
        evidence_a == evidence_b,
{
    lemma_byte_bounds();
    let d = prefixed(COMPLAINT_SIG_DOMAIN@);
    let (ea, eb) = (le_bytes(epoch_a as int, 8), le_bytes(epoch_b as int, 8));
    let (aa, ab) = (le_bytes(accuser_a as int, 4), le_bytes(accuser_b as int, 4));
    let (ca, cb) = (le_bytes(accused_a as int, 4), le_bytes(accused_b as int, 4));
    lemma_le_bytes(epoch_a as int, 8);
    lemma_le_bytes(epoch_b as int, 8);
    lemma_le_bytes(accuser_a as int, 4);
    lemma_le_bytes(accuser_b as int, 4);
    lemma_le_bytes(accused_a as int, 4);
    lemma_le_bytes(accused_b as int, 4);
    let (t5a, t5b) = (ca + evidence_a, cb + evidence_b);
    let (t4a, t4b) = (aa + t5a, ab + t5b);
    let (t3a, t3b) = (seq![round_a] + t4a, seq![round_b] + t4b);
    let (t2a, t2b) = (session_a + t3a, session_b + t3b);
    lemma_concat_split(d, ea + t2a, d, eb + t2b);
    lemma_concat_split(ea, t2a, eb, t2b);
    lemma_concat_split(session_a, t3a, session_b, t3b);
    lemma_concat_split(seq![round_a], t4a, seq![round_b], t4b);
    assert(seq![round_a][0] == seq![round_b][0]);
    lemma_concat_split(aa, t5a, ab, t5b);
    lemma_concat_split(ca, evidence_a, cb, evidence_b);
    lemma_le_bytes_injective(epoch_a as int, epoch_b as int, 8);
    lemma_le_bytes_injective(accuser_a as int, accuser_b as int, 4);
    lemma_le_bytes_injective(accused_a as int, accused_b as int, 4);
}

/// Commitments in strictly ascending order of dealers.
spec fn strictly_sorted(s: Seq<CommitmentView>) -> bool {
    forall|i: int, j: int| 0 <= i < j < s.len() ==> (#[trigger] s[i]).dealer < (#[trigger] s[j]).dealer
}

/// No two commitments are of one dealer.
pub open spec fn distinct_dealers(s: Seq<CommitmentView>) -> bool {
    forall|i: int, j: int|
        0 <= i < s.len() && 0 <= j < s.len() && i != j ==> (#[trigger] s[i]).dealer != (
        #[trigger] s[j]).dealer
}

proof fn lemma_insert_multiset(s: Seq<CommitmentView>, c: CommitmentView)
    ensures
        insert_by_dealer(s, c).to_multiset() == s.to_multiset().insert(c),
    decreases s.len(),
{
    broadcast use vstd::seq_lib::group_to_multiset_ensures;

    if s.len() == 0 || s.last().dealer <= c.dealer {
    } else {
        lemma_insert_multiset(s.drop_last(), c);
        let t = insert_by_dealer(s.drop_last(), c);
        assert(t.push(s.last()).to_multiset() =~= t.to_multiset().insert(s.last()));
        assert(s =~= s.drop_last().push(s.last()));
        assert(s.drop_last().push(s.last()).to_multiset() =~= s.drop_last().to_multiset().insert(
            s.last(),
        ));
        assert(t.to_multiset().insert(s.last()) =~= s.to_multiset().insert(c));
    }
}

proof fn lemma_sort_multiset(cs: Seq<CommitmentView>)
    ensures
        sort_by_dealer(cs).to_multiset() == cs.to_multiset(),
    decreases cs.len(),
{
    broadcast use vstd::seq_lib::group_to_multiset_ensures;

    if cs.len() > 0 {
        lemma_sort_multiset(cs.drop_last());
        lemma_insert_multiset(sort_by_dealer(cs.drop_last()), cs.last());
        assert(cs =~= cs.drop_last().push(cs.last()));
        assert(cs.drop_last().push(cs.last()).to_multiset()
            =~= cs.drop_last().to_multiset().insert(cs.last()));
    }
}

proof fn lemma_insert_sorted(s: Seq<CommitmentView>, c: CommitmentView)
    requires
        strictly_sorted(s),
        forall|i: int| 0 <= i < s.len() ==> (#[trigger] s[i]).dealer != c.dealer,
    ensures
        strictly_sorted(insert_by_dealer(s, c)),
        insert_by_dealer(s, c).len() == s.len() + 1,
        forall|i: int|
            0 <= i < insert_by_dealer(s, c).len() ==> #[trigger] insert_by_dealer(s, c)[i] == c
                || s.contains(insert_by_dealer(s, c)[i]),
    decreases s.len(),
{
    let t = insert_by_dealer(s, c);
    if s.len() == 0 || s.last().dealer <= c.dealer {
        assert forall|i: int, j: int| 0 <= i < j < t.len() implies (#[trigger] t[i]).dealer < (
        #[trigger] t[j]).dealer by {
            assert(t[i] == s[i]);
            if j < s.len() {
                assert(t[j] == s[j]);
            } else {
                if i < s.len() - 1 {
                    assert(s[i].dealer < s[s.len() - 1].dealer);
                }
                assert(s[i].dealer != c.dealer);
            }
        }
        assert forall|i: int| 0 <= i < t.len() implies #[trigger] t[i] == c || s.contains(t[i]) by {
            if i < s.len() {
                assert(t[i] == s[i]);
            }
        }
    } else {
        let rest = s.drop_last();
        assert forall|i: int| 0 <= i < rest.len() implies (#[trigger] rest[i]).dealer
            != c.dealer by {
            assert(rest[i] == s[i]);
        }
        assert forall|i: int, j: int| 0 <= i < j < rest.len() implies (
        #[trigger] rest[i]).dealer < (#[trigger] rest[j]).dealer by {
            assert(rest[i] == s[i] && rest[j] == s[j]);
        }
        lemma_insert_sorted(rest, c);
        let u = insert_by_dealer(rest, c);
        let last = s.last();
        assert forall|i: int| 0 <= i < u.len() implies (#[trigger] u[i]).dealer < last.dealer
            && (u[i] == c || s.contains(u[i])) by {
            if u[i] != c {
                let k = choose|k: int| 0 <= k < rest.len() && rest[k] == u[i];
                assert(s[k] == u[i]);
                assert(s[k].dealer < s[s.len() - 1].dealer);
            }
        }
        assert forall|i: int, j: int| 0 <= i < j < t.len() implies (#[trigger] t[i]).dealer < (
        #[trigger] t[j]).dealer by {
            assert(t[i] == u[i]);
            if j < u.len() {
                assert(t[j] == u[j]);
            }
        }
        assert forall|i: int| 0 <= i < t.len() implies #[trigger] t[i] == c || s.contains(t[i]) by {
            if i < u.len() {
                assert(t[i] == u[i]);
            } else {
                assert(s[s.len() - 1] == t[i]);
            }
        }
    }
}

proof fn lemma_sort_sorted(cs: Seq<CommitmentView>)
    requires
        distinct_dealers(cs),
    ensures
        strictly_sorted(sort_by_dealer(cs)),
        forall|i: int|
            0 <= i < sort_by_dealer(cs).len() ==> cs.contains(#[trigger] sort_by_dealer(cs)[i]),
    decreases cs.len(),
{
    if cs.len() > 0 {
        let rest = cs.drop_last();
        assert forall|i: int, j: int|
            0 <= i < rest.len() && 0 <= j < rest.len() && i != j implies (
        #[trigger] rest[i]).dealer != (#[trigger] rest[j]).dealer by {
            assert(rest[i] == cs[i] && rest[j] == cs[j]);
        }
        lemma_sort_sorted(rest);
        let s = sort_by_dealer(rest);
        let c = cs.last();
        assert forall|i: int| 0 <= i < s.len() implies (#[trigger] s[i]).dealer != c.dealer
            && cs.contains(s[i]) by {
            assert(rest.contains(s[i]));
            let k = choose|k: int| 0 <= k < rest.len() && rest[k] == s[i];
            assert(cs[k] == s[i]);
            assert(cs[cs.len() - 1].dealer != cs[k].dealer);
        }
        lemma_insert_sorted(s, c);
        let t = sort_by_dealer(cs);
        assert forall|i: int| 0 <= i < t.len() implies cs.contains(#[trigger] t[i]) by {
            if t[i] != c {
                let k = choose|k: int| 0 <= k < s.len() && s[k] == t[i];
                assert(cs.contains(s[k]));
            } else {
                assert(cs[cs.len() - 1] == c);
            }
        }
    }
}

proof fn lemma_sorted_unique(a: Seq<CommitmentView>, b: Seq<CommitmentView>)
    requires
        strictly_sorted(a),
        strictly_sorted(b),
        a.to_multiset() == b.to_multiset(),
    ensures
        a == b,
    decreases a.len(),
{
    broadcast use vstd::seq_lib::group_to_multiset_ensures;

    assert(a.to_multiset().len() == a.len() && b.to_multiset().len() == b.len());
    if a.len() == 0 {
        assert(a =~= b);
    } else {
        let (x, y) = (a.last(), b.last());
        assert(a[a.len() - 1] == x && b[b.len() - 1] == y);
        assert(a.contains(x) && b.contains(y));
        assert(b.to_multiset().count(x) > 0 && a.to_multiset().count(y) > 0);
        assert(b.contains(x) && a.contains(y));
        let i = choose|i: int| 0 <= i < b.len() && b[i] == x;
        let j = choose|j: int| 0 <= j < a.len() && a[j] == y;
        if i < b.len() - 1 {
            assert(b[i].dealer < b[b.len() - 1].dealer);
            if j < a.len() - 1 {
                assert(a[j].dealer < a[a.len() - 1].dealer);
            }
        }
        assert(x == y);
        let (ra, rb) = (a.drop_last(), b.drop_last());
        assert(a =~= ra.push(x) && b =~= rb.push(x));
        assert(ra.push(x).to_multiset() =~= ra.to_multiset().insert(x));
        assert(rb.push(x).to_multiset() =~= rb.to_multiset().insert(x));
        assert(ra.to_multiset() =~= a.to_multiset().remove(x));
        assert(rb.to_multiset() =~= b.to_multiset().remove(x));
        assert forall|k: int, l: int| 0 <= k < l < ra.len() implies (#[trigger] ra[k]).dealer < (
        #[trigger] ra[l]).dealer by {
            assert(ra[k] == a[k] && ra[l] == a[l]);
        }
        assert forall|k: int, l: int| 0 <= k < l < rb.len() implies (#[trigger] rb[k]).dealer < (
        #[trigger] rb[l]).dealer by {
            assert(rb[k] == b[k] && rb[l] == b[l]);
        }
        lemma_sorted_unique(ra, rb);
    }
}

/// The echo digest does not depend on the order in which the commitments are
/// given.
pub proof fn law_echo_order_independent<P: OsstPoint>(
    epoch: u64,
    threshold: u32,
    num_participants: u32,
    a: Seq<CommitmentView>,
    b: Seq<CommitmentView>,
)
    requires
        distinct_dealers(a),
        distinct_dealers(b),
        a.to_multiset() == b.to_multiset(),
    ensures
        echo_digest::<P>(epoch, threshold, num_participants, a) == echo_digest::<P>(
            epoch,
            threshold,
            num_participants,
            b,
        ),
{
    lemma_sort_multiset(a);
    lemma_sort_multiset(b);
    lemma_sort_sorted(a);
    lemma_sort_sorted(b);
    lemma_sorted_unique(sort_by_dealer(a), sort_by_dealer(b));
}

proof fn lemma_entries_injective<P: OsstPoint>(a: Seq<CommitmentView>, b: Seq<CommitmentView>)
    requires
        a.len() == b.len(),
        forall|i: int|
            0 <= i < a.len() ==> commitment_bytes::<P>(#[trigger] a[i]).len() <= u64::MAX,
        forall|i: int|
            0 <= i < b.len() ==> commitment_bytes::<P>(#[trigger] b[i]).len() <= u64::MAX,
        echo_entries::<P>(a) == echo_entries::<P>(b),
    ensures
        forall|i: int|
            0 <= i < a.len() ==> (#[trigger] a[i]).dealer == b[i].dealer && commitment_bytes::<P>(
                a[i],
            ) == commitment_bytes::<P>(b[i]),
    decreases a.len(),
{
    if a.len() > 0 {
        let (ra, rb) = (a.drop_first(), b.drop_first());
        let (da, db) = (le_bytes(a[0].dealer as int, 4), le_bytes(b[0].dealer as int, 4));
        let (ca, cb) = (commitment_bytes::<P>(a[0]), commitment_bytes::<P>(b[0]));
        let (ea, eb) = (echo_entries::<P>(ra), echo_entries::<P>(rb));
        lemma_byte_bounds();
        lemma_le_bytes(a[0].dealer as int, 4);
        lemma_le_bytes(b[0].dealer as int, 4);
        assert(echo_entries::<P>(a) =~= da + (prefixed(ca) + ea));
        assert(echo_entries::<P>(b) =~= db + (prefixed(cb) + eb));
        lemma_concat_split(da, prefixed(ca) + ea, db, prefixed(cb) + eb);
        lemma_prefixed_split(ca, ea, cb, eb);
        lemma_le_bytes_injective(a[0].dealer as int, b[0].dealer as int, 4);
        assert forall|i: int| 0 <= i < ra.len() implies commitment_bytes::<P>(
            #[trigger] ra[i],
        ).len() <= u64::MAX by {
            assert(ra[i] == a[i + 1]);
        }
        assert forall|i: int| 0 <= i < rb.len() implies commitment_bytes::<P>(
            #[trigger] rb[i],
        ).len() <= u64::MAX by {
            assert(rb[i] == b[i + 1]);
        }
        lemma_entries_injective::<P>(ra, rb);
        assert forall|i: int| 0 <= i < a.len() implies (#[trigger] a[i]).dealer == b[i].dealer
            && commitment_bytes::<P>(a[i]) == commitment_bytes::<P>(b[i]) by {
            if i > 0 {
                assert(ra[i - 1] == a[i] && rb[i - 1] == b[i]);
                assert(ra[i - 1].dealer == rb[i - 1].dealer);
            }
        }
    }
}

/// An equivocating dealer is caught by the echo round: the input of the digest
/// is injective, so participants whose inputs agree saw the same ceremony and
/// the same encoded commitment of every dealer.
pub proof fn law_echo_input_injective<P: OsstPoint>(
    epoch_a: u64,
    threshold_a: u32,
    participants_a: u32,
    a: Seq<CommitmentView>,
    epoch_b: u64,
    threshold_b: u32,
    participants_b: u32,
    b: Seq<CommitmentView>,
)
    requires
        a.len() <= u32::MAX,
        b.len() <= u32::MAX,
        forall|i: int|
            0 <= i < a.len() ==> commitment_bytes::<P>(#[trigger] a[i]).len() <= u64::MAX,
        forall|i: int|
            0 <= i < b.len() ==> commitment_bytes::<P>(#[trigger] b[i]).len() <= u64::MAX,
        echo_input::<P>(epoch_a, threshold_a, participants_a, a) == echo_input::<P>(
            epoch_b,
            threshold_b,
            participants_b,
            b,
        ),
    ensures
        epoch_a == epoch_b,
        threshold_a == threshold_b,
        participants_a == participants_b,
        a.len() == b.len(),
        forall|i: int|
            0 <= i < a.len() ==> (#[trigger] a[i]).dealer == b[i].dealer && commitment_bytes::<P>(
                a[i],
            ) == commitment_bytes::<P>(b[i]),
{
    lemma_byte_bounds();
    let d = ECHO_DIGEST_DOMAIN@;
    let (ea, eb) = (le_bytes(epoch_a as int, 8), le_bytes(epoch_b as int, 8));
    let (ta, tb) = (le_bytes(threshold_a as int, 4), le_bytes(threshold_b as int, 4));
    let (pa, pb) = (le_bytes(participants_a as int, 4), le_bytes(participants_b as int, 4));
    let (la, lb) = (
        le_bytes(a.len() as u32 as int, 4),
        le_bytes(b.len() as u32 as int, 4),
    );
    lemma_le_bytes(epoch_a as int, 8);
    lemma_le_bytes(epoch_b as int, 8);
    lemma_le_bytes(threshold_a as int, 4);
    lemma_le_bytes(threshold_b as int, 4);
    lemma_le_bytes(participants_a as int, 4);
    lemma_le_bytes(participants_b as int, 4);
    lemma_le_bytes(a.len() as u32 as int, 4);
    lemma_le_bytes(b.len() as u32 as int, 4);
    let (xa, xb) = (echo_entries::<P>(a), echo_entries::<P>(b));
    lemma_concat_split(d, ea + (ta + (pa + (la + xa))), d, eb + (tb + (pb + (lb + xb))));
    lemma_concat_split(ea, ta + (pa + (la + xa)), eb, tb + (pb + (lb + xb)));
    lemma_concat_split(ta, pa + (la + xa), tb, pb + (lb + xb));
    lemma_concat_split(pa, la + xa, pb, lb + xb);
    lemma_concat_split(la, xa, lb, xb);
    lemma_le_bytes_injective(epoch_a as int, epoch_b as int, 8);
    lemma_le_bytes_injective(threshold_a as int, threshold_b as int, 4);
    lemma_le_bytes_injective(participants_a as int, participants_b as int, 4);
    lemma_le_bytes_injective(a.len() as u32 as int, b.len() as u32 as int, 4);
    lemma_entries_injective::<P>(a, b);
}

/// The input of the echo digest binds the ceremony and the commitments: two inputs are
/// equal exactly where the epoch, the threshold, the number of participants and the
/// commitment sets are, whatever the order in which the commitments came.
pub proof fn law_echo_input_binds<P: OsstPoint>(
    epoch_a: u64,
    threshold_a: u32,
    participants_a: u32,
    a: Seq<CommitmentView>,
    epoch_b: u64,
    threshold_b: u32,
    participants_b: u32,
    b: Seq<CommitmentView>,
)
    requires
        a.len() <= u32::MAX,
        b.len() <= u32::MAX,
        distinct_dealers(a),
        distinct_dealers(b),
        forall|i: int| 0 <= i < a.len() ==> is_encodable::<P>(#[trigger] a[i]),
        forall|i: int| 0 <= i < b.len() ==> is_encodable::<P>(#[trigger] b[i]),
    ensures
        echo_input::<P>(epoch_a, threshold_a, participants_a, sort_by_dealer(a)) == echo_input::<
            P,
        >(epoch_b, threshold_b, participants_b, sort_by_dealer(b)) <==> {
            &&& epoch_a == epoch_b
            &&& threshold_a == threshold_b
            &&& participants_a == participants_b
            &&& a.to_multiset() == b.to_multiset()
        },
{
    broadcast use vstd::seq_lib::group_to_multiset_ensures;

    let (s, t) = (sort_by_dealer(a), sort_by_dealer(b));
    lemma_sort_multiset(a);
    lemma_sort_multiset(b);
    lemma_sort_sorted(a);
    lemma_sort_sorted(b);
    assert(s.len() == a.len()) by {
        assert(s.to_multiset().len() == a.to_multiset().len());
    }
    assert(t.len() == b.len()) by {
        assert(t.to_multiset().len() == b.to_multiset().len());
    }
    assert forall|i: int| 0 <= i < s.len() implies is_encodable::<P>(#[trigger] s[i]) by {
        assert(a.contains(s[i]));
    }
    assert forall|i: int| 0 <= i < t.len() implies is_encodable::<P>(#[trigger] t[i]) by {
        assert(b.contains(t[i]));
    }
    if echo_input::<P>(epoch_a, threshold_a, participants_a, s) == echo_input::<P>(
        epoch_b,
        threshold_b,
        participants_b,
        t,
    ) {
        law_echo_input_injective::<P>(
            epoch_a,
            threshold_a,
            participants_a,
            s,
            epoch_b,
            threshold_b,
            participants_b,
            t,
        );
        assert forall|i: int| 0 <= i < s.len() implies s[i] == t[i] by {
            law_commitment_bytes_injective::<P>(s[i], t[i]);
        }
        assert(s =~= t);
    }
    if a.to_multiset() == b.to_multiset() {
        lemma_sorted_unique(s, t);
    }
}

/// The echo digest of a round state.
pub open spec fn round1_digest<P: OsstPoint>(v: DkgStateView<P>) -> Seq<u8> {
    echo_digest::<P>(
        v.epoch,
        v.threshold,
        v.participants,
        commitment_views(submitted(v.commitments)),
    )
}

/// The input of the echo digest of a round state.
pub open spec fn round1_input<P: OsstPoint>(v: DkgStateView<P>) -> Seq<u8> {
    echo_input::<P>(
        v.epoch,
        v.threshold,
        v.participants,
        sort_by_dealer(commitment_views(submitted(v.commitments))),
    )
}

/// Two participants echo one digest exactly where they are in the same ceremony and
/// hold the same commitments, in ascending order of dealers, unless the truncated
/// SHA-512 collides on what they hold. The commitments of an agreed set are encodable.
pub proof fn law_same_digest_same_round1<P: OsstPoint>(a: DkgStateView<P>, b: DkgStateView<P>)
    requires
        a.wf(),
        b.wf(),
        forall|i: int|
            0 <= i < submitted(a.commitments).len() ==> is_encodable::<P>(
                (#[trigger] submitted(a.commitments)[i])@,
            ),
        forall|i: int|
            0 <= i < submitted(b.commitments).len() ==> is_encodable::<P>(
                (#[trigger] submitted(b.commitments)[i])@,
            ),
        sha512_digest(round1_input(a)).subrange(0, 32) == sha512_digest(round1_input(b)).subrange(
            0,
            32,
        ) ==> round1_input(a) == round1_input(b),
    ensures
        round1_digest(a) == round1_digest(b) <==> {
            &&& a.epoch == b.epoch
            &&& a.threshold == b.threshold
            &&& a.participants == b.participants
            &&& commitment_views(submitted(a.commitments)) == commitment_views(
                submitted(b.commitments),
            )
        },
        ascending(dealer_indices(submitted(a.commitments))),
{
    let (x, y) = (
        commitment_views(submitted(a.commitments)),
        commitment_views(submitted(b.commitments)),
    );
    lemma_slots(a);
    lemma_slots(b);
    lemma_views_sorted(submitted(a.commitments));
    lemma_views_sorted(submitted(b.commitments));
    assert forall|i: int| 0 <= i < x.len() implies is_encodable::<P>(#[trigger] x[i]) by {
        assert(x[i] == submitted(a.commitments)[i]@);
    }
    assert forall|i: int| 0 <= i < y.len() implies is_encodable::<P>(#[trigger] y[i]) by {
        assert(y[i] == submitted(b.commitments)[i]@);
    }
    law_echo_input_binds::<P>(
        a.epoch,
        a.threshold,
        a.participants,
        x,
        b.epoch,
        b.threshold,
        b.participants,
        y,
    );
    if x.to_multiset() == y.to_multiset() {
        lemma_sorted_unique(x, y);
    }
}

/// Commitments in ascending order of dealers are sorted and distinct.
proof fn lemma_views_sorted<P: OsstPoint>(s: Seq<DealerCommitment<P>>)
    requires
        ascending(dealer_indices(s)),
    ensures
        strictly_sorted(commitment_views(s)),
        distinct_dealers(commitment_views(s)),
{
    let (v, ids) = (commitment_views(s), dealer_indices(s));
    assert forall|i: int, j: int| 0 <= i < j < v.len() implies (#[trigger] v[i]).dealer < (
    #[trigger] v[j]).dealer by {
        assert(ids[i] < ids[j]);
        assert(v[i].dealer == ids[i] && v[j].dealer == ids[j]);
    }
    assert forall|i: int, j: int| 0 <= i < v.len() && 0 <= j < v.len() && i != j implies (
    #[trigger] v[i]).dealer != (#[trigger] v[j]).dealer by {
        if i < j {
            assert(v[i].dealer < v[j].dealer);
        } else {
            assert(v[j].dealer < v[i].dealer);
        }
    }
}

// ---------------------------------------------------------------------------
// What proofs, complaints and digests bind
// ---------------------------------------------------------------------------

/// The challenge of a proof of knowledge covers everything: challenges are equal exactly
/// where the dealer, the epoch, the constant term and the proof's commitment are, where
/// SHA-512 does not collide on their inputs.
pub proof fn law_pok_challenge_binds<P: OsstPoint>(
    dealer_a: u32,
    epoch_a: u64,
    constant_a: int,
    r_a: int,
    dealer_b: u32,
    epoch_b: u64,
    constant_b: int,
    r_b: int,
)
    requires
        has_encoding::<P>(constant_a),
        has_encoding::<P>(r_a),
        has_encoding::<P>(constant_b),
        has_encoding::<P>(r_b),
        told_apart::<P::Scalar>(
            pok_input::<P>(dealer_a, epoch_a, constant_a, r_a),
            pok_input::<P>(dealer_b, epoch_b, constant_b, r_b),
        ),
    ensures
        pok_challenge::<P>(dealer_a, epoch_a, constant_a, r_a) == pok_challenge::<P>(
            dealer_b,
            epoch_b,
            constant_b,
            r_b,
        ) <==> dealer_a == dealer_b && epoch_a == epoch_b && constant_a == constant_b && r_a == r_b,
{
    let a = pok_input::<P>(dealer_a, epoch_a, constant_a, r_a);
    let b = pok_input::<P>(dealer_b, epoch_b, constant_b, r_b);
    lemma_encodings::<P>(constant_a, constant_b);
    lemma_encodings::<P>(r_a, r_b);
    law_hash_binds_input::<P::Scalar>(a, b);
    if a == b {
        law_pok_input_injective::<P>(
            dealer_a,
            epoch_a,
            constant_a,
            r_a,
            dealer_b,
            epoch_b,
            constant_b,
            r_b,
        );
    }
}

/// A proof cannot be replayed: one that is valid for a constant term other than zero is
/// valid for one dealer in one epoch, where SHA-512 does not collide on the inputs.
pub proof fn law_pok_not_replayed<P: OsstPoint>(
    dealer_a: u32,
    epoch_a: u64,
    dealer_b: u32,
    epoch_b: u64,
    constant: int,
    r: int,
    z: int,
)
    requires
        is_field(ord::<P>()),
        has_encoding::<P>(constant),
        has_encoding::<P>(r),
        constant != 0,
        is_valid_pok::<P>(dealer_a, epoch_a, constant, r, z),
        is_valid_pok::<P>(dealer_b, epoch_b, constant, r, z),
        told_apart::<P::Scalar>(
            pok_input::<P>(dealer_a, epoch_a, constant, r),
            pok_input::<P>(dealer_b, epoch_b, constant, r),
        ),
    ensures
        dealer_a == dealer_b,
        epoch_a == epoch_b,
{
    let (x, y) = (
        pok_input::<P>(dealer_a, epoch_a, constant, r),
        pok_input::<P>(dealer_b, epoch_b, constant, r),
    );
    lemma_encodings::<P>(constant, r);
    law_hash_binds_input::<P::Scalar>(x, x);
    law_hash_binds_input::<P::Scalar>(y, y);
    law_response_binds_challenge(
        r,
        pok_challenge::<P>(dealer_a, epoch_a, constant, r),
        pok_challenge::<P>(dealer_b, epoch_b, constant, r),
        constant,
        ord::<P>(),
    );
    law_pok_challenge_binds::<P>(
        dealer_a,
        epoch_a,
        constant,
        r,
        dealer_b,
        epoch_b,
        constant,
        r,
    );
}

/// A proof shows knowledge: the responses of two valid proofs with one commitment differ
/// by the constant term times the difference of their challenges, so that whoever can give
/// both has the constant term. In particular one response is valid, and no other.
pub proof fn law_pok_shows_knowledge<P: OsstPoint>(
    dealer_a: u32,
    epoch_a: u64,
    z_a: int,
    dealer_b: u32,
    epoch_b: u64,
    z_b: int,
    constant: int,
    r: int,
)
    requires
        is_valid_pok::<P>(dealer_a, epoch_a, constant, r, z_a),
        is_valid_pok::<P>(dealer_b, epoch_b, constant, r, z_b),
    ensures
        eqm(
            z_a - z_b,
            (pok_challenge::<P>(dealer_a, epoch_a, constant, r) - pok_challenge::<P>(
                dealer_b,
                epoch_b,
                constant,
                r,
            )) * constant,
            ord::<P>(),
        ),
        dealer_a == dealer_b && epoch_a == epoch_b ==> z_a == z_b,
        0 <= z_a < ord::<P>(),
{
    <P::Scalar as OsstScalar>::lemma_order();
    law_responses_differ_by_secret(
        r,
        pok_challenge::<P>(dealer_a, epoch_a, constant, r),
        pok_challenge::<P>(dealer_b, epoch_b, constant, r),
        constant,
        ord::<P>(),
    );
}

/// A package is proved for its own dealer and its own constant term: a dealer that shows
/// another's package as its own, or one from another epoch, does not prove it, where
/// SHA-512 does not collide on the inputs of the two challenges.
pub proof fn law_package_not_replayed<P: OsstPoint>(
    a: Round1Package<P>,
    epoch_a: u64,
    b: Round1Package<P>,
    epoch_b: u64,
)
    requires
        is_field(ord::<P>()),
        a.commitment.coefficients@.len() > 0,
        b.commitment.coefficients@.len() > 0,
        a.commitment.polynomial()[0] == b.commitment.polynomial()[0],
        a.commitment.polynomial()[0] != 0,
        a.proof_of_knowledge.r.log() == b.proof_of_knowledge.r.log(),
        a.proof_of_knowledge.z.val() == b.proof_of_knowledge.z.val(),
        has_encoding::<P>(a.commitment.polynomial()[0]),
        has_encoding::<P>(a.proof_of_knowledge.r.log()),
        a.is_proved(epoch_a),
        b.is_proved(epoch_b),
        told_apart::<P::Scalar>(
            pok_input::<P>(
                a.commitment.dealer_index,
                epoch_a,
                a.commitment.polynomial()[0],
                a.proof_of_knowledge.r.log(),
            ),
            pok_input::<P>(
                b.commitment.dealer_index,
                epoch_b,
                b.commitment.polynomial()[0],
                b.proof_of_knowledge.r.log(),
            ),
        ),
    ensures
        a.commitment.dealer_index == b.commitment.dealer_index,
        epoch_a == epoch_b,
{
    law_pok_not_replayed::<P>(
        a.commitment.dealer_index,
        epoch_a,
        b.commitment.dealer_index,
        epoch_b,
        a.commitment.polynomial()[0],
        a.proof_of_knowledge.r.log(),
        a.proof_of_knowledge.z.val(),
    );
}

/// The encoding of evidence determines it: equal encodings are of one kind, one
/// commitment and the same proof, or the same dealer, player and value of the revealed
/// sub-share and the same sealed digest.
pub proof fn law_evidence_bytes_injective<P: OsstPoint>(
    a: ComplaintEvidence<P>,
    b: ComplaintEvidence<P>,
)
    requires
        is_presentable(a),
        is_presentable(b),
    ensures
        evidence_bytes(a) == evidence_bytes(b) <==> same_evidence(a, b),
{
    let none = Seq::<u8>::empty();
    match (a, b) {
        (
            ComplaintEvidence::ForgedProofOfKnowledge { package: p },
            ComplaintEvidence::ForgedProofOfKnowledge { package: q },
        ) => {
            let (pp, qp) = (p.proof_of_knowledge, q.proof_of_knowledge);
            let (cp, cq) = (
                commitment_bytes::<P>(p.commitment@),
                commitment_bytes::<P>(q.commitment@),
            );
            let (rp, rq) = (P::encoding(pp.r.log()), P::encoding(qp.r.log()));
            let (zp, zq) = (
                <P::Scalar as OsstScalar>::repr(pp.z.val()),
                <P::Scalar as OsstScalar>::repr(qp.z.val()),
            );
            lemma_encodings::<P>(pp.r.log(), qp.r.log());
            P::lemma_size();
            pp.z.lemma_val();
            qp.z.lemma_val();
            <P::Scalar as OsstScalar>::lemma_repr(pp.z.val());
            <P::Scalar as OsstScalar>::lemma_repr(qp.z.val());
            if evidence_bytes(a) == evidence_bytes(b) {
                let (tp, tq) = (prefixed(rp) + prefixed(zp), prefixed(rq) + prefixed(zq));
                lemma_concat_split(seq![1u8], prefixed(cp) + tp, seq![1u8], prefixed(cq) + tq);
                lemma_prefixed_split(cp, tp, cq, tq);
                lemma_prefixed_split(rp, prefixed(zp), rq, prefixed(zq));
                assert(prefixed(zp) + none =~= prefixed(zp));
                assert(prefixed(zq) + none =~= prefixed(zq));
                lemma_prefixed_split(zp, none, zq, none);
                law_commitment_bytes_injective::<P>(p.commitment@, q.commitment@);
            }
            if same_evidence(a, b) {
                assert(p.commitment@ == q.commitment@);
            }
        },
        (
            ComplaintEvidence::BadSubShare { commitment: c, revealed: s, sealed_digest: g },
            ComplaintEvidence::BadSubShare { commitment: d, revealed: t, sealed_digest: h },
        ) => {
            let (cc, cd) = (commitment_bytes::<P>(c@), commitment_bytes::<P>(d@));
            let (bs, bt) = (subshare_bytes::<P::Scalar>(s@), subshare_bytes::<P::Scalar>(t@));
            lemma_subshare_bytes::<P::Scalar>(s@);
            lemma_subshare_bytes::<P::Scalar>(t@);
            if evidence_bytes(a) == evidence_bytes(b) {
                let (ts, tt) = (prefixed(bs) + prefixed(g@), prefixed(bt) + prefixed(h@));
                lemma_concat_split(seq![2u8], prefixed(cc) + ts, seq![2u8], prefixed(cd) + tt);
                lemma_prefixed_split(cc, ts, cd, tt);
                lemma_prefixed_split(bs, prefixed(g@), bt, prefixed(h@));
                assert(prefixed(g@) + none =~= prefixed(g@));
                assert(prefixed(h@) + none =~= prefixed(h@));
                lemma_prefixed_split(g@, none, h@, none);
                law_commitment_bytes_injective::<P>(c@, d@);
                law_subshare_bytes_injective::<P::Scalar>(s@, t@);
            }
            if same_evidence(a, b) {
                assert(c@ == d@);
                assert(s@ == t@);
            }
        },
        _ => {
            let (x, y) = (evidence_bytes(a), evidence_bytes(b));
            assert(x[0] != y[0]);
        },
    }
}

/// The challenge of a complaint's signature covers the commitment, the key and the whole
/// body: challenges are equal exactly where these are, where SHA-512 does not collide on
/// their inputs.
pub proof fn law_complaint_challenge_binds<P: OsstPoint>(
    r_a: int,
    key_a: int,
    body_a: Seq<u8>,
    r_b: int,
    key_b: int,
    body_b: Seq<u8>,
)
    requires
        has_encoding::<P>(r_a),
        has_encoding::<P>(key_a),
        has_encoding::<P>(r_b),
        has_encoding::<P>(key_b),
        body_a.len() <= u64::MAX,
        body_b.len() <= u64::MAX,
        told_apart::<P::Scalar>(
            complaint_input::<P>(r_a, key_a, body_a),
            complaint_input::<P>(r_b, key_b, body_b),
        ),
    ensures
        complaint_challenge::<P>(r_a, key_a, body_a) == complaint_challenge::<P>(
            r_b,
            key_b,
            body_b,
        ) <==> r_a == r_b && key_a == key_b && body_a == body_b,
{
    let (ra, rb) = (P::encoding(r_a), P::encoding(r_b));
    let (ya, yb) = (P::encoding(key_a), P::encoding(key_b));
    let a = complaint_input::<P>(r_a, key_a, body_a);
    let b = complaint_input::<P>(r_b, key_b, body_b);
    let none = Seq::<u8>::empty();
    lemma_encodings::<P>(r_a, r_b);
    lemma_encodings::<P>(key_a, key_b);
    law_hash_binds_input::<P::Scalar>(a, b);
    if a == b {
        let (pa, pb) = (prefixed(body_a), prefixed(body_b));
        assert(a =~= COMPLAINT_SIG_DOMAIN@ + (ra + (ya + pa)));
        assert(b =~= COMPLAINT_SIG_DOMAIN@ + (rb + (yb + pb)));
        lemma_concat_split(
            COMPLAINT_SIG_DOMAIN@,
            ra + (ya + pa),
            COMPLAINT_SIG_DOMAIN@,
            rb + (yb + pb),
        );
        lemma_concat_split(ra, ya + pa, rb, yb + pb);
        lemma_concat_split(ya, pa, yb, pb);
        assert(pa + none =~= pa && pb + none =~= pb);
        lemma_prefixed_split(body_a, none, body_b, none);
    }
}

/// A complaint cannot be altered: two that carry one signature, valid under one key other
/// than the identity, are of one ceremony and round, have one accuser and one accused,
/// and the same evidence, with the revealed sub-share in it, where SHA-512 does not
/// collide on what is hashed.
pub proof fn law_complaint_not_altered<P: OsstPoint>(a: Complaint<P>, b: Complaint<P>, key: int)
    requires
        is_field(ord::<P>()),
        has_encoding::<P>(key),
        key != 0,
        a.is_bindable(),
        b.is_bindable(),
        a.r.log() == b.r.log(),
        a.s.val() == b.s.val(),
        a.is_signed_by(key),
        b.is_signed_by(key),
        told_apart::<P::Scalar>(
            complaint_input::<P>(a.r.log(), key, a.signed_body()),
            complaint_input::<P>(b.r.log(), key, b.signed_body()),
        ),
    ensures
        a.epoch == b.epoch,
        a.session_id@ == b.session_id@,
        a.round == b.round,
        a.accuser_index == b.accuser_index,
        a.accused_index == b.accused_index,
        same_evidence(a.evidence, b.evidence),
{
    let r = a.r.log();
    let (x, y) = (
        complaint_input::<P>(r, key, a.signed_body()),
        complaint_input::<P>(r, key, b.signed_body()),
    );
    lemma_encodings::<P>(key, r);
    law_hash_binds_input::<P::Scalar>(x, x);
    law_hash_binds_input::<P::Scalar>(y, y);
    law_response_binds_challenge(
        r,
        complaint_challenge::<P>(r, key, a.signed_body()),
        complaint_challenge::<P>(r, key, b.signed_body()),
        key,
        ord::<P>(),
    );
    law_complaint_challenge_binds::<P>(r, key, a.signed_body(), r, key, b.signed_body());
    law_complaint_body_injective(
        a.epoch,
        a.session_id@,
        a.round,
        a.accuser_index,
        a.accused_index,
        evidence_bytes(a.evidence),
        b.epoch,
        b.session_id@,
        b.round,
        b.accuser_index,
        b.accused_index,
        evidence_bytes(b.evidence),
    );
    law_evidence_bytes_injective(a.evidence, b.evidence);
}

/// Signing two complaints with one nonce gives up the key, and one response is valid for a
/// complaint, and no other.
pub proof fn law_complaint_responses<P: OsstPoint>(a: Complaint<P>, b: Complaint<P>, key: int)
    requires
        a.r.log() == b.r.log(),
        a.is_signed_by(key),
        b.is_signed_by(key),
    ensures
        eqm(
            a.s.val() - b.s.val(),
            (complaint_challenge::<P>(a.r.log(), key, a.signed_body()) - complaint_challenge::<P>(
                b.r.log(),
                key,
                b.signed_body(),
            )) * key,
            ord::<P>(),
        ),
        a.signed_body() == b.signed_body() ==> a.s.val() == b.s.val(),
{
    <P::Scalar as OsstScalar>::lemma_order();
    law_responses_differ_by_secret(
        a.r.log(),
        complaint_challenge::<P>(a.r.log(), key, a.signed_body()),
        complaint_challenge::<P>(b.r.log(), key, b.signed_body()),
        key,
        ord::<P>(),
    );
}

/// A complaint is heard exactly where it is of this ceremony, names an accuser and the
/// dealer that its evidence is about, and is signed by the accuser's key; what is not is
/// invalid.
pub proof fn law_complaint_heard<P: OsstPoint>(
    c: Complaint<P>,
    epoch: u64,
    session_id: [u8; 32],
    key: P,
    r: Result<ComplaintVerdict, OsstError>,
)
    requires
        call_ensures(Complaint::<P>::verify, (&c, epoch, &session_id, &key), r),
    ensures
        r is Ok ==> c.epoch == epoch && c.session_id@ == session_id@ && c.accuser_index != 0,
        r is Ok ==> c.accused_index != 0 && match c.evidence {
            ComplaintEvidence::ForgedProofOfKnowledge { package } => {
                package.commitment.dealer_index == c.accused_index
            },
            ComplaintEvidence::BadSubShare { commitment, .. } => {
                commitment.dealer_index == c.accused_index
            },
        },
        r is Ok ==> c.is_bindable() && c.is_signed_by(key.log()),
        r is Ok || r == Err::<ComplaintVerdict, OsstError>(OsstError::InvalidComplaint),
        c.epoch == epoch && c.session_id@ == session_id@ && c.accuser_index != 0 && c.accused_index
            != 0 && c.accused_index == accused(c.evidence) && c.is_signed_by(key.log()) ==> r is Ok,
{
}

/// Who is blamed. A revealed sub-share convicts its dealer exactly where it is not the
/// value on the dealer's commitment: of all values that an accuser can reveal one is
/// unfounded, the honest one. A sub-share of another dealer, or for another player than
/// the accuser, convicts nobody.
pub proof fn law_bad_value_convicts<P: OsstPoint>(c: Complaint<P>)
    requires
        c.evidence is BadSubShare,
        c.accuser_index != 0,
    ensures
        ({
            let commitment = c.evidence->commitment;
            let s = c.evidence->revealed@;
            let honest = poly(logs(commitment.coefficients@), c.accuser_index as int) % ord::<P>();
            if commitment.dealer_index == c.accused_index && s.dealer == c.accused_index && s.player
                == c.accuser_index {
                c.verdict() == ComplaintVerdict::Unfounded <==> s.value == honest
            } else {
                c.verdict() == ComplaintVerdict::Unfounded
            }
        }),
{
}

/// A forged proof convicts its dealer: a package of the accused is evidence exactly where
/// its proof does not verify in the complaint's epoch.
pub proof fn law_forged_proof_convicts<P: OsstPoint>(c: Complaint<P>)
    requires
        c.evidence is ForgedProofOfKnowledge,
    ensures
        ({
            let package = c.evidence->package;
            if package.commitment.dealer_index == c.accused_index {
                c.verdict() == ComplaintVerdict::Unfounded <==> is_valid_pok::<P>(
                    c.accused_index,
                    c.epoch,
                    package.commitment.polynomial()[0],
                    package.proof_of_knowledge.r.log(),
                    package.proof_of_knowledge.z.val(),
                )
            } else {
                c.verdict() == ComplaintVerdict::Unfounded
            }
        }),
{
}

/// What the digest of a commitment is a hash of.
pub open spec fn commitment_digest_input<P: OsstPoint>(c: CommitmentView) -> Seq<u8> {
    COMMITMENT_DIGEST_DOMAIN@ + prefixed(commitment_bytes::<P>(c))
}

/// A commitment's digest names it: digests are equal exactly where the commitments are,
/// where the truncated SHA-512 does not collide on their inputs.
pub proof fn law_commitment_digest_binds<P: OsstPoint>(a: CommitmentView, b: CommitmentView)
    requires
        is_encodable::<P>(a),
        is_encodable::<P>(b),
        sha512_digest(commitment_digest_input::<P>(a)).subrange(0, 32) == sha512_digest(
            commitment_digest_input::<P>(b),
        ).subrange(0, 32) ==> commitment_digest_input::<P>(a) == commitment_digest_input::<P>(b),
    ensures
        commitment_digest_value::<P>(a) == commitment_digest_value::<P>(b) <==> a == b,
{
    let (ca, cb) = (commitment_bytes::<P>(a), commitment_bytes::<P>(b));
    let none = Seq::<u8>::empty();
    if commitment_digest_input::<P>(a) == commitment_digest_input::<P>(b) {
        lemma_concat_split(
            COMMITMENT_DIGEST_DOMAIN@,
            prefixed(ca),
            COMMITMENT_DIGEST_DOMAIN@,
            prefixed(cb),
        );
        assert(prefixed(ca) + none =~= prefixed(ca));
        assert(prefixed(cb) + none =~= prefixed(cb));
        lemma_prefixed_split(ca, none, cb, none);
        law_commitment_bytes_injective::<P>(a, b);
    }
}

/// Evidence of a bad sub-share is upheld against the agreed commitment alone: where it
/// names a dealer and a digest of the agreed set, every canonical scalar but the honest
/// one is upheld; the honest one never is, nor is evidence about a dealer outside the
/// set, for no player, or with another commitment's digest.
pub proof fn law_evidence_upheld_against_agreed<P: OsstPoint>(
    e: BadSubShareEvidence,
    agreed: AgreedRound1<P>,
    k: int,
    verdict: ComplaintVerdict,
)
    requires
        agreed.wf(),
        call_ensures(BadSubShareEvidence::adjudicate::<P>, (&e, &agreed), verdict),
    ensures
        0 <= k < agreed@.commitments.len() && agreed@.commitments[k].dealer == e.dealer_index ==> (
        verdict == ComplaintVerdict::Upheld <==> {
            &&& e.recipient_index != 0
            &&& e.agreed_digest@ == commitment_digest_value::<P>(agreed@.commitments[k])
            &&& <P::Scalar as OsstScalar>::unrepr(e.subshare@) < ord::<P>()
            &&& <P::Scalar as OsstScalar>::unrepr(e.subshare@) != poly(
                agreed@.commitments[k].polynomial,
                e.recipient_index as int,
            ) % ord::<P>()
        }),
        (forall|i: int|
            0 <= i < agreed@.commitments.len() ==> (#[trigger] agreed@.commitments[i]).dealer
                != e.dealer_index) ==> verdict == ComplaintVerdict::Unfounded,
{
    agreed.lemma_wf();
    let ds = agreed@.dealers();
    if 0 <= k < agreed@.commitments.len() && agreed@.commitments[k].dealer == e.dealer_index {
        law_agreed_commitment(agreed@, k);
    }
    if ds.contains(e.dealer_index) {
        let i = choose|i: int| 0 <= i < ds.len() && ds[i] == e.dealer_index;
        assert(agreed@.commitments[i].dealer == e.dealer_index);
    }
}

/// An agreed set has the commitment of each of its dealers under the dealer's index.
pub proof fn law_agreed_commitment(agreed: AgreedView, k: int)
    requires
        ascending(agreed.dealers()),
        0 <= k < agreed.commitments.len(),
    ensures
        agreed.dealers().contains(agreed.commitments[k].dealer),
        agreed.commitment(agreed.commitments[k].dealer) == agreed.commitments[k],
{
    let ds = agreed.dealers();
    let d = agreed.commitments[k].dealer;
    assert(ds[k] == d);
    let i = ds.index_of(d);
    assert(0 <= i < ds.len() && ds[i] == d);
    if i < k {
        assert(ds[i] < ds[k]);
    } else if k < i {
        assert(ds[k] < ds[i]);
    }
}

/// Echoes agree exactly on the same round 1: where both participants have closed it, the
/// one confirms the other's digest exactly where epoch, threshold, number of participants
/// and all commitments are the same, where the truncated SHA-512 does not collide on what
/// they hold.
pub proof fn law_echo_confirms_same_round1<P: OsstPoint>(
    a: DkgState<P>,
    b: DkgState<P>,
    mine: AgreedRound1<P>,
    theirs: AgreedRound1<P>,
    digest: EchoDigest,
    confirmed: Result<(), OsstError>,
)
    requires
        a@.wf(),
        b@.wf(),
        call_ensures(DkgState::<P>::agreed_round1, (&a,), Ok::<AgreedRound1<P>, OsstError>(mine)),
        call_ensures(DkgState::<P>::agreed_round1, (&b,), Ok::<AgreedRound1<P>, OsstError>(theirs)),
        call_ensures(AgreedRound1::<P>::digest, (&theirs,), digest),
        call_ensures(AgreedRound1::<P>::confirm, (&mine, &digest), confirmed),
        sha512_digest(round1_input(a@)).subrange(0, 32) == sha512_digest(
            round1_input(b@),
        ).subrange(0, 32) ==> round1_input(a@) == round1_input(b@),
    ensures
        confirmed is Ok <==> {
            &&& a@.epoch == b@.epoch
            &&& a@.threshold == b@.threshold
            &&& a@.participants == b@.participants
            &&& commitment_views(submitted(a@.commitments)) == commitment_views(
                submitted(b@.commitments),
            )
        },
        confirmed matches Err(e) ==> e == OsstError::EchoMismatch,
        mine@.commitments == commitment_views(submitted(a@.commitments)),
        mine@.epoch == a@.epoch,
        mine@.threshold == a@.threshold,
{
    assert forall|i: int| 0 <= i < submitted(a@.commitments).len() implies is_encodable::<P>(
        (#[trigger] submitted(a@.commitments)[i])@,
    ) by {
        assert(mine@.commitments[i] == submitted(a@.commitments)[i]@);
    }
    assert forall|i: int| 0 <= i < submitted(b@.commitments).len() implies is_encodable::<P>(
        (#[trigger] submitted(b@.commitments)[i])@,
    ) by {
        assert(theirs@.commitments[i] == submitted(b@.commitments)[i]@);
    }
    law_same_digest_same_round1(a@, b@);
}

// ---------------------------------------------------------------------------
// What the rounds take
// ---------------------------------------------------------------------------

/// A package enters round 1 exactly where it is proved, its dealer is one of the
/// participants and not disqualified, and it is to the threshold. The first of a dealer
/// fills its slot and no other; a later one changes nothing.
pub proof fn law_package_enters_once<P: OsstPoint>(v: DkgStateView<P>, package: Round1Package<P>)
    requires
        v.wf(),
    ensures
        v.submit_outcome(package) is Ok <==> {
            let c = package.commitment;
            &&& package.is_proved(v.epoch)
            &&& !v.disqualified.contains(c.dealer_index)
            &&& 1 <= c.dealer_index <= v.participants
            &&& c.coefficients@.len() as u32 == v.threshold
        },
        v.submit_outcome(package) == Ok::<bool, OsstError>(true) ==> {
            let at = package.commitment.dealer_index - 1;
            let w = v.after_submit(package);
            &&& v.commitments[at] is None
            &&& w.commitments[at] == Some(package.commitment)
            &&& w.commitments.len() == v.commitments.len()
            &&& forall|i: int|
                0 <= i < v.commitments.len() && i != at ==> (#[trigger] w.commitments[i])
                    == v.commitments[i]
            &&& w.disqualified == v.disqualified
            &&& w.epoch == v.epoch
            &&& w.threshold == v.threshold
            &&& w.participants == v.participants
        },
        v.submit_outcome(package) == Ok::<bool, OsstError>(false)
            ==> v.commitments[package.commitment.dealer_index - 1] is Some,
        v.submit_outcome(package) != Ok::<bool, OsstError>(true) ==> v.after_submit(package) == v,
        v.submit_outcome(package) is Ok ==> v.after_submit(package).submit_outcome(package) == Ok::<
            bool,
            OsstError,
        >(false),
{
}

/// Round 1 is complete exactly where every participant has committed or is disqualified.
pub proof fn law_complete_when_all_committed<P: OsstPoint>(v: DkgStateView<P>)
    requires
        v.wf(),
    ensures
        v.complete() <==> forall|d: u32|
            1 <= d <= v.participants ==> v.commitments[d - 1] is Some
                || #[trigger] v.disqualified.contains(d),
{
    let n = v.participants as int;
    let slots = v.commitments;
    let out = Set::new(|i: int| 0 <= i < n && v.disqualified.contains((i + 1) as u32));
    let all = vstd::set_lib::set_int_range(0, n);
    law_submitted_fill_slots(slots);
    vstd::set_lib::lemma_int_range(0, n);
    let ids = v.disqualified;
    assert(ids.no_duplicates()) by {
        assert forall|i: int, j: int| 0 <= i < ids.len() && 0 <= j < ids.len() && i != j implies ids[i]
            != ids[j] by {
            if i < j {
                assert(ids[i] < ids[j]);
            } else {
                assert(ids[j] < ids[i]);
            }
        }
    }
    let shifted = Seq::new(ids.len(), |i: int| ids[i] - 1);
    assert(shifted.no_duplicates());
    shifted.unique_seq_to_set();
    assert(shifted.to_set() =~= out) by {
        assert forall|i: int| #[trigger] shifted.to_set().contains(i) <==> out.contains(i) by {
            if shifted.to_set().contains(i) {
                let k = choose|k: int| 0 <= k < shifted.len() && shifted[k] == i;
                assert(1 <= ids[k] <= v.participants);
                assert(ids.contains(ids[k]));
                assert((i + 1) as u32 == ids[k]);
            }
            if out.contains(i) {
                let k = choose|k: int| 0 <= k < ids.len() && ids[k] == (i + 1) as u32;
                assert(shifted[k] == i);
                assert(shifted.contains(i));
            }
        }
    }
    let taken = filled(slots).union(out);
    assert(filled(slots).disjoint(out)) by {
        assert forall|i: int| !(filled(slots).contains(i) && out.contains(i)) by {
            if filled(slots).contains(i) {
                assert(slots[i] is Some);
            }
        }
    }
    vstd::set_lib::lemma_set_disjoint_lens(filled(slots), out);
    assert(filled(slots) + out =~= taken);
    assert(taken.subset_of(all));
    if v.complete() {
        vstd::set_lib::lemma_subset_equality(taken, all);
        assert forall|d: u32| 1 <= d <= v.participants implies v.commitments[d - 1] is Some
            || #[trigger] v.disqualified.contains(d) by {
            assert(all.contains(d - 1));
            assert(taken.contains(d - 1));
        }
    }
    if forall|d: u32|
        1 <= d <= v.participants ==> v.commitments[d - 1] is Some
            || #[trigger] v.disqualified.contains(d) {
        assert forall|i: int| all.contains(i) implies taken.contains(i) by {
            let d = (i + 1) as u32;
            assert(1 <= d <= v.participants);
            assert(v.commitments[d - 1] is Some || v.disqualified.contains(d));
        }
        assert(taken =~= all);
    }
}

/// One sub-share is accepted from a dealer, and it is its own: of a dealer of the set
/// that has not delivered, the value on its commitment at the player is added, and every
/// other value is refused in the dealer's name, with the aggregator as it was.
pub proof fn law_one_value_is_accepted<P: OsstPoint>(
    v: AggregatorView,
    c: DealerCommitment<P>,
    value: int,
)
    requires
        c.dealer_index != 0,
        v.dealers.contains(c.dealer_index),
        !v.delivered(c.dealer_index),
    ensures
        ({
            let s = SubShareView { dealer: c.dealer_index, player: v.player, value };
            let honest = poly(logs(c.coefficients@), v.player as int) % ord::<P>();
            &&& value == honest ==> add_outcome(v, s, c) == Ok::<bool, OsstError>(true)
                && after_add(v, s, c).deliveries == v.deliveries.push(
                DeliveryView {
                    dealer: c.dealer_index,
                    value,
                    polynomial: logs(c.coefficients@),
                },
            )
            &&& value != honest ==> add_outcome(v, s, c) == Err::<bool, OsstError>(
                OsstError::InvalidSubShare(c.dealer_index),
            )
            &&& value != honest ==> after_add(v, s, c) == v
        }),
{
}

/// What an aggregator does not take: a sub-share for another player, one that does not
/// come from the dealer of its commitment, and one of a dealer outside the set are
/// refused, each with its error, and a dealer that has delivered is not taken again. None
/// of them changes anything.
pub proof fn law_others_are_not_taken<P: OsstPoint>(
    v: AggregatorView,
    s: SubShareView,
    c: DealerCommitment<P>,
)
    ensures
        s.player != v.player || s.dealer != c.dealer_index || s.dealer == 0 <==> add_outcome(
            v,
            s,
            c,
        ) == Err::<bool, OsstError>(OsstError::InvalidIndex),
        add_outcome(v, s, c) matches Ok(added) ==> v.dealers.contains(s.dealer) && added
            == !v.delivered(s.dealer),
        add_outcome(v, s, c) == Err::<bool, OsstError>(OsstError::UnexpectedDealer(s.dealer))
            ==> !v.dealers.contains(s.dealer),
        add_outcome(v, s, c) != Ok::<bool, OsstError>(true) ==> after_add(v, s, c) == v,
        after_add(v, s, c).player == v.player,
        after_add(v, s, c).dealers == v.dealers,
{
}

// ---------------------------------------------------------------------------
// From call to call
// ---------------------------------------------------------------------------

/// What a dealer deals verifies, and nothing else does: the check of its commitment accepts
/// of all scalars, at a player, exactly the one that the dealer dealt to the player.
pub proof fn law_dealt_value_verifies<P: OsstPoint>(
    dealer: Dealer<P>,
    player: u32,
    dealt_share: Result<SubShare<P::Scalar>, OsstError>,
    commitment: &DealerCommitment<P>,
    candidate: P::Scalar,
    accepted: bool,
)
    requires
        dealer.wf(),
        call_ensures(Dealer::<P>::generate_subshare, (&dealer, player), dealt_share),
        call_ensures(Dealer::<P>::commitment, (&dealer,), commitment),
        call_ensures(
            DealerCommitment::<P>::verify_subshare,
            (commitment, player, &candidate),
            accepted,
        ),
    ensures
        dealt_share is Ok <==> player != 0,
        player == 0 ==> !accepted,
        dealt_share matches Ok(s) ==> s@.dealer == dealer@.index && s@.player == player && (accepted
            <==> candidate.val() == s@.value) && s@.value == poly(
            dealer@.polynomial,
            player as int,
        ) % ord::<P>(),
{
}

/// A sub-share is taken exactly where it is for the player, from the dealer of its
/// commitment, a dealer of the set that has not delivered, and the value on the commitment;
/// it is then the last delivery, and otherwise nothing changes.
pub proof fn law_subshare_taken<P: OsstPoint>(
    aggregator: &mut Aggregator<P>,
    subshare: SubShare<P::Scalar>,
    commitment: DealerCommitment<P>,
    r: Result<bool, OsstError>,
)
    requires
        call_ensures(Aggregator::<P>::add_subshare, (aggregator, subshare, &commitment), r),
    ensures
        r == Ok::<bool, OsstError>(true) <==> {
            &&& subshare@.player == old(aggregator)@.player
            &&& subshare@.dealer == commitment.dealer_index
            &&& subshare@.dealer != 0
            &&& old(aggregator)@.dealers.contains(subshare@.dealer)
            &&& !old(aggregator)@.delivered(subshare@.dealer)
            &&& subshare@.value == poly(
                logs(commitment.coefficients@),
                old(aggregator)@.player as int,
            ) % ord::<P>()
        },
        r == Ok::<bool, OsstError>(true) ==> final(aggregator)@.deliveries == old(
            aggregator,
        )@.deliveries.push(
            DeliveryView {
                dealer: subshare@.dealer,
                value: subshare@.value,
                polynomial: logs(commitment.coefficients@),
            },
        ),
        r != Ok::<bool, OsstError>(true) ==> final(aggregator)@ == old(aggregator)@,
        final(aggregator)@.player == old(aggregator)@.player,
        final(aggregator)@.dealers == old(aggregator)@.dealers,
        r == Ok::<bool, OsstError>(false) ==> old(aggregator)@.delivered(subshare@.dealer),
        r matches Err(OsstError::InvalidSubShare(d)) ==> d == subshare@.dealer,
        r matches Err(OsstError::UnexpectedDealer(d)) ==> d == subshare@.dealer && !old(
            aggregator,
        )@.dealers.contains(d),
{
}

/// Missing dealers are those of the set that have not delivered, all of them, and none is
/// missing exactly where the aggregator is complete.
pub proof fn law_missing_dealers<P: OsstPoint>(
    aggregator: Aggregator<P>,
    missing: Vec<u32>,
    complete: bool,
)
    requires
        aggregator.wf(),
        call_ensures(Aggregator::<P>::missing_dealers, (&aggregator,), missing),
        call_ensures(Aggregator::<P>::is_complete, (&aggregator,), complete),
    ensures
        forall|d: u32| #[trigger]
            missing@.contains(d) <==> aggregator@.dealers.contains(d) && !aggregator@.delivered(d),
        complete <==> missing@.len() == 0,
{
    let keep = |d: u32| !aggregator@.delivered(d);
    let ds = aggregator@.dealers;
    aggregator.lemma_wf();
    assert forall|d: u32| #[trigger] missing@.contains(d) <==> ds.contains(d)
        && !aggregator@.delivered(d) by {
        broadcast use vstd::seq_lib::group_filter_ensures;

        if missing@.contains(d) {
            ds.lemma_filter_contains_rev(keep, d);
            let i = choose|i: int| 0 <= i < missing@.len() && missing@[i] == d;
            assert(keep(missing@[i]));
        }
        if ds.contains(d) && keep(d) {
            assert(ds.filter(keep).contains(d));
        }
    }
    reshare::law_complete_when_all_delivered(aggregator@, ord::<P>());
    if missing@.len() == 0 {
        assert forall|d: u32| #[trigger] ds.contains(d) implies aggregator@.delivered(d) by {
            assert(!missing@.contains(d));
        }
    } else {
        assert(missing@.contains(missing@[0]));
        assert(ds.contains(missing@[0]));
    }
}

/// Key generation, from the players' results: where players have completed it over one
/// dealer set and the same commitments, all derive one group key, and the final shares of
/// any of them, at least as many as the threshold, give its discrete logarithm with their
/// Lagrange coefficients.
pub proof fn law_results_share_group_secret<P: OsstPoint>(
    aggregators: Seq<Aggregator<P>>,
    shares: Seq<P::Scalar>,
    keys: Seq<P>,
    t: nat,
)
    requires
        is_field(ord::<P>()),
        0 < t <= aggregators.len(),
        shares.len() == aggregators.len(),
        keys.len() == aggregators.len(),
        forall|i: int|
            #![trigger aggregators[i]]
            0 <= i < aggregators.len() ==> {
                &&& aggregators[i].wf()
                &&& call_ensures(
                    Aggregator::<P>::finalize,
                    (&aggregators[i],),
                    Ok::<P::Scalar, OsstError>(shares[i]),
                )
                &&& call_ensures(
                    Aggregator::<P>::derive_group_key,
                    (&aggregators[i],),
                    Ok::<P, OsstError>(keys[i]),
                )
                &&& aggregators[i]@.dealers == aggregators[0]@.dealers
                &&& same_commitments(aggregators[0]@, aggregators[i]@)
            },
        forall|i: int, j: int|
            0 <= i < aggregators.len() && 0 <= j < aggregators.len() && i != j ==> (
            #[trigger] aggregators[i])@.player != (#[trigger] aggregators[j])@.player,
        forall|i: int|
            0 <= i < aggregators[0]@.deliveries.len() ==> (
            #[trigger] aggregators[0]@.deliveries[i]).polynomial.len() == t,
    ensures
        forall|i: int|
            0 <= i < keys.len() ==> dot(
                coefficients(
                    Seq::new(aggregators.len(), |i: int| aggregators[i]@.player),
                    ord::<P>(),
                ),
                vals(shares),
            ) % ord::<P>() == (#[trigger] keys[i]).log(),
{
    let n = ord::<P>();
    let vs = Seq::new(aggregators.len(), |i: int| aggregators[i]@);
    <P::Scalar as OsstScalar>::lemma_order();
    assert forall|i: int| 0 <= i < vs.len() implies {
        &&& (#[trigger] vs[i]).verified(n)
        &&& vs[i].complete()
        &&& vs[i].dealers == vs[0].dealers
        &&& same_commitments(vs[0], vs[i])
        &&& shares[i].val() == final_share(vs[i], n)
        &&& keys[i].log() == group_key(vs[i], n)
    } by {
        let a = aggregators[i];
        a.lemma_wf();
        assert(call_ensures(
            Aggregator::<P>::finalize,
            (&a,),
            Ok::<P::Scalar, OsstError>(shares[i]),
        ));
        assert(call_ensures(
            Aggregator::<P>::derive_group_key,
            (&a,),
            Ok::<P, OsstError>(keys[i]),
        ));
    }
    let players = players_of(vs);
    assert forall|i: int, j: int| 0 <= i < players.len() && 0 <= j < players.len() && i
        != j implies players[i] != players[j] by {
        assert(aggregators[i]@.player != aggregators[j]@.player);
    }
    assert forall|i: int| 0 <= i < vs[0].deliveries.len() implies (
    #[trigger] vs[0].deliveries[i]).polynomial.len() == t by {
        assert(aggregators[0]@.deliveries[i].polynomial.len() == t);
    }
    law_players_reconstruct_group_secret(vs, t, n);
    assert(players =~= Seq::new(aggregators.len(), |i: int| aggregators[i]@.player));
    assert(final_shares(vs, n) =~= vals(shares)) by {
        assert forall|i: int| 0 <= i < shares.len() implies final_shares(vs, n)[i] == vals(
            shares,
        )[i] by {
            assert(vs[i].complete());
        }
    }
    assert forall|i: int| 0 <= i < keys.len() implies dot(
        coefficients(Seq::new(aggregators.len(), |i: int| aggregators[i]@.player), n),
        vals(shares),
    ) % n == (#[trigger] keys[i]).log() by {
        assert(keys[i].log() == group_key(vs[i], n));
    }
}

/// The round state and a player agree, from call to call: over the same commitments the
/// state's group key is the player's, and the state's verifying share for the player is the
/// public share of the player's final share.
pub proof fn law_state_and_player_agree<P: OsstPoint>(
    state: DkgState<P>,
    aggregator: Aggregator<P>,
    state_key: P,
    player_key: P,
    verifying_share: P,
    share: P::Scalar,
)
    requires
        state@.wf(),
        aggregator.wf(),
        is_over(aggregator@, state@),
        call_ensures(DkgState::<P>::derive_group_key, (&state,), Ok::<P, OsstError>(state_key)),
        call_ensures(
            Aggregator::<P>::derive_group_key,
            (&aggregator,),
            Ok::<P, OsstError>(player_key),
        ),
        call_ensures(
            DkgState::<P>::derive_verification_share,
            (&state, aggregator@.player),
            Ok::<P, OsstError>(verifying_share),
        ),
        call_ensures(Aggregator::<P>::finalize, (&aggregator,), Ok::<P::Scalar, OsstError>(share)),
    ensures
        state_key.log() == player_key.log(),
        verifying_share.log() == share.val(),
{
    aggregator.lemma_wf();
    law_state_matches_aggregator(aggregator@, state@);
}

/// Every participant has its verifying share, and nobody else: the shares of all are those
/// that are derived one by one.
pub proof fn law_all_verification_shares<P: OsstPoint>(
    state: DkgState<P>,
    all: Result<BTreeMap<u32, P>, OsstError>,
    j: u32,
    one: Result<P, OsstError>,
)
    requires
        state@.wf(),
        call_ensures(DkgState::<P>::derive_all_verification_shares, (&state,), all),
        call_ensures(DkgState::<P>::derive_verification_share, (&state, j), one),
    ensures
        all is Ok <==> state@.complete(),
        all matches Ok(m) ==> (m@.contains_key(j) <==> 1 <= j <= state@.participants),
        all matches Ok(m) ==> (m@.contains_key(j) ==> (one matches Ok(p) && p.log()
            == m@[j].log())),
{
}

/// A package that is submitted enters exactly where it is proved in the epoch, its dealer is
/// a participant that is not disqualified, and it is to the threshold; then the dealer's
/// slot is filled, with the commitment of the first such package, and nothing else changes.
pub proof fn law_submitted_package_enters<P: OsstPoint>(
    state: &mut DkgState<P>,
    package: Round1Package<P>,
    r: Result<bool, OsstError>,
)
    requires
        old(state)@.wf(),
        call_ensures(DkgState::<P>::submit_commitment, (state, package), r),
    ensures
        r is Ok <==> {
            let c = package.commitment;
            &&& is_valid_pok::<P>(
                c.dealer_index,
                old(state)@.epoch,
                c.polynomial()[0],
                package.proof_of_knowledge.r.log(),
                package.proof_of_knowledge.z.val(),
            )
            &&& !old(state)@.disqualified.contains(c.dealer_index)
            &&& 1 <= c.dealer_index <= old(state)@.participants
            &&& c.coefficients@.len() as u32 == old(state)@.threshold
        },
        r matches Ok(new) ==> new == (old(state)@.commitments[package.commitment.dealer_index - 1]
            is None),
        r == Ok::<bool, OsstError>(true) ==> final(state)@.commitments == old(
            state,
        )@.commitments.update(package.commitment.dealer_index - 1, Some(package.commitment)),
        r != Ok::<bool, OsstError>(true) ==> final(state)@.commitments == old(state)@.commitments,
        final(state)@.disqualified == old(state)@.disqualified,
        final(state)@.epoch == old(state)@.epoch,
        final(state)@.threshold == old(state)@.threshold,
        final(state)@.participants == old(state)@.participants,
{
    law_package_enters_once(old(state)@, package);
}

/// A disqualified dealer is out: its slot is empty, it is among the disqualified with those
/// that were, and no other slot changes. The ceremony goes on exactly where as many
/// participants as the threshold are left.
pub proof fn law_disqualified_dealer_is_out<P: OsstPoint>(
    state: &mut DkgState<P>,
    dealer: u32,
    r: Result<(), OsstError>,
)
    requires
        old(state)@.wf(),
        call_ensures(DkgState::<P>::disqualify, (state, dealer), r),
    ensures
        !(1 <= dealer <= old(state)@.participants) ==> final(state)@ == old(state)@ && r == Err::<
            (),
            OsstError,
        >(OsstError::InvalidIndex),
        1 <= dealer <= old(state)@.participants ==> {
            &&& final(state)@.commitments.len() == old(state)@.commitments.len()
            &&& final(state)@.commitments[dealer - 1] is None
            &&& forall|i: int|
                0 <= i < old(state)@.commitments.len() && i != dealer - 1 ==> (
                #[trigger] final(state)@.commitments[i]) == old(state)@.commitments[i]
            &&& forall|d: u32| #[trigger]
                final(state)@.disqualified.contains(d) <==> d == dealer || old(
                    state,
                )@.disqualified.contains(d)
            &&& r is Ok <==> final(state)@.participants - final(state)@.disqualified.len()
                >= final(state)@.threshold
            &&& final(state)@.threshold == old(state)@.threshold
            &&& final(state)@.participants == old(state)@.participants
            &&& final(state)@.epoch == old(state)@.epoch
        },
{
}

/// All peers are heard: what all confirm each confirms, and every one of them and enough of
/// them are needed.
pub proof fn law_all_peers_confirm<P: OsstPoint>(
    agreed: AgreedRound1<P>,
    peers: &[EchoDigest],
    expected: usize,
    all: Result<(), OsstError>,
    one: Seq<Result<(), OsstError>>,
)
    requires
        call_ensures(AgreedRound1::<P>::confirm_all, (&agreed, peers, expected), all),
        one.len() == peers@.len(),
        forall|i: int|
            0 <= i < peers@.len() ==> call_ensures(
                AgreedRound1::<P>::confirm,
                (&agreed, &peers@[i]),
                #[trigger] one[i],
            ),
    ensures
        all is Ok <==> peers@.len() >= expected && forall|i: int|
            0 <= i < peers@.len() ==> (#[trigger] one[i]) is Ok,
{
    assert forall|i: int| 0 <= i < peers@.len() implies ((#[trigger] one[i]) is Ok
        <==> peers@[i].0@ == agreed@.digest) by {
        let r = one[i];
        assert(call_ensures(AgreedRound1::<P>::confirm, (&agreed, &peers@[i]), r));
    }
    if all is Ok {
        assert forall|i: int| 0 <= i < peers@.len() implies (#[trigger] one[i]) is Ok by {
            assert(peers@[i].0@ == agreed@.digest);
        }
    }
    if peers@.len() >= expected && forall|i: int| 0 <= i < peers@.len() ==> (#[trigger] one[i])
        is Ok {
        assert forall|i: int| 0 <= i < peers@.len() implies (#[trigger] peers@[i]).0@
            == agreed@.digest by {
            assert(one[i] is Ok);
        }
    }
}

/// A raised complaint is heard: what an accuser signs verifies under its public key, in its
/// own ceremony, and is judged by its evidence.
pub proof fn law_raised_complaint_is_heard<P: OsstPoint>(
    epoch: u64,
    session_id: [u8; 32],
    round: u8,
    accuser: u32,
    evidence: ComplaintEvidence<P>,
    secret: P::Scalar,
    nonce: P::Scalar,
    complaint: Complaint<P>,
    key: P,
    heard: Result<ComplaintVerdict, OsstError>,
)
    requires
        call_ensures(
            Complaint::<P>::sign_with_nonce,
            (epoch, session_id, round, accuser, evidence, &secret, &nonce),
            Ok::<Complaint<P>, OsstError>(complaint),
        ),
        key.log() == secret.val(),
        accused(evidence) != 0,
        call_ensures(Complaint::<P>::verify, (&complaint, epoch, &session_id, &key), heard),
    ensures
        heard matches Ok(v) && v == complaint.verdict(),
        complaint.epoch == epoch,
        complaint.session_id@ == session_id@,
        complaint.round == round,
        complaint.accuser_index == accuser,
        complaint.evidence == evidence,
{
}

/// A dealer is named by enough accusers: the tally is reached exactly where as many distinct
/// accusers as it takes have an upheld complaint against the dealer.
pub proof fn law_tally_reached(
    tally: ComplaintTally,
    accused: u32,
    named_by: Set<u32>,
    reached: bool,
)
    requires
        tally.wf(),
        forall|a: u32| #[trigger]
            named_by.contains(a) <==> tally.complaints().contains((a, accused)),
        call_ensures(ComplaintTally::reached, (&tally, accused), reached),
    ensures
        named_by.finite(),
        reached <==> named_by.len() >= tally.need(),
{
    let s = accusers(tally.complaints(), accused);
    lemma_accusers(tally.complaints(), accused);
    s.unique_seq_to_set();
    assert(s.to_set() =~= named_by) by {
        assert forall|a: u32| #[trigger] s.to_set().contains(a) <==> named_by.contains(a) by {
            assert(s.contains(a) <==> tally.complaints().contains((a, accused)));
        }
    }
}

/// A recorded complaint counts once: an upheld one is counted with those that were, once for
/// an accuser and an accused, and an unfounded one is not.
pub proof fn law_complaint_counts_once(
    tally: &mut ComplaintTally,
    accuser: u32,
    accused: u32,
    verdict: ComplaintVerdict,
    r: Result<(), OsstError>,
)
    requires
        old(tally).wf(),
        call_ensures(ComplaintTally::record, (tally, accuser, accused, verdict), r),
    ensures
        r is Ok <==> accuser != 0 && accused != 0,
        final(tally).need() == old(tally).need(),
        forall|p: (u32, u32)| #[trigger]
            final(tally).complaints().contains(p) <==> old(tally).complaints().contains(p) || (p
                == (accuser, accused) && r is Ok && verdict == ComplaintVerdict::Upheld),
        final(tally).complaints().no_duplicates(),
{
    let (a, b) = (old(tally).complaints(), final(tally).complaints());
    let pair = (accuser, accused);
    assert forall|p: (u32, u32)| #[trigger] b.contains(p) <==> a.contains(p) || (p == pair && r
        is Ok && verdict == ComplaintVerdict::Upheld) by {
        if b != a {
            assert(b == a.push(pair));
            assert(b[a.len() as int] == pair);
            if a.contains(p) {
                let i = choose|i: int| 0 <= i < a.len() && a[i] == p;
                assert(b[i] == p);
            }
            if b.contains(p) {
                let i = choose|i: int| 0 <= i < b.len() && b[i] == p;
                if i < a.len() {
                    assert(a[i] == p);
                }
            }
        }
    }
}

/// An aggregator is over the dealers that it was made for: exactly the listed ones, all from
/// one to a number, or those of an agreed set, with nothing delivered.
pub proof fn law_aggregator_over_its_dealers<P: OsstPoint>(
    player: u32,
    dealer_set: &[u32],
    listed: Result<Aggregator<P>, OsstError>,
    n: u32,
    all: Result<Aggregator<P>, OsstError>,
    agreed: AgreedRound1<P>,
    from_agreed: Result<Aggregator<P>, OsstError>,
)
    requires
        agreed.wf(),
        call_ensures(Aggregator::<P>::new, (player, dealer_set), listed),
        call_ensures(Aggregator::<P>::all_dealers, (player, n), all),
        call_ensures(Aggregator::<P>::from_agreed, (player, &agreed), from_agreed),
    ensures
        listed matches Ok(a) ==> a@.player == player && a@.deliveries.len() == 0 && forall|d: u32|
            a@.dealers.contains(d) <==> #[trigger] dealer_set@.contains(d),
        all matches Ok(a) ==> a@.player == player && a@.deliveries.len() == 0 && forall|d: u32|
            #[trigger] a@.dealers.contains(d) <==> 1 <= d <= n,
        from_agreed matches Ok(a) ==> a@.player == player && a@.deliveries.len() == 0 && forall|
            d: u32,
        |
            a@.dealers.contains(d) <==> #[trigger] agreed@.dealers().contains(d),
        all is Ok <==> player != 0 && n != 0,
        player == 0 ==> listed == Err::<Aggregator<P>, OsstError>(OsstError::InvalidIndex),
        from_agreed is Ok <==> player != 0 && agreed@.commitments.len() > 0
            && !agreed@.dealers().contains(0),
        listed is Ok <==> player != 0 && dealer_set@.len() > 0 && dealer_set@.no_duplicates()
            && !dealer_set@.contains(0),
{
    agreed.lemma_wf();
    let ds = agreed@.dealers();
    assert(ds.no_duplicates()) by {
        assert forall|i: int, j: int| 0 <= i < ds.len() && 0 <= j < ds.len() && i != j implies ds[i]
            != ds[j] by {
            if i < j {
                assert(ds[i] < ds[j]);
            } else {
                assert(ds[j] < ds[i]);
            }
        }
    }
}

/// The qualified dealers are those that have committed, each in its own slot, ascending.
pub proof fn law_qualified_have_committed<P: OsstPoint>(
    state: DkgState<P>,
    qualified: Vec<u32>,
    count: usize,
)
    requires
        state@.wf(),
        call_ensures(DkgState::<P>::qualified_dealers, (&state,), qualified),
        call_ensures(DkgState::<P>::commitment_count, (&state,), count),
    ensures
        ascending(qualified@),
        count == qualified@.len(),
        count == filled(state@.commitments).len(),
        forall|d: u32| #[trigger]
            qualified@.contains(d) <==> 1 <= d <= state@.participants && state@.commitments[d - 1]
                is Some,
{
    let slots = state@.commitments;
    let s = submitted(slots);
    lemma_slots(state@);
    law_submitted_fill_slots(slots);
    reshare::lemma_submitted(slots, state@.threshold);
    assert forall|d: u32| #[trigger] qualified@.contains(d) <==> 1 <= d <= state@.participants
        && slots[d - 1] is Some by {
        if qualified@.contains(d) {
            let k = choose|k: int| 0 <= k < qualified@.len() && qualified@[k] == d;
            assert(slots[s[k].dealer_index - 1] == Some(s[k]));
        }
        if 1 <= d <= state@.participants && slots[d - 1] is Some {
            let c = slots[d - 1]->0;
            assert(c.dealer_index == d);
            assert(s.contains(c));
            let k = choose|k: int| 0 <= k < s.len() && s[k] == c;
            assert(qualified@[k] == d);
        }
    }
}

/// Until round 1 is complete nothing is derived: every derivation is refused with the number
/// of dealers that have committed and of those that are still in the ceremony.
pub proof fn law_incomplete_round_is_refused<P: OsstPoint>(
    state: DkgState<P>,
    player: u32,
    key: Result<P, OsstError>,
    share: Result<P, OsstError>,
    agreed: Result<AgreedRound1<P>, OsstError>,
)
    requires
        state@.wf(),
        player != 0,
        call_ensures(DkgState::<P>::derive_group_key, (&state,), key),
        call_ensures(DkgState::<P>::derive_verification_share, (&state, player), share),
        call_ensures(DkgState::<P>::agreed_round1, (&state,), agreed),
    ensures
        ({
            let complete = forall|d: u32|
                1 <= d <= state@.participants ==> state@.commitments[d - 1] is Some
                    || #[trigger] state@.disqualified.contains(d);
            let e = OsstError::InsufficientContributions {
                got: filled(state@.commitments).len() as usize,
                need: (state@.participants - state@.disqualified.len()) as usize,
            };
            &&& key is Ok <==> complete
            &&& share is Ok <==> complete
            &&& agreed is Ok <==> complete
            &&& !complete ==> key == Err::<P, OsstError>(e) && share == Err::<P, OsstError>(e)
            &&& agreed matches Err(f) ==> f == e
        }),
{
    law_complete_when_all_committed(state@);
    law_submitted_fill_slots(state@.commitments);
}

/// A proof that was made verifies, for its dealer, its epoch and its constant term, and so
/// does the package that a dealer publishes.
pub proof fn law_made_proof_verifies<P: OsstPoint>(
    dealer_index: u32,
    epoch: u64,
    constant: P::Scalar,
    nonce: P::Scalar,
    made: ProofOfKnowledge<P>,
    commitment: P,
    verified: bool,
    dealer: Dealer<P>,
    rng: &mut OsRng,
    package: Round1Package<P>,
    accepted: Result<(), OsstError>,
)
    requires
        call_ensures(
            ProofOfKnowledge::<P>::prove_with_nonce,
            (dealer_index, epoch, &constant, &nonce),
            made,
        ),
        commitment.log() == constant.val(),
        call_ensures(
            ProofOfKnowledge::<P>::verify,
            (&made, dealer_index, epoch, &commitment),
            verified,
        ),
        dealer.wf(),
        call_ensures(Dealer::<P>::round1_package, (&dealer, epoch, rng), package),
        call_ensures(Round1Package::<P>::verify, (&package, epoch), accepted),
    ensures
        verified,
        accepted is Ok,
        package.commitment.dealer_index == dealer@.index,
        package.commitment.polynomial() == dealer@.polynomial,
{
}

/// A dealer deals to each what it deals to one: the sub-shares of all players are those that
/// are generated one by one, in order.
pub proof fn law_dealt_to_all<P: OsstPoint>(
    dealer: Dealer<P>,
    n: u32,
    all: Vec<SubShare<P::Scalar>>,
    i: int,
    one: Result<SubShare<P::Scalar>, OsstError>,
)
    requires
        dealer.wf(),
        call_ensures(
            Dealer::<P>::generate_subshares,
            (&dealer, n),
            Ok::<Vec<SubShare<P::Scalar>>, OsstError>(all),
        ),
        0 <= i < n,
        call_ensures(Dealer::<P>::generate_subshare, (&dealer, (i + 1) as u32), one),
    ensures
        all@.len() == n,
        one matches Ok(s) && s@ == all@[i]@,
{
}

/// An agreed set gives each dealer's commitment for the dealer, and nothing for others.
pub proof fn law_agreed_lookup<P: OsstPoint>(
    agreed: AgreedRound1<P>,
    dealer: u32,
    k: int,
    r: Result<&DealerCommitment<P>, OsstError>,
)
    requires
        agreed.wf(),
        call_ensures(AgreedRound1::<P>::commitment, (&agreed, dealer), r),
    ensures
        0 <= k < agreed@.commitments.len() && agreed@.commitments[k].dealer == dealer ==> (r
            matches Ok(c) && c@ == agreed@.commitments[k]),
        (forall|i: int|
            0 <= i < agreed@.commitments.len() ==> (#[trigger] agreed@.commitments[i]).dealer
                != dealer) ==> r == Err::<&DealerCommitment<P>, OsstError>(
            OsstError::UnexpectedDealer(dealer),
        ),
{
    agreed.lemma_wf();
    let ds = agreed@.dealers();
    if 0 <= k < agreed@.commitments.len() && agreed@.commitments[k].dealer == dealer {
        law_agreed_commitment(agreed@, k);
    }
    if ds.contains(dealer) {
        let i = choose|i: int| 0 <= i < ds.len() && ds[i] == dealer;
        assert(agreed@.commitments[i].dealer == dealer);
    }
}

/// Text of evidence gives nothing away: it is the same whatever the scalar is.
pub proof fn law_evidence_text_hides_scalar(
    a: BadSubShareEvidence,
    b: BadSubShareEvidence,
    text_a: String,
    text_b: String,
)
    requires
        a.dealer_index == b.dealer_index,
        a.recipient_index == b.recipient_index,
        call_ensures(BadSubShareEvidence::debug_text, (&a,), text_a),
        call_ensures(BadSubShareEvidence::debug_text, (&b,), text_b),
    ensures
        text_a@ == text_b@,
{
}

/// Results are owed: a player has its final share and the group key exactly where every
/// dealer of its set has delivered, and until then is told how many are missing.
pub proof fn law_results_are_owed<P: OsstPoint>(
    aggregator: Aggregator<P>,
    share: Result<P::Scalar, OsstError>,
    key: Result<P, OsstError>,
)
    requires
        aggregator.wf(),
        call_ensures(Aggregator::<P>::finalize, (&aggregator,), share),
        call_ensures(Aggregator::<P>::derive_group_key, (&aggregator,), key),
    ensures
        share is Ok <==> forall|d: u32| #[trigger]
            aggregator@.dealers.contains(d) ==> aggregator@.delivered(d),
        key is Ok <==> share is Ok,
        share matches Err(e) ==> e == (OsstError::InsufficientContributions {
            got: aggregator@.deliveries.len() as usize,
            need: aggregator@.dealers.len() as usize,
        }) && key == Err::<P, OsstError>(e),
{
    aggregator.lemma_wf();
    reshare::law_complete_when_all_delivered(aggregator@, ord::<P>());
}

/// A dealer is made of every polynomial: exactly where its index is not zero and the
/// polynomial has a coefficient, and it holds the polynomial as given.
pub proof fn law_dealer_of_polynomial<P: OsstPoint>(
    index: u32,
    polynomial: Vec<P::Scalar>,
    r: Result<Dealer<P>, OsstError>,
    threshold: u32,
    rng: &mut OsRng,
    drawn: Result<Dealer<P>, OsstError>,
    n: u32,
    all: Result<Vec<SubShare<P::Scalar>>, OsstError>,
)
    requires
        call_ensures(Dealer::<P>::from_polynomial, (index, polynomial), r),
        call_ensures(Dealer::<P>::new, (index, threshold, rng), drawn),
        r is Ok ==> call_ensures(Dealer::<P>::generate_subshares, (&r->Ok_0, n), all),
    ensures
        r is Ok <==> index != 0 && polynomial@.len() > 0,
        r matches Ok(d) ==> d@.index == index && d@.polynomial == vals(polynomial@),
        drawn is Ok <==> index != 0 && threshold != 0,
        drawn matches Ok(d) ==> d@.index == index && d@.polynomial.len() == threshold,
        r is Ok ==> all is Ok,
{
}

/// A complaint is raised by every accuser with an index, against the dealer of its evidence.
pub proof fn law_complaint_is_raised<P: OsstPoint>(
    epoch: u64,
    session_id: [u8; 32],
    round: u8,
    accuser: u32,
    evidence: ComplaintEvidence<P>,
    secret: P::Scalar,
    nonce: P::Scalar,
    r: Result<Complaint<P>, OsstError>,
)
    requires
        call_ensures(
            Complaint::<P>::sign_with_nonce,
            (epoch, session_id, round, accuser, evidence, &secret, &nonce),
            r,
        ),
    ensures
        r is Ok <==> accuser != 0,
        r matches Ok(c) ==> match evidence {
            ComplaintEvidence::ForgedProofOfKnowledge { package } => {
                c.accused_index == package.commitment.dealer_index
            },
            ComplaintEvidence::BadSubShare { commitment, .. } => {
                c.accused_index == commitment.dealer_index
            },
        },
        r matches Err(e) ==> e == OsstError::InvalidIndex,
{
}

/// Why a package does not enter: an invalid proof before all else, then a dealer that is
/// disqualified, then one that is no participant, then another threshold.
pub proof fn law_package_refusals<P: OsstPoint>(v: DkgStateView<P>, package: Round1Package<P>)
    requires
        v.wf(),
    ensures
        ({
            let c = package.commitment;
            let d = c.dealer_index;
            let r = v.submit_outcome(package);
            let proved = package.is_proved(v.epoch);
            let out = v.disqualified.contains(d);
            let known = 1 <= d <= v.participants;
            &&& !proved <==> r == Err::<bool, OsstError>(OsstError::InvalidProofOfKnowledge(d))
            &&& proved && out <==> r == Err::<bool, OsstError>(OsstError::UnexpectedDealer(d))
            &&& proved && !out && !known <==> r == Err::<bool, OsstError>(OsstError::InvalidIndex)
            &&& proved && !out && known && c.coefficients@.len() as u32 != v.threshold <==> r
                == Err::<bool, OsstError>(OsstError::InvalidCommitment)
        }),
{
}

/// The domains of the hashes, as text.
pub proof fn law_domain_texts()
    ensures
        DKG_POK_DOMAIN@ == ascii("osst/dkg-pok/v1"@),
        COMPLAINT_SIG_DOMAIN@ == ascii("osst/dkg-complaint/v1"@),
        ECHO_DIGEST_DOMAIN@ == ascii("osst/dkg-round1-echo/v1"@),
        COMMITMENT_DIGEST_DOMAIN@ == ascii("frostito/sealed/commitment/v1"@),
{
    reveal_strlit("osst/dkg-pok/v1");
    reveal_strlit("osst/dkg-complaint/v1");
    reveal_strlit("osst/dkg-round1-echo/v1");
    reveal_strlit("frostito/sealed/commitment/v1");
    assert(DKG_POK_DOMAIN@ =~= ascii("osst/dkg-pok/v1"@));
    assert(COMPLAINT_SIG_DOMAIN@ =~= ascii("osst/dkg-complaint/v1"@));
    assert(ECHO_DIGEST_DOMAIN@ =~= ascii("osst/dkg-round1-echo/v1"@));
    assert(COMMITMENT_DIGEST_DOMAIN@ =~= ascii("frostito/sealed/commitment/v1"@));
}

/// The text of a digest names it: digests have one text exactly where they are one digest.
pub proof fn law_digest_text_names_it(a: EchoDigest, b: EchoDigest, text_a: String, text_b: String)
    requires
        call_ensures(EchoDigest::to_hex, (&a,), text_a),
        call_ensures(EchoDigest::to_hex, (&b,), text_b),
    ensures
        text_a@ == text_b@ <==> a.0@ == b.0@,
        text_a@.len() == 64,
{
    crate::hex::law_hex_text_injective(a.0@, b.0@);
}

/// A ceremony begins with nothing: an empty slot for each participant, nobody disqualified,
/// and nobody accused.
pub proof fn law_ceremony_begins_empty<P: OsstPoint>(
    epoch: u64,
    threshold: u32,
    participants: u32,
    state: DkgState<P>,
    need: u32,
    tally: ComplaintTally,
)
    requires
        call_ensures(DkgState::<P>::new, (epoch, threshold, participants), state),
        call_ensures(ComplaintTally::new, (need,), tally),
    ensures
        state@.epoch == epoch,
        state@.threshold == threshold,
        state@.participants == participants,
        state@.commitments.len() == participants,
        filled(state@.commitments).len() == 0,
        state@.disqualified.len() == 0,
        tally.need() == need,
        tally.complaints().len() == 0,
{
    assert(filled(state@.commitments) =~= Set::empty());
}

} // verus!
