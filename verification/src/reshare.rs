//! Proactive resharing: moves threshold shares from one custodian set to
//! another without revealing the secret or changing the group public key.
//!
//! 1. **Dealing**: dealers create polynomials and publish commitments.
//! 2. **Distribution**: sub-shares are sent, encrypted, to players.
//! 3. **Verification**: players verify them against the commitments.
//! 4. **Aggregation**: players combine them into new shares.
use rand_core::OsRng;
use vstd::arithmetic::div_mod::lemma_small_mod;
use vstd::prelude::*;

use crate::bytes::{
    copy_vec, get_array32, get_u32, le_bytes, le_value, lemma_byte_bounds, lemma_concat_split,
    lemma_le_bytes, lemma_le_bytes_injective, lemma_le_value, put_slice, put_u32, slice_to_vec,
};
use crate::curve::{
    decode_scalar, has_encoding, logs, ord, vals, OsstPoint, OsstScalar,
};
use crate::error::OsstError;
use crate::lagrange::{coefficients, compute_lagrange_coefficients, lemma_reconstruct};
use crate::math::{
    combine, dot, eqm, evaluations, is_field, lemma_cancel, lemma_combine, lemma_combine_push,
    lemma_dot_eqm, lemma_dot_push, lemma_dot_update, lemma_eqm_add, lemma_eqm_mod, lemma_eqm_sub,
    lemma_mod_add, lemma_poly_eqm, lemma_poly_zero, poly, reduced,
};
use crate::sets::{
    ascending, contains_index, index_set, index_set_error, is_index_set, lemma_all_present,
    lemma_at_most,
};
use crate::shamir::{
    base_mul, commit_scalars, decode_points, eval_points, eval_scalars, get_points,
    law_points_round_trip, points_bytes, put_points,
};
use crate::text::{decimal, decimal_items, put_decimal, put_decimals, put_text};

verus! {

// ---------------------------------------------------------------------------
// Dealer commitments
// ---------------------------------------------------------------------------

/// A dealer's commitment to its polynomial.
#[derive(Debug)]
pub struct DealerCommitment<P: OsstPoint> {
    /// Dealer's index in the old custodian set (1-indexed).
    pub dealer_index: u32,
    /// The generator times each coefficient, constant term first.
    pub coefficients: Vec<P>,
}

/// What a dealer committed to.
pub ghost struct CommitmentView {
    /// The dealer.
    pub dealer: u32,
    /// Its polynomial, constant term first.
    pub polynomial: Seq<int>,
}

impl<P: OsstPoint> View for DealerCommitment<P> {
    type V = CommitmentView;

    open spec fn view(&self) -> CommitmentView {
        CommitmentView { dealer: self.dealer_index, polynomial: logs(self.coefficients@) }
    }
}

impl<P: OsstPoint> Clone for DealerCommitment<P> {
    fn clone(&self) -> (r: Self)
        ensures
            r.dealer_index == self.dealer_index,
            r.coefficients@ == self.coefficients@,
            r@ == self@,
    {
        DealerCommitment {
            dealer_index: self.dealer_index,
            coefficients: copy_vec(&self.coefficients),
        }
    }
}

/// The encoding of a commitment: the dealer's index in four bytes, then each
/// committed coefficient.
pub open spec fn commitment_bytes<P: OsstPoint>(c: CommitmentView) -> Seq<u8> {
    le_bytes(c.dealer as int, 4) + points_bytes::<P>(c.polynomial)
}

/// A commitment has an encoding of its own: its coefficients are read back from it.
pub open spec fn is_encodable<P: OsstPoint>(c: CommitmentView) -> bool {
    let b = points_bytes::<P>(c.polynomial);
    &&& b.len() == c.polynomial.len() * P::COMPRESSED_SIZE
    &&& decode_points::<P>(b, c.polynomial.len()) == Some(c.polynomial)
    &&& commitment_bytes::<P>(c).len() <= u64::MAX
}

/// Commitments with one encoding are one commitment.
pub proof fn law_commitment_bytes_injective<P: OsstPoint>(a: CommitmentView, b: CommitmentView)
    requires
        is_encodable::<P>(a),
        is_encodable::<P>(b),
        commitment_bytes::<P>(a) == commitment_bytes::<P>(b),
    ensures
        a == b,
{
    let (da, db) = (le_bytes(a.dealer as int, 4), le_bytes(b.dealer as int, 4));
    let (pa, pb) = (points_bytes::<P>(a.polynomial), points_bytes::<P>(b.polynomial));
    let size = P::COMPRESSED_SIZE as int;
    let (la, lb) = (a.polynomial.len() as int, b.polynomial.len() as int);
    lemma_byte_bounds();
    lemma_le_bytes(a.dealer as int, 4);
    lemma_le_bytes(b.dealer as int, 4);
    lemma_concat_split(da, pa, db, pb);
    lemma_le_bytes_injective(a.dealer as int, b.dealer as int, 4);
    P::lemma_size();
    assert(la == lb) by (nonlinear_arith)
        requires
            la * size == lb * size,
            size > 0,
    ;
}

/// The commitment that `bytes` encode for a polynomial of `threshold`
/// coefficients: the dealer's index and the committed values.
pub open spec fn parse_commitment<P: OsstPoint>(bytes: Seq<u8>, threshold: u32) -> Result<
    (int, Seq<int>),
    OsstError,
> {
    if bytes.len() != 4 + threshold * P::COMPRESSED_SIZE {
        Err(OsstError::InvalidCommitment)
    } else if le_value(bytes.subrange(0, 4)) == 0 {
        Err(OsstError::InvalidIndex)
    } else {
        match decode_points::<P>(bytes.subrange(4, bytes.len() as int), threshold as nat) {
            Some(ks) => Ok((le_value(bytes.subrange(0, 4)), ks)),
            None => Err(OsstError::InvalidCommitment),
        }
    }
}

impl<P: OsstPoint> DealerCommitment<P> {
    /// The committed polynomial.
    pub open spec fn polynomial(&self) -> Seq<int> {
        logs(self.coefficients@)
    }

    /// The committed polynomial's value at a player.
    pub open spec fn value_at(&self, player_index: u32) -> int {
        poly(self.polynomial(), player_index as int) % ord::<P>()
    }

    /// Creates the commitment of a polynomial.
    ///
    /// # Errors
    ///
    /// [`OsstError::InvalidIndex`] if the index is 0,
    /// [`OsstError::EmptyContributions`] if there is no coefficient.
    pub fn from_polynomial(dealer_index: u32, coefficients: &[P::Scalar]) -> (r: Result<
        Self,
        OsstError,
    >)
        ensures
            r matches Ok(c) ==> dealer_index != 0 && coefficients@.len() > 0 && c.dealer_index
                == dealer_index && c.polynomial() == vals(coefficients@),
            r matches Err(e) ==> if dealer_index == 0 {
                e == OsstError::InvalidIndex
            } else {
                coefficients@.len() == 0 && e == OsstError::EmptyContributions
            },
    {
        if dealer_index == 0 {
            return Err(OsstError::InvalidIndex);
        }
        if coefficients.len() == 0 {
            return Err(OsstError::EmptyContributions);
        }
        let committed = commit_scalars::<P>(coefficients);
        Ok(DealerCommitment { dealer_index, coefficients: committed })
    }

    /// Threshold (degree plus one) of the committed polynomial.
    pub fn threshold(&self) -> (r: u32)
        ensures
            r == self.coefficients@.len() as u32,
    {
        self.coefficients.len() as u32
    }

    /// Commitment to the dealer's share, the constant term.
    pub fn share_commitment(&self) -> (r: &P)
        requires
            self.coefficients@.len() > 0,
        ensures
            *r == self.coefficients@[0],
            r.log() == self.polynomial()[0],
    {
        &self.coefficients[0]
    }

    /// Evaluates the commitment at a player's index, in the exponent.
    ///
    /// # Errors
    ///
    /// [`OsstError::InvalidIndex`] if the index is 0.
    pub fn evaluate_at(&self, player_index: u32) -> (r: Result<P, OsstError>)
        ensures
            r is Ok <==> player_index != 0,
            r matches Ok(p) ==> p.log() == self.value_at(player_index),
            r matches Err(e) ==> e == OsstError::InvalidIndex,
    {
        if player_index == 0 {
            return Err(OsstError::InvalidIndex);
        }
        Ok(eval_points::<P>(&self.coefficients, player_index))
    }

    /// Verifies a sub-share: whether it is the committed polynomial's value at
    /// the player.
    pub fn verify_subshare(&self, player_index: u32, sub_share: &P::Scalar) -> (r: bool)
        ensures
            r == (player_index != 0 && sub_share.val() == self.value_at(player_index)),
    {
        if player_index == 0 {
            return false;
        }
        let expected = match self.evaluate_at(player_index) {
            Ok(e) => e,
            Err(_) => return false,
        };
        let actual = base_mul::<P>(sub_share);
        actual.equals(&expected)
    }

    /// Compressed byte size.
    pub fn byte_size(&self) -> (r: usize)
        requires
            4 + self.coefficients@.len() * P::COMPRESSED_SIZE <= usize::MAX,
        ensures
            r == 4 + self.coefficients@.len() * P::COMPRESSED_SIZE,
    {
        4 + self.coefficients.len() * P::COMPRESSED_SIZE
    }

    /// The encoding.
    pub open spec fn encoding(&self) -> Seq<u8> {
        commitment_bytes::<P>(self@)
    }

    /// Serializes to bytes. What is written reads back as what it was.
    pub fn to_bytes(&self) -> (r: Vec<u8>)
        ensures
            r@ == self.encoding(),
            r@.len() == 4 + self.coefficients@.len() * P::COMPRESSED_SIZE,
            is_encodable::<P>(self@),
            self.dealer_index != 0 && self.coefficients@.len() <= u32::MAX ==> parse_commitment::<
                P,
            >(r@, self.coefficients@.len() as u32) == Ok::<(int, Seq<int>), OsstError>(
                (self.dealer_index as int, self.polynomial()),
            ),
    {
        let mut buf: Vec<u8> = Vec::new();
        put_u32(&mut buf, self.dealer_index);
        put_points::<P>(&mut buf, &self.coefficients);
        proof {
            let head = le_bytes(self.dealer_index as int, 4);
            let tail = points_bytes::<P>(self.polynomial());
            lemma_byte_bounds();
            lemma_le_bytes(self.dealer_index as int, 4);
            assert(buf@ =~= head + tail);
            assert(buf@.subrange(0, 4) =~= head);
            assert(buf@.subrange(4, buf@.len() as int) =~= tail);
            assert(self@.polynomial == self.polynomial());
            assert(commitment_bytes::<P>(self@) =~= buf@);
            assert(buf.len() <= u64::MAX);
        }
        buf
    }

    /// Deserializes from bytes.
    ///
    /// # Errors
    ///
    /// [`OsstError::InvalidCommitment`] if the length is not that of
    /// `threshold` coefficients or one is no point, [`OsstError::InvalidIndex`]
    /// if the dealer's index is 0.
    pub fn from_bytes(bytes: &[u8], threshold: u32) -> (r: Result<Self, OsstError>)
        ensures
            r matches Ok(c) ==> parse_commitment::<P>(bytes@, threshold) == Ok::<
                (int, Seq<int>),
                OsstError,
            >((c.dealer_index as int, c.polynomial())),
            r matches Err(e) ==> parse_commitment::<P>(bytes@, threshold) == Err::<
                (int, Seq<int>),
                OsstError,
            >(e),
    {
        proof {
            P::lemma_size();
            assert(threshold * P::COMPRESSED_SIZE <= 0x1_0000_0000 * 64) by (nonlinear_arith)
                requires
                    P::COMPRESSED_SIZE <= 64,
                    threshold <= 0x1_0000_0000,
            ;
        }
        if bytes.len() as u64 != 4 + threshold as u64 * P::COMPRESSED_SIZE as u64 {
            return Err(OsstError::InvalidCommitment);
        }
        let dealer_index = get_u32(bytes, 0);
        if dealer_index == 0 {
            return Err(OsstError::InvalidIndex);
        }
        let body = slice_to_vec(bytes, 4, bytes.len());
        assert(threshold <= usize::MAX) by (nonlinear_arith)
            requires
                threshold * P::COMPRESSED_SIZE <= usize::MAX,
                P::COMPRESSED_SIZE >= 1,
        ;
        match get_points::<P>(&body, threshold as usize) {
            Some(coefficients) => Ok(DealerCommitment { dealer_index, coefficients }),
            None => Err(OsstError::InvalidCommitment),
        }
    }
}

// ---------------------------------------------------------------------------
// Sub-shares
// ---------------------------------------------------------------------------

/// Sub-share from a dealer to a player, to be encrypted in transit.
///
/// This struct holds secret key material: call [`zeroize`](Self::zeroize) when
/// it is no longer needed.
pub struct SubShare<S: OsstScalar> {
    /// Who dealt it.
    pub dealer_index: u32,
    /// Who it is for.
    pub player_index: u32,
    value: S,
}

/// What a sub-share holds.
pub ghost struct SubShareView {
    /// Who dealt it.
    pub dealer: u32,
    /// Who it is for.
    pub player: u32,
    /// Its value.
    pub value: int,
}

impl<S: OsstScalar> View for SubShare<S> {
    type V = SubShareView;

    closed spec fn view(&self) -> SubShareView {
        SubShareView {
            dealer: self.dealer_index,
            player: self.player_index,
            value: self.value.val(),
        }
    }
}

impl<S: OsstScalar> Clone for SubShare<S> {
    fn clone(&self) -> (r: Self)
        ensures
            r@ == self@,
    {
        SubShare {
            dealer_index: self.dealer_index,
            player_index: self.player_index,
            value: self.value,
        }
    }
}

/// The plaintext of a sub-share: dealer and player in four bytes each, then the
/// value.
pub open spec fn subshare_bytes<S: OsstScalar>(s: SubShareView) -> Seq<u8> {
    le_bytes(s.dealer as int, 4) + le_bytes(s.player as int, 4) + S::repr(s.value)
}

/// The sub-share that forty bytes of plaintext encode.
pub open spec fn parse_subshare<S: OsstScalar>(bytes: Seq<u8>) -> Result<
    SubShareView,
    OsstError,
> {
    let dealer = le_value(bytes.subrange(0, 4));
    let player = le_value(bytes.subrange(4, 8));
    if dealer == 0 || player == 0 {
        Err(OsstError::InvalidIndex)
    } else {
        match decode_scalar::<S>(bytes.subrange(8, 40)) {
            Some(value) => Ok(
                SubShareView { dealer: dealer as u32, player: player as u32, value },
            ),
            None => Err(OsstError::InvalidResponse),
        }
    }
}

/// The plaintext of a sub-share reads back as what it was.
pub proof fn lemma_subshare_bytes<S: OsstScalar>(s: SubShareView)
    requires
        0 <= s.value < S::order(),
    ensures
        subshare_bytes::<S>(s).len() == 40,
        s.dealer != 0 && s.player != 0 ==> parse_subshare::<S>(subshare_bytes::<S>(s)) == Ok::<
            SubShareView,
            OsstError,
        >(s),
{
    let want = subshare_bytes::<S>(s);
    S::lemma_repr(s.value);
    lemma_byte_bounds();
    lemma_le_bytes(s.dealer as int, 4);
    lemma_le_bytes(s.player as int, 4);
    assert(want.subrange(0, 4) =~= le_bytes(s.dealer as int, 4));
    assert(want.subrange(4, 8) =~= le_bytes(s.player as int, 4));
    assert(want.subrange(8, 40) =~= S::repr(s.value));
}

impl<S: OsstScalar> SubShare<S> {
    /// Constructs a sub-share.
    ///
    /// # Errors
    ///
    /// [`OsstError::InvalidIndex`] if either index is 0.
    pub fn new(dealer_index: u32, player_index: u32, value: S) -> (r: Result<Self, OsstError>)
        ensures
            r is Ok <==> dealer_index != 0 && player_index != 0,
            r matches Ok(s) ==> s@ == (SubShareView {
                dealer: dealer_index,
                player: player_index,
                value: value.val(),
            }),
            r matches Err(e) ==> e == OsstError::InvalidIndex,
    {
        if dealer_index == 0 || player_index == 0 {
            return Err(OsstError::InvalidIndex);
        }
        Ok(SubShare { dealer_index, player_index, value })
    }

    /// Who dealt it.
    pub fn dealer(&self) -> (r: u32)
        ensures
            r == self@.dealer,
    {
        self.dealer_index
    }

    /// Who it is for.
    pub fn player(&self) -> (r: u32)
        ensures
            r == self@.player,
    {
        self.player_index
    }

    /// The secret value (use sparingly).
    pub fn value(&self) -> (r: &S)
        ensures
            r.val() == self@.value,
    {
        &self.value
    }

    /// The plaintext: the secret scalar in the clear, for sealing. It reads back
    /// as what it was.
    pub fn encode_plaintext(&self) -> (r: [u8; 40])
        ensures
            r@ == subshare_bytes::<S>(self@),
            0 <= self@.value < S::order(),
            self@.dealer != 0 && self@.player != 0 ==> parse_subshare::<S>(r@) == Ok::<
                SubShareView,
                OsstError,
            >(self@),
    {
        let mut buf: Vec<u8> = Vec::new();
        put_u32(&mut buf, self.dealer_index);
        put_u32(&mut buf, self.player_index);
        let v = self.value.to_bytes();
        put_slice(&mut buf, &v);
        let ghost want = subshare_bytes::<S>(self@);
        proof {
            self.value.lemma_val();
            lemma_subshare_bytes::<S>(self@);
            assert(buf@ =~= want);
        }
        let mut out: [u8; 40] = [0u8; 40];
        let mut i: usize = 0;
        while i < 40
            invariant
                i <= 40,
                buf@.len() == 40,
                forall|j: int| 0 <= j < i ==> out@[j] == buf@[j],
            decreases 40 - i,
        {
            out[i] = buf[i];
            i += 1;
        }
        assert(out@ =~= buf@);
        out
    }

    /// Inverse of [`encode_plaintext`](Self::encode_plaintext).
    ///
    /// # Errors
    ///
    /// [`OsstError::InvalidIndex`] if either index is 0,
    /// [`OsstError::InvalidResponse`] if the value is not canonical.
    pub(crate) fn decode_plaintext(bytes: &[u8; 40]) -> (r: Result<Self, OsstError>)
        ensures
            r matches Ok(s) ==> parse_subshare::<S>(bytes@) == Ok::<SubShareView, OsstError>(s@),
            r matches Err(e) ==> parse_subshare::<S>(bytes@) == Err::<SubShareView, OsstError>(e),
    {
        let dealer_index = get_u32(bytes, 0);
        let player_index = get_u32(bytes, 4);
        if dealer_index == 0 || player_index == 0 {
            return Err(OsstError::InvalidIndex);
        }
        let value_bytes = get_array32(bytes, 8);
        match S::from_canonical_bytes(&value_bytes) {
            Some(value) => Ok(SubShare { dealer_index, player_index, value }),
            None => Err(OsstError::InvalidResponse),
        }
    }

    /// Text for debugging, without the value.
    pub fn debug_text(&self) -> (r: String)
        ensures
            r@ == "SubShare { dealer_index: "@ + decimal(self@.dealer as nat)
                + ", player_index: "@ + decimal(self@.player as nat)
                + ", value: \"[REDACTED]\" }"@,
    {
        let mut out = String::new();
        put_text(&mut out, "SubShare { dealer_index: ");
        put_decimal(&mut out, self.dealer_index as u64);
        put_text(&mut out, ", player_index: ");
        put_decimal(&mut out, self.player_index as u64);
        put_text(&mut out, ", value: \"[REDACTED]\" }");
        out
    }

    /// Overwrites the value with zero.
    pub fn zeroize(&mut self)
        ensures
            final(self)@ == (SubShareView { value: 0, ..old(self)@ }),
    {
        self.value.zeroize();
    }
}

// ---------------------------------------------------------------------------
// Dealer
// ---------------------------------------------------------------------------

/// A dealer of sub-shares for new custodians.
///
/// This struct holds secret key material: call [`zeroize`](Self::zeroize) when
/// it is no longer needed.
pub struct Dealer<P: OsstPoint> {
    index: u32,
    polynomial: Vec<P::Scalar>,
    commitment: DealerCommitment<P>,
}

/// What a dealer holds.
pub ghost struct DealerView {
    /// The dealer's index.
    pub index: u32,
    /// The dealer's secret polynomial, the share first.
    pub polynomial: Seq<int>,
}

/// What a dealer deals to a player: its polynomial at the player's index.
pub open spec fn dealt<P: OsstPoint>(dealer: DealerView, player: u32) -> SubShareView {
    SubShareView {
        dealer: dealer.index,
        player,
        value: poly(dealer.polynomial, player as int) % ord::<P>(),
    }
}

impl<P: OsstPoint> View for Dealer<P> {
    type V = DealerView;

    closed spec fn view(&self) -> DealerView {
        DealerView { index: self.index, polynomial: vals(self.polynomial@) }
    }
}

impl<P: OsstPoint> Dealer<P> {
    /// The commitment is to the polynomial held.
    pub closed spec fn wf(&self) -> bool {
        &&& self.index != 0
        &&& self.polynomial@.len() > 0
        &&& self.commitment.dealer_index == self.index
        &&& self.commitment.polynomial() == vals(self.polynomial@)
    }

    /// A dealer has an index and a polynomial.
    pub proof fn lemma_wf(&self)
        requires
            self.wf(),
        ensures
            self@.index != 0,
            self@.polynomial.len() > 0,
    {
    }

    /// A dealer of a given polynomial.
    ///
    /// # Errors
    ///
    /// [`OsstError::InvalidIndex`] if the index is 0,
    /// [`OsstError::ThresholdMismatch`] if there is no coefficient.
    pub fn from_polynomial(index: u32, polynomial: Vec<P::Scalar>) -> (r: Result<Self, OsstError>)
        ensures
            r matches Ok(d) ==> index != 0 && polynomial@.len() > 0 && d.wf() && d@ == (DealerView {
                index,
                polynomial: vals(polynomial@),
            }),
            r matches Err(e) ==> if index == 0 {
                e == OsstError::InvalidIndex
            } else {
                polynomial@.len() == 0 && e == (OsstError::ThresholdMismatch {
                    expected: 1,
                    got: 0,
                })
            },
    {
        if index == 0 {
            return Err(OsstError::InvalidIndex);
        }
        if polynomial.len() == 0 {
            return Err(OsstError::ThresholdMismatch { expected: 1, got: 0 });
        }
        match DealerCommitment::<P>::from_polynomial(index, &polynomial) {
            Ok(commitment) => Ok(Dealer { index, polynomial, commitment }),
            Err(e) => Err(e),
        }
    }

    /// Creates a dealer from an existing share, with a random polynomial that
    /// has the share as its constant term.
    ///
    /// # Errors
    ///
    /// [`OsstError::InvalidIndex`] if the index is 0,
    /// [`OsstError::ThresholdMismatch`] if the threshold is 0.
    pub fn new(index: u32, share: P::Scalar, new_threshold: u32, rng: &mut OsRng) -> (r: Result<
        Self,
        OsstError,
    >)
        ensures
            r matches Ok(d) ==> index != 0 && new_threshold != 0 && d.wf() && d@.index == index
                && d@.polynomial.len() == new_threshold && d@.polynomial[0] == share.val(),
            r matches Err(e) ==> if index == 0 {
                e == OsstError::InvalidIndex
            } else {
                new_threshold == 0 && e == (OsstError::ThresholdMismatch { expected: 1, got: 0 })
            },
    {
        if index == 0 {
            return Err(OsstError::InvalidIndex);
        }
        if new_threshold == 0 {
            return Err(OsstError::ThresholdMismatch { expected: 1, got: 0 });
        }
        let mut polynomial: Vec<P::Scalar> = Vec::new();
        polynomial.push(share);
        let mut i: u32 = 1;
        while i < new_threshold
            invariant
                1 <= i <= new_threshold,
                polynomial@.len() == i,
                polynomial@[0] == share,
            decreases new_threshold - i,
        {
            polynomial.push(<P::Scalar as OsstScalar>::random(rng));
            i += 1;
        }
        Self::from_polynomial(index, polynomial)
    }

    /// The dealer's index.
    pub fn index(&self) -> (r: u32)
        ensures
            r == self@.index,
    {
        self.index
    }

    /// The dealer's commitment.
    pub fn commitment(&self) -> (r: &DealerCommitment<P>)
        requires
            self.wf(),
        ensures
            r.dealer_index == self@.index,
            r.polynomial() == self@.polynomial,
    {
        &self.commitment
    }

    /// Generates the sub-share for a player: the polynomial at its index.
    ///
    /// # Errors
    ///
    /// [`OsstError::InvalidIndex`] if the index is 0.
    pub fn generate_subshare(&self, player_index: u32) -> (r: Result<
        SubShare<P::Scalar>,
        OsstError,
    >)
        requires
            self.wf(),
        ensures
            r is Ok <==> player_index != 0,
            r matches Ok(s) ==> s@ == dealt::<P>(self@, player_index),
            r matches Err(e) ==> e == OsstError::InvalidIndex,
    {
        if player_index == 0 {
            return Err(OsstError::InvalidIndex);
        }
        let result = eval_scalars::<P::Scalar>(&self.polynomial, player_index);
        SubShare::new(self.index, player_index, result)
    }

    /// Generates the sub-shares for players `1..=num_players`, in order.
    pub fn generate_subshares(&self, num_players: u32) -> (r: Vec<SubShare<P::Scalar>>)
        requires
            self.wf(),
        ensures
            r@.len() == num_players,
            forall|i: int|
                0 <= i < num_players ==> (#[trigger] r@[i])@ == dealt::<P>(self@, (i + 1) as u32),
    {
        let mut out: Vec<SubShare<P::Scalar>> = Vec::new();
        let mut i: u32 = 0;
        while i < num_players
            invariant
                i <= num_players,
                self.wf(),
                out@.len() == i,
                forall|k: int|
                    0 <= k < i ==> (#[trigger] out@[k])@ == dealt::<P>(self@, (k + 1) as u32),
            decreases num_players - i,
        {
            match self.generate_subshare(i + 1) {
                Ok(s) => out.push(s),
                Err(_) => {},
            }
            i += 1;
        }
        out
    }

    /// The constant term of the polynomial.
    pub(crate) fn constant_term(&self) -> (r: &P::Scalar)
        requires
            self@.polynomial.len() > 0,
        ensures
            r.val() == self@.polynomial[0],
    {
        &self.polynomial[0]
    }

    /// Overwrites the polynomial with zeros. The dealer cannot deal any more.
    pub fn zeroize(&mut self)
        ensures
            final(self)@ == (DealerView {
                index: old(self)@.index,
                polynomial: Seq::new(old(self)@.polynomial.len(), |i: int| 0int),
            }),
    {
        let mut i: usize = 0;
        let ghost len = self.polynomial@.len();
        let ghost index = self.index;
        while i < self.polynomial.len()
            invariant
                i <= self.polynomial@.len() == len,
                self.index == index,
                forall|k: int| 0 <= k < i ==> (#[trigger] self.polynomial@[k]).val() == 0,
            decreases len - i,
        {
            let mut s = self.polynomial[i];
            s.zeroize();
            self.polynomial.set(i, s);
            i += 1;
        }
        assert(vals(self.polynomial@) =~= Seq::new(len, |i: int| 0int));
    }
}

// ---------------------------------------------------------------------------
// The reshared polynomial
// ---------------------------------------------------------------------------

/// The reshared polynomial in the exponent: the dealers' commitments, each
/// weighted by the dealer's Lagrange coefficient over the agreed set.
///
/// At zero it is the group key and at `j` the verifying share of new player
/// `j`. Every new player derives the same one, because the dealer set is fixed
/// before aggregation, so this is the epoch's public key package.
#[derive(Debug, PartialEq)]
pub struct SharePolynomial<P: OsstPoint> {
    coefficients: Vec<P>,
}

impl<P: OsstPoint> View for SharePolynomial<P> {
    type V = Seq<int>;

    /// The coefficients.
    closed spec fn view(&self) -> Seq<int> {
        logs(self.coefficients@)
    }
}

impl<P: OsstPoint> Clone for SharePolynomial<P> {
    fn clone(&self) -> (r: Self)
        ensures
            r@ == self@,
    {
        SharePolynomial { coefficients: copy_vec(&self.coefficients) }
    }
}

/// The polynomial that `bytes` encode with `threshold` coefficients.
pub open spec fn parse_polynomial<P: OsstPoint>(bytes: Seq<u8>, threshold: u32) -> Option<
    Seq<int>,
> {
    if threshold == 0 || bytes.len() != threshold * P::COMPRESSED_SIZE {
        None
    } else {
        decode_points::<P>(bytes, threshold as nat)
    }
}

impl<P: OsstPoint> SharePolynomial<P> {
    /// Threshold (degree plus one) of the polynomial.
    pub fn threshold(&self) -> (r: u32)
        ensures
            r == self@.len() as u32,
    {
        self.coefficients.len() as u32
    }

    /// The coefficients, constant term first.
    pub fn coefficients(&self) -> (r: &[P])
        ensures
            logs(r@) == self@,
    {
        &self.coefficients
    }

    /// Group public key: the value at zero.
    pub fn group_key(&self) -> (r: &P)
        requires
            self@.len() > 0,
        ensures
            r.log() == self@[0],
    {
        &self.coefficients[0]
    }

    /// Evaluates the polynomial, in the exponent.
    ///
    /// # Errors
    ///
    /// [`OsstError::InvalidIndex`] if the index is 0.
    pub fn evaluate_at(&self, index: u32) -> (r: Result<P, OsstError>)
        ensures
            r is Ok <==> index != 0,
            r matches Ok(p) ==> p.log() == poly(self@, index as int) % ord::<P>(),
            r matches Err(e) ==> e == OsstError::InvalidIndex,
    {
        if index == 0 {
            return Err(OsstError::InvalidIndex);
        }
        Ok(eval_points::<P>(&self.coefficients, index))
    }

    /// Verifying share of a player: the polynomial at its index.
    pub fn verifying_share(&self, player_index: u32) -> (r: P)
        requires
            player_index != 0,
        ensures
            r.log() == poly(self@, player_index as int) % ord::<P>(),
    {
        eval_points::<P>(&self.coefficients, player_index)
    }

    /// Whether `share` is the player's share on this polynomial.
    pub fn verify_share(&self, player_index: u32, share: &P::Scalar) -> (r: bool)
        ensures
            r == (player_index != 0 && share.val() == poly(self@, player_index as int) % ord::<
                P,
            >()),
    {
        if player_index == 0 {
            return false;
        }
        let expected = eval_points::<P>(&self.coefficients, player_index);
        base_mul::<P>(share).equals(&expected)
    }

    /// Serializes as concatenated compressed points. What is written reads back
    /// as what it was.
    pub fn to_bytes(&self) -> (r: Vec<u8>)
        ensures
            r@ == points_bytes::<P>(self@),
            0 < self@.len() <= u32::MAX ==> parse_polynomial::<P>(r@, self@.len() as u32) == Some(
                self@,
            ),
    {
        let mut buf: Vec<u8> = Vec::new();
        put_points::<P>(&mut buf, &self.coefficients);
        assert(buf@ =~= points_bytes::<P>(self@));
        buf
    }

    /// Deserializes from bytes.
    ///
    /// # Errors
    ///
    /// [`OsstError::InvalidCommitment`] if the threshold is 0, the length is
    /// not that of as many points, or one is no point.
    pub fn from_bytes(bytes: &[u8], threshold: u32) -> (r: Result<Self, OsstError>)
        ensures
            r is Ok <==> parse_polynomial::<P>(bytes@, threshold) is Some,
            r matches Ok(p) ==> parse_polynomial::<P>(bytes@, threshold) == Some(p@),
            r matches Err(e) ==> e == OsstError::InvalidCommitment,
    {
        proof {
            P::lemma_size();
            assert(threshold * P::COMPRESSED_SIZE <= 0x1_0000_0000 * 64) by (nonlinear_arith)
                requires
                    P::COMPRESSED_SIZE <= 64,
                    threshold <= 0x1_0000_0000,
            ;
        }
        if threshold == 0 || bytes.len() as u64 != threshold as u64 * P::COMPRESSED_SIZE as u64 {
            return Err(OsstError::InvalidCommitment);
        }
        assert(threshold <= usize::MAX) by (nonlinear_arith)
            requires
                threshold * P::COMPRESSED_SIZE <= usize::MAX,
                P::COMPRESSED_SIZE >= 1,
        ;
        match get_points::<P>(bytes, threshold as usize) {
            Some(coefficients) => Ok(SharePolynomial { coefficients }),
            None => Err(OsstError::InvalidCommitment),
        }
    }
}

// ---------------------------------------------------------------------------
// Aggregator
// ---------------------------------------------------------------------------

/// A verified sub-share with its commitment.
struct Delivery<P: OsstPoint> {
    value: P::Scalar,
    commitment: DealerCommitment<P>,
}

/// Collects and combines sub-shares from a **fixed** dealer set.
///
/// The dealer set must be agreed by every new player before anyone aggregates.
/// Two players who combine sub-shares from different dealer subsets end up on
/// different polynomials with the same constant term: the group-key check
/// passes for each of them and signing later fails with nobody to blame.
///
/// Sub-shares can arrive in any order; the aggregator only refuses dealers
/// outside the set and refuses to finalize until all of it has arrived.
pub struct Aggregator<P: OsstPoint> {
    player_index: u32,
    dealer_set: Vec<u32>,
    deliveries: Vec<Delivery<P>>,
}

/// What has been received from one dealer.
pub ghost struct DeliveryView {
    /// The dealer.
    pub dealer: u32,
    /// The value of its sub-share.
    pub value: int,
    /// The polynomial it committed to.
    pub polynomial: Seq<int>,
}

/// What an aggregator holds.
pub ghost struct AggregatorView {
    /// The player it aggregates for.
    pub player: u32,
    /// The agreed dealer set, ascending.
    pub dealers: Seq<u32>,
    /// What has been received, in order of arrival.
    pub deliveries: Seq<DeliveryView>,
}

impl AggregatorView {
    /// Whether a dealer's sub-share has arrived.
    pub open spec fn delivered(self, dealer: u32) -> bool {
        exists|i: int| 0 <= i < self.deliveries.len() && self.deliveries[i].dealer == dealer
    }

    /// Where a dealer's sub-share is.
    pub open spec fn position(self, dealer: u32) -> int {
        choose|i: int| 0 <= i < self.deliveries.len() && self.deliveries[i].dealer == dealer
    }

    /// Whether every dealer of the set has delivered.
    pub open spec fn complete(self) -> bool {
        self.deliveries.len() == self.dealers.len()
    }

    /// The sub-shares, in the order of the dealer set.
    pub open spec fn values(self) -> Seq<int> {
        Seq::new(
            self.dealers.len(),
            |i: int| self.deliveries[self.position(self.dealers[i])].value,
        )
    }

    /// The committed polynomials, in the order of the dealer set.
    pub open spec fn polynomials(self) -> Seq<Seq<int>> {
        Seq::new(
            self.dealers.len(),
            |i: int| self.deliveries[self.position(self.dealers[i])].polynomial,
        )
    }

    /// The threshold that the dealers committed to.
    pub open spec fn threshold(self) -> nat {
        self.deliveries[0].polynomial.len()
    }

    /// The new share.
    pub open spec fn share(self, n: int) -> int {
        dot(coefficients(self.dealers, n), self.values()) % n
    }

    /// The reshared polynomial.
    pub open spec fn polynomial(self, n: int) -> Seq<int> {
        reduced(
            combine(coefficients(self.dealers, n), self.polynomials(), self.threshold()),
            n,
        )
    }

    /// The dealer set is a set of share indices, each dealer of it has delivered
    /// at most once and no other dealer has, and each sub-share lies on its
    /// polynomial.
    pub open spec fn verified(self, n: int) -> bool {
        &&& self.player != 0
        &&& ascending(self.dealers)
        &&& is_index_set(self.dealers)
        &&& forall|i: int|
            0 <= i < self.deliveries.len() ==> {
                let d = #[trigger] self.deliveries[i];
                &&& self.dealers.contains(d.dealer)
                &&& d.value == poly(d.polynomial, self.player as int) % n
            }
        &&& forall|i: int, j: int|
            0 <= i < j < self.deliveries.len() ==> #[trigger] self.deliveries[i].dealer
                != #[trigger] self.deliveries[j].dealer
    }

    /// What an aggregator keeps: everything it holds is verified, and all
    /// dealers have committed to one threshold.
    pub open spec fn wf(self, n: int) -> bool {
        &&& self.verified(n)
        &&& forall|i: int|
            0 <= i < self.deliveries.len() ==> {
                let d = #[trigger] self.deliveries[i];
                &&& d.polynomial.len() == self.threshold()
                &&& d.polynomial.len() <= u32::MAX
            }
    }
}

/// What comes of adding a sub-share: whether it was added, or why it was
/// refused.
pub open spec fn add_outcome<P: OsstPoint>(
    v: AggregatorView,
    s: SubShareView,
    c: DealerCommitment<P>,
) -> Result<bool, OsstError> {
    if s.player != v.player || s.dealer != c.dealer_index || s.dealer == 0 {
        Err(OsstError::InvalidIndex)
    } else if !v.dealers.contains(s.dealer) {
        Err(OsstError::UnexpectedDealer(s.dealer))
    } else if v.deliveries.len() > 0 && v.threshold() != c.coefficients@.len() {
        Err(
            OsstError::ThresholdMismatch {
                expected: v.threshold() as u32,
                got: c.coefficients@.len() as u32,
            },
        )
    } else if v.delivered(s.dealer) {
        Ok(false)
    } else if s.value != c.value_at(v.player) {
        Err(OsstError::InvalidResponse)
    } else {
        Ok(true)
    }
}

/// The aggregator after a sub-share was offered to it.
pub open spec fn after_add<P: OsstPoint>(
    v: AggregatorView,
    s: SubShareView,
    c: DealerCommitment<P>,
) -> AggregatorView {
    if add_outcome(v, s, c) == Ok::<bool, OsstError>(true) {
        AggregatorView {
            deliveries: v.deliveries.push(
                DeliveryView { dealer: s.dealer, value: s.value, polynomial: c.polynomial() },
            ),
            ..v
        }
    } else {
        v
    }
}

/// The aggregator after several sub-shares were offered to it, one after the
/// other, and how many of them were added.
pub open spec fn after_batch<P: OsstPoint>(
    v: AggregatorView,
    subshares: Seq<SubShare<P::Scalar>>,
    commitments: Seq<DealerCommitment<P>>,
    count: nat,
) -> (AggregatorView, nat)
    decreases count,
{
    if count == 0 {
        (v, 0)
    } else {
        let (w, added) = after_batch(v, subshares, commitments, (count - 1) as nat);
        let s = subshares[count - 1]@;
        let c = commitments[count - 1];
        (
            after_add(w, s, c),
            if add_outcome(w, s, c) == Ok::<bool, OsstError>(true) {
                added + 1
            } else {
                added
            },
        )
    }
}

impl<P: OsstPoint> View for Aggregator<P> {
    type V = AggregatorView;

    closed spec fn view(&self) -> AggregatorView {
        AggregatorView {
            player: self.player_index,
            dealers: self.dealer_set@,
            deliveries: Seq::new(
                self.deliveries@.len(),
                |i: int|
                    DeliveryView {
                        dealer: self.deliveries@[i].commitment.dealer_index,
                        value: self.deliveries@[i].value.val(),
                        polynomial: self.deliveries@[i].commitment.polynomial(),
                    },
            ),
        }
    }
}

impl<P: OsstPoint> Aggregator<P> {
    /// What an aggregator keeps.
    pub open spec fn wf(&self) -> bool {
        self@.wf(ord::<P>())
    }

    /// Text for debugging, without the sub-shares.
    pub fn debug_text(&self) -> (r: String)
        ensures
            r@ == "Aggregator { player_index: "@ + decimal(self@.player as nat) + ", dealer_set: "@
                + "["@ + decimal_items(self@.dealers) + "]"@ + ", count: "@ + decimal(
                self@.deliveries.len(),
            ) + " }"@,
    {
        let mut out = String::new();
        put_text(&mut out, "Aggregator { player_index: ");
        put_decimal(&mut out, self.player_index as u64);
        put_text(&mut out, ", dealer_set: ");
        put_decimals(&mut out, &self.dealer_set);
        put_text(&mut out, ", count: ");
        put_decimal(&mut out, self.deliveries.len() as u64);
        put_text(&mut out, " }");
        out
    }

    /// Creates an aggregator for `player_index` that will combine sub-shares
    /// from exactly the dealers in `dealer_set`.
    ///
    /// # Errors
    ///
    /// [`OsstError::InvalidIndex`] if the player's index is 0; otherwise what
    /// keeps `dealer_set` from being a set of share indices.
    pub fn new(player_index: u32, dealer_set: &[u32]) -> (r: Result<Self, OsstError>)
        ensures
            r is Ok <==> player_index != 0 && is_index_set(dealer_set@),
            r matches Ok(a) ==> a.wf() && a@.player == player_index && a@.deliveries.len() == 0
                && a@.dealers.to_multiset() == dealer_set@.to_multiset() && forall|d: u32|
                a@.dealers.contains(d) <==> #[trigger] dealer_set@.contains(d),
            r matches Err(e) ==> if player_index == 0 {
                e == OsstError::InvalidIndex
            } else {
                index_set_error(dealer_set@, e)
            },
    {
        if player_index == 0 {
            return Err(OsstError::InvalidIndex);
        }
        match index_set(dealer_set) {
            Ok(sorted) => Ok(
                Aggregator { player_index, dealer_set: sorted, deliveries: Vec::new() },
            ),
            Err(e) => Err(e),
        }
    }

    /// The player.
    pub fn player_index(&self) -> (r: u32)
        ensures
            r == self@.player,
    {
        self.player_index
    }

    /// The agreed dealer set, ascending.
    pub fn dealer_set(&self) -> (r: &[u32])
        ensures
            r@ == self@.dealers,
    {
        &self.dealer_set
    }

    /// Number of verified sub-shares collected.
    pub fn count(&self) -> (r: usize)
        ensures
            r == self@.deliveries.len(),
    {
        self.deliveries.len()
    }

    /// Whether a verified sub-share has arrived from every dealer of the set.
    pub fn is_complete(&self) -> (r: bool)
        ensures
            r == self@.complete(),
    {
        self.deliveries.len() == self.dealer_set.len()
    }

    /// Whether a dealer has delivered.
    fn has_delivered(&self, dealer: u32) -> (r: bool)
        ensures
            r == self@.delivered(dealer),
    {
        let mut i: usize = 0;
        while i < self.deliveries.len()
            invariant
                i <= self.deliveries@.len(),
                forall|j: int| 0 <= j < i ==> self@.deliveries[j].dealer != dealer,
            decreases self.deliveries@.len() - i,
        {
            if self.deliveries[i].commitment.dealer_index == dealer {
                assert(self@.deliveries[i as int].dealer == dealer);
                return true;
            }
            i += 1;
        }
        false
    }

    /// Dealers of the set whose sub-share has not arrived yet, ascending.
    pub fn missing_dealers(&self) -> (r: Vec<u32>)
        ensures
            r@ == self@.dealers.filter(|d: u32| !self@.delivered(d)),
    {
        let ghost keep = |d: u32| !self@.delivered(d);
        let mut out: Vec<u32> = Vec::new();
        let mut i: usize = 0;
        assert(self@.dealers.subrange(0, 0).filter(keep) =~= Seq::empty()) by {
            reveal(Seq::filter);
        }
        while i < self.dealer_set.len()
            invariant
                i <= self.dealer_set@.len(),
                keep == (|d: u32| !self@.delivered(d)),
                out@ == self@.dealers.subrange(0, i as int).filter(keep),
            decreases self.dealer_set@.len() - i,
        {
            let d = self.dealer_set[i];
            let ghost before = self@.dealers.subrange(0, i as int);
            let ghost after = self@.dealers.subrange(0, i as int + 1);
            proof {
                reveal(Seq::filter);
                assert(after.drop_last() =~= before);
                assert(after.last() == d);
            }
            if !self.has_delivered(d) {
                out.push(d);
            }
            i += 1;
        }
        assert(self@.dealers.subrange(0, i as int) =~= self@.dealers);
        out
    }

    /// Adds a sub-share after verifying it. The sub-share is consumed, and overwritten
    /// whatever comes of it.
    ///
    /// `Ok(true)` if it was added, `Ok(false)` if the dealer has delivered
    /// already.
    ///
    /// # Errors
    ///
    /// [`OsstError::InvalidIndex`] if it is not for this player or not from the
    /// dealer of the commitment, [`OsstError::UnexpectedDealer`] if the dealer
    /// is outside the set, [`OsstError::ThresholdMismatch`] if it committed to
    /// another threshold than the others, [`OsstError::InvalidResponse`] if the
    /// value is not on the committed polynomial.
    pub fn add_subshare(
        &mut self,
        subshare: SubShare<P::Scalar>,
        commitment: DealerCommitment<P>,
    ) -> (r: Result<bool, OsstError>)
        requires
            old(self).wf(),
            commitment.coefficients@.len() <= u32::MAX,
        ensures
            final(self).wf(),
            r == add_outcome(old(self)@, subshare@, commitment),
            final(self)@ == after_add(old(self)@, subshare@, commitment),
    {
        let mut subshare = subshare;
        let r = self.offer(&subshare, commitment);
        subshare.zeroize();
        r
    }

    /// Adds the value of a sub-share after verifying it.
    fn offer(&mut self, subshare: &SubShare<P::Scalar>, commitment: DealerCommitment<P>) -> (r:
        Result<bool, OsstError>)
        requires
            old(self).wf(),
            commitment.coefficients@.len() <= u32::MAX,
        ensures
            final(self).wf(),
            r == add_outcome(old(self)@, subshare@, commitment),
            final(self)@ == after_add(old(self)@, subshare@, commitment),
    {
        if subshare.player_index != self.player_index {
            return Err(OsstError::InvalidIndex);
        }
        if subshare.dealer_index != commitment.dealer_index {
            return Err(OsstError::InvalidIndex);
        }
        if subshare.dealer_index == 0 {
            return Err(OsstError::InvalidIndex);
        }
        if !contains_index(&self.dealer_set, subshare.dealer_index) {
            return Err(OsstError::UnexpectedDealer(subshare.dealer_index));
        }
        if self.deliveries.len() > 0 {
            let first = self.deliveries[0].commitment.threshold();
            proof {
                assert(self@.deliveries[0].polynomial.len() <= u32::MAX);
            }
            if first != commitment.threshold() {
                return Err(
                    OsstError::ThresholdMismatch { expected: first, got: commitment.threshold() },
                );
            }
        }
        if self.has_delivered(subshare.dealer_index) {
            return Ok(false);
        }
        if !commitment.verify_subshare(self.player_index, &subshare.value) {
            return Err(OsstError::InvalidResponse);
        }
        let ghost before = self@;
        self.deliveries.push(Delivery { value: subshare.value, commitment });
        proof {
            assert(self@.deliveries =~= before.deliveries.push(
                DeliveryView {
                    dealer: subshare@.dealer,
                    value: subshare@.value,
                    polynomial: commitment.polynomial(),
                },
            ));
            assert forall|i: int, j: int| 0 <= i < j < self@.deliveries.len() implies
                #[trigger] self@.deliveries[i].dealer != #[trigger] self@.deliveries[j].dealer by {
                assert(self@.deliveries[i] == before.deliveries[i]);
                if j < before.deliveries.len() {
                    assert(self@.deliveries[j] == before.deliveries[j]);
                }
            }
            assert forall|i: int| 0 <= i < self@.deliveries.len() implies {
                let d = #[trigger] self@.deliveries[i];
                &&& self@.dealers.contains(d.dealer)
                &&& d.polynomial.len() == self@.threshold()
                &&& d.polynomial.len() <= u32::MAX
                &&& d.value == poly(d.polynomial, self@.player as int) % ord::<P>()
            } by {
                if i < before.deliveries.len() {
                    assert(self@.deliveries[i] == before.deliveries[i]);
                    assert(self@.deliveries[0] == before.deliveries[0]);
                }
            }
        }
        Ok(true)
    }

    /// Offers several sub-shares, each with the commitment at its position, and
    /// adds the valid ones from dealers in the set. Returns how many were added. The
    /// sub-shares are consumed and overwritten.
    pub fn add_subshares_batch(
        &mut self,
        subshares: Vec<SubShare<P::Scalar>>,
        commitments: Vec<DealerCommitment<P>>,
    ) -> (r: usize)
        requires
            old(self).wf(),
            forall|i: int|
                0 <= i < commitments@.len() ==> (#[trigger] commitments@[i]).coefficients@.len()
                    <= u32::MAX,
        ensures
            final(self).wf(),
            (final(self)@, r as nat) == after_batch(
                old(self)@,
                subshares@,
                commitments@,
                if subshares@.len() <= commitments@.len() {
                    subshares@.len()
                } else {
                    commitments@.len()
                },
            ),
    {
        let ghost v = self@;
        let mut added: usize = 0;
        let mut i: usize = 0;
        while i < subshares.len() && i < commitments.len()
            invariant
                i <= subshares@.len(),
                i <= commitments@.len(),
                added <= i,
                self.wf(),
                forall|i: int|
                    0 <= i < commitments@.len() ==> (
                    #[trigger] commitments@[i]).coefficients@.len() <= u32::MAX,
                (self@, added as nat) == after_batch(v, subshares@, commitments@, i as nat),
            decreases subshares@.len() - i,
        {
            let s = &subshares[i];
            let c = commitments[i].clone();
            proof {
                let d = commitments@[i as int];
                assert(c.polynomial() =~= d.polynomial());
                assert(add_outcome(self@, s@, c) == add_outcome(self@, s@, d));
                assert(after_add(self@, s@, c) == after_add(self@, s@, d));
            }
            if let Ok(true) = self.offer(s, c) {
                added += 1;
            }
            i += 1;
        }
        let mut spent = subshares;
        while spent.len() > 0
            decreases spent@.len(),
        {
            if let Some(mut s) = spent.pop() {
                s.zeroize();
            }
        }
        added
    }

    /// Lagrange coefficients over the agreed dealer set, in its order. Fails
    /// until every dealer of the set has delivered.
    fn lagrange(&self) -> (r: Result<Vec<P::Scalar>, OsstError>)
        requires
            self.wf(),
        ensures
            r is Ok <==> self@.complete(),
            r matches Ok(l) ==> l@.len() == self@.dealers.len() && vals(l@) == coefficients(
                self@.dealers,
                ord::<P>(),
            ),
            r matches Err(e) ==> e == self.incomplete(),
    {
        if !self.is_complete() {
            return Err(
                OsstError::InsufficientContributions {
                    got: self.deliveries.len(),
                    need: self.dealer_set.len(),
                },
            );
        }
        compute_lagrange_coefficients::<P::Scalar>(&self.dealer_set)
    }

    /// The error until every dealer of the set has delivered.
    pub open spec fn incomplete(&self) -> OsstError {
        OsstError::InsufficientContributions {
            got: self@.deliveries.len() as usize,
            need: self@.dealers.len() as usize,
        }
    }

    /// Where a dealer of a complete set stands among the deliveries.
    fn find(&self, dealer: u32) -> (r: usize)
        requires
            self.wf(),
            self@.complete(),
            self@.dealers.contains(dealer),
        ensures
            r < self.deliveries@.len(),
            r == self@.position(dealer),
            self@.deliveries[r as int].dealer == dealer,
    {
        proof {
            lemma_delivered(self@, ord::<P>(), dealer);
        }
        let mut i: usize = 0;
        while i < self.deliveries.len()
            invariant
                i <= self.deliveries@.len(),
                self@.delivered(dealer),
                forall|j: int| 0 <= j < i ==> self@.deliveries[j].dealer != dealer,
                forall|i: int, j: int|
                    0 <= i < j < self@.deliveries.len() ==> #[trigger] self@.deliveries[i].dealer
                        != #[trigger] self@.deliveries[j].dealer,
            decreases self.deliveries@.len() - i,
        {
            if self.deliveries[i].commitment.dealer_index == dealer {
                assert(self@.deliveries[i as int].dealer == dealer);
                proof {
                    let p = self@.position(dealer);
                    assert(0 <= p < self@.deliveries.len() && self@.deliveries[p].dealer == dealer);
                    assert(p == i);
                }
                return i;
            }
            i += 1;
        }
        assert(false);
        0
    }

    /// Aggregates the sub-shares into the new secret share: the sum of the
    /// sub-shares, each weighted by its dealer's Lagrange coefficient.
    ///
    /// # Errors
    ///
    /// [`OsstError::InsufficientContributions`] until every dealer of the set
    /// has delivered.
    pub fn aggregate(&self) -> (r: Result<P::Scalar, OsstError>)
        requires
            self.wf(),
        ensures
            r is Ok <==> self@.complete(),
            r matches Ok(s) ==> s.val() == self@.share(ord::<P>()),
            r matches Err(e) ==> e == self.incomplete(),
    {
        let lagrange = match self.lagrange() {
            Ok(l) => l,
            Err(e) => return Err(e),
        };
        let ghost n = ord::<P>();
        let ghost l = coefficients(self@.dealers, n);
        let ghost v = self@.values();
        proof {
            <P::Scalar as OsstScalar>::lemma_order();
            lemma_small_mod(0, n as nat);
            assert(l.subrange(0, 0).len() == 0);
        }
        let mut new_share = <P::Scalar as OsstScalar>::zero();
        let mut i: usize = 0;
        while i < self.dealer_set.len()
            invariant
                i <= self.dealer_set@.len(),
                self.wf(),
                self@.complete(),
                n == ord::<P>(),
                n > 0,
                l == coefficients(self@.dealers, n),
                vals(lagrange@) == l,
                lagrange@.len() == self.dealer_set@.len(),
                v == self@.values(),
                new_share.val() == dot(l.subrange(0, i as int), v.subrange(0, i as int)) % n,
            decreases self.dealer_set@.len() - i,
        {
            assert(self@.dealers.contains(self@.dealers[i as int]));
            let at = self.find(self.dealer_set[i]);
            let term = lagrange[i].mul(&self.deliveries[at].value);
            new_share = new_share.add(&term);
            proof {
                let (l1, v1) = (l.subrange(0, i as int), v.subrange(0, i as int));
                assert(l.subrange(0, i as int + 1) =~= l1.push(l[i as int]));
                assert(v.subrange(0, i as int + 1) =~= v1.push(v[i as int]));
                lemma_dot_push(l1, v1, l[i as int], v[i as int]);
                assert(lagrange@[i as int].val() == vals(lagrange@)[i as int]);
                assert(self.deliveries@[at as int].value.val() == v[i as int]);
                lemma_mod_add(dot(l1, v1), l[i as int] * v[i as int], n);
            }
            i += 1;
        }
        assert(l.subrange(0, i as int) =~= l);
        assert(v.subrange(0, i as int) =~= v);
        Ok(new_share)
    }

    /// The reshared polynomial in the exponent. Identical for every player that
    /// uses the same dealer set.
    ///
    /// # Errors
    ///
    /// [`OsstError::InsufficientContributions`] until every dealer of the set
    /// has delivered.
    pub fn polynomial(&self) -> (r: Result<SharePolynomial<P>, OsstError>)
        requires
            self.wf(),
        ensures
            r is Ok <==> self@.complete(),
            r matches Ok(p) ==> p@ == self@.polynomial(ord::<P>()),
            r matches Err(e) ==> e == self.incomplete(),
    {
        let lagrange = match self.lagrange() {
            Ok(l) => l,
            Err(e) => return Err(e),
        };
        let ghost n = ord::<P>();
        let ghost l = coefficients(self@.dealers, n);
        let ghost rows = self@.polynomials();
        let ghost t = self@.threshold();
        proof {
            <P::Scalar as OsstScalar>::lemma_order();
            lemma_small_mod(0, n as nat);
            lemma_rows(self@, n);
            assert(self@.deliveries[0].polynomial.len() == t);
        }
        let threshold = self.deliveries[0].commitment.coefficients.len();
        let mut coefficients: Vec<P> = Vec::new();
        while coefficients.len() < threshold
            invariant
                coefficients@.len() <= threshold,
                forall|k: int| 0 <= k < coefficients@.len() ==> (#[trigger] coefficients@[k]).log() == 0,
            decreases threshold - coefficients@.len(),
        {
            coefficients.push(P::identity());
        }
        let mut i: usize = 0;
        assert(l.subrange(0, 0).len() == 0 && rows.subrange(0, 0).len() == 0);
        while i < self.dealer_set.len()
            invariant
                i <= self.dealer_set@.len(),
                self.wf(),
                self@.complete(),
                n == ord::<P>(),
                n > 0,
                l == crate::lagrange::coefficients(self@.dealers, n),
                vals(lagrange@) == l,
                lagrange@.len() == self.dealer_set@.len(),
                rows == self@.polynomials(),
                t == self@.threshold(),
                coefficients@.len() == t,
                forall|k: int| 0 <= k < rows.len() ==> (#[trigger] rows[k]).len() == t,
                forall|k: int|
                    0 <= k < t ==> (#[trigger] coefficients@[k]).log() == combine(
                        l.subrange(0, i as int),
                        rows.subrange(0, i as int),
                        t,
                    )[k] % n,
            decreases self.dealer_set@.len() - i,
        {
            assert(self@.dealers.contains(self@.dealers[i as int]));
            let at = self.find(self.dealer_set[i]);
            let ghost row = rows[i as int];
            let ghost (l1, r1) = (l.subrange(0, i as int), rows.subrange(0, i as int));
            let ghost before = combine(l1, r1, t);
            let ghost after = combine(
                l.subrange(0, i as int + 1),
                rows.subrange(0, i as int + 1),
                t,
            );
            proof {
                assert(l.subrange(0, i as int + 1) =~= l1.push(l[i as int]));
                assert(rows.subrange(0, i as int + 1) =~= r1.push(row));
                lemma_combine_push(l1, r1, l[i as int], row, t);
                assert(self@.deliveries[at as int].polynomial == row);
                assert(self.deliveries@[at as int].commitment.polynomial() == row);
                assert(lagrange@[i as int].val() == vals(lagrange@)[i as int]);
            }
            let mut k: usize = 0;
            while k < self.deliveries[at].commitment.coefficients.len()
                invariant
                    k <= t,
                    i < self.dealer_set@.len(),
                    at < self.deliveries@.len(),
                    n == ord::<P>(),
                    n > 0,
                    row.len() == t,
                    self.deliveries@[at as int].commitment.polynomial() == row,
                    coefficients@.len() == t,
                    i < lagrange@.len(),
                    lagrange@[i as int].val() == l[i as int],
                    before.len() == t,
                    after == Seq::new(t, |k: int| before[k] + l[i as int] * row[k]),
                    forall|j: int| 0 <= j < k ==> (#[trigger] coefficients@[j]).log() == after[j] % n,
                    forall|j: int|
                        k <= j < t ==> (#[trigger] coefficients@[j]).log() == before[j] % n,
                decreases t - k,
            {
                let c = self.deliveries[at].commitment.coefficients[k];
                let updated = coefficients[k].add(&c.mul_scalar(&lagrange[i]));
                proof {
                    assert(c.log() == row[k as int]);
                    assert(row[k as int] * l[i as int] == l[i as int] * row[k as int])
                        by (nonlinear_arith);
                    lemma_mod_add(before[k as int], l[i as int] * row[k as int], n);
                }
                coefficients.set(k, updated);
                k += 1;
            }
            i += 1;
        }
        assert(l.subrange(0, i as int) =~= l);
        assert(rows.subrange(0, i as int) =~= rows);
        proof {
            lemma_combine(l, rows, t, 0);
            assert(logs(coefficients@) =~= self@.polynomial(n));
        }
        Ok(SharePolynomial { coefficients })
    }

    /// Derives the group public key from the dealers' commitments.
    ///
    /// # Errors
    ///
    /// [`OsstError::InsufficientContributions`] until every dealer of the set
    /// has delivered.
    pub fn derive_group_key(&self) -> (r: Result<P, OsstError>)
        requires
            self.wf(),
            self@.complete() ==> self@.threshold() > 0,
        ensures
            r is Ok <==> self@.complete(),
            r matches Ok(p) ==> p.log() == self@.polynomial(ord::<P>())[0],
            r matches Err(e) ==> e == self.incomplete(),
    {
        match self.polynomial() {
            Ok(p) => {
                proof {
                    lemma_polynomial_len(self@, ord::<P>());
                }
                Ok(*p.group_key())
            },
            Err(e) => Err(e),
        }
    }

    /// Finalizes the reshare: derives the polynomial, verifies that its group
    /// key is the expected one, and aggregates the share, which lies on it.
    ///
    /// # Errors
    ///
    /// [`OsstError::InsufficientContributions`] until every dealer of the set
    /// has delivered, [`OsstError::InvalidCommitment`] if the group key is not
    /// the expected one.
    pub fn finalize(&self, expected_group_key: &P) -> (r: Result<
        (P::Scalar, SharePolynomial<P>),
        OsstError,
    >)
        requires
            self.wf(),
            self@.complete() ==> self@.threshold() > 0,
        ensures
            r is Ok <==> self@.complete() && self@.polynomial(ord::<P>())[0]
                == expected_group_key.log(),
            r matches Ok((s, p)) ==> s.val() == self@.share(ord::<P>()) && p@ == self@.polynomial(
                ord::<P>(),
            ) && s.val() == poly(p@, self@.player as int) % ord::<P>(),
            r matches Err(e) ==> e == if !self@.complete() {
                self.incomplete()
            } else {
                OsstError::InvalidCommitment
            },
    {
        let polynomial = match self.polynomial() {
            Ok(p) => p,
            Err(e) => return Err(e),
        };
        proof {
            lemma_polynomial_len(self@, ord::<P>());
        }
        if !polynomial.group_key().equals(expected_group_key) {
            return Err(OsstError::InvalidCommitment);
        }
        let share = match self.aggregate() {
            Ok(s) => s,
            Err(e) => return Err(e),
        };
        proof {
            <P::Scalar as OsstScalar>::lemma_order();
            law_share_on_polynomial(self@, ord::<P>());
        }
        if !polynomial.verify_share(self.player_index, &share) {
            return Err(OsstError::InvalidResponse);
        }
        Ok((share, polynomial))
    }
}

/// In a complete aggregator every dealer of the set has delivered.
pub proof fn lemma_delivered(v: AggregatorView, n: int, dealer: u32)
    requires
        v.verified(n),
        v.complete(),
        v.dealers.contains(dealer),
    ensures
        v.delivered(dealer),
        0 <= v.position(dealer) < v.deliveries.len(),
        v.deliveries[v.position(dealer)].dealer == dealer,
{
    let part = Seq::new(v.deliveries.len(), |i: int| v.deliveries[i].dealer);
    assert(part.no_duplicates());
    assert forall|i: int| 0 <= i < part.len() implies v.dealers.contains(#[trigger] part[i]) by {
        assert(v.dealers.contains(v.deliveries[i].dealer));
    }
    lemma_all_present(part, v.dealers);
    assert(part.contains(dealer));
    let i = choose|i: int| 0 <= i < part.len() && part[i] == dealer;
    assert(v.deliveries[i].dealer == dealer);
}

/// The committed polynomials of a complete aggregator have one threshold.
proof fn lemma_rows(v: AggregatorView, n: int)
    requires
        v.wf(n),
        v.complete(),
    ensures
        v.deliveries.len() > 0,
        forall|i: int| 0 <= i < v.polynomials().len() ==> (#[trigger] v.polynomials()[i]).len()
            == v.threshold(),
        forall|i: int|
            0 <= i < v.values().len() ==> #[trigger] v.values()[i] == poly(
                v.polynomials()[i],
                v.player as int,
            ) % n,
{
    assert forall|i: int| 0 <= i < v.polynomials().len() implies (
    #[trigger] v.polynomials()[i]).len() == v.threshold() by {
        assert(v.dealers.contains(v.dealers[i]));
        lemma_delivered(v, n, v.dealers[i]);
    }
    assert forall|i: int| 0 <= i < v.values().len() implies #[trigger] v.values()[i] == poly(
        v.polynomials()[i],
        v.player as int,
    ) % n by {
        assert(v.dealers.contains(v.dealers[i]));
        lemma_delivered(v, n, v.dealers[i]);
    }
}

proof fn lemma_polynomial_len(v: AggregatorView, n: int)
    requires
        v.wf(n),
        v.complete(),
    ensures
        v.polynomial(n).len() == v.threshold(),
{
    lemma_rows(v, n);
    lemma_combine(coefficients(v.dealers, n), v.polynomials(), v.threshold(), 0);
}

// ---------------------------------------------------------------------------
// Coordination
// ---------------------------------------------------------------------------

/// Progress of a reshare round.
#[derive(Debug)]
pub struct ReshareState<P: OsstPoint> {
    /// Epoch number being reshared into.
    pub target_epoch: u64,
    /// Old threshold (required dealers).
    pub old_threshold: u32,
    /// New threshold (for new shares).
    pub new_threshold: u32,
    /// Number of new players.
    pub new_player_count: u32,
    /// Collected dealer commitments, indexed by dealer index minus one.
    pub commitments: Vec<Option<DealerCommitment<P>>>,
    /// Expected group public key (invariant).
    pub group_key: P,
}

/// The commitments among some slots, in their order.
pub open spec fn submitted<P: OsstPoint>(slots: Seq<Option<DealerCommitment<P>>>) -> Seq<
    DealerCommitment<P>,
>
    decreases slots.len(),
{
    if slots.len() == 0 {
        Seq::empty()
    } else {
        let rest = submitted(slots.drop_last());
        match slots.last() {
            Some(c) => rest.push(c),
            None => rest,
        }
    }
}

/// The indices of some commitments.
pub open spec fn dealer_indices<P: OsstPoint>(cs: Seq<DealerCommitment<P>>) -> Seq<u32> {
    Seq::new(cs.len(), |i: int| cs[i].dealer_index)
}

/// The committed constant terms.
pub open spec fn constant_terms<P: OsstPoint>(cs: Seq<DealerCommitment<P>>) -> Seq<int> {
    Seq::new(cs.len(), |i: int| cs[i].polynomial()[0])
}

proof fn lemma_submitted_push<P: OsstPoint>(slots: Seq<Option<DealerCommitment<P>>>, i: int)
    requires
        0 <= i < slots.len(),
    ensures
        submitted(slots.subrange(0, i + 1)) == match slots[i] {
            Some(c) => submitted(slots.subrange(0, i)).push(c),
            None => submitted(slots.subrange(0, i)),
        },
{
    assert(slots.subrange(0, i + 1).drop_last() =~= slots.subrange(0, i));
}

/// The commitments among some slots, in their order.
pub(crate) fn collect_submitted<P: OsstPoint>(slots: &[Option<DealerCommitment<P>>]) -> (r: Vec<
    &DealerCommitment<P>,
>)
    ensures
        r@.len() == submitted(slots@).len(),
        forall|k: int| 0 <= k < r@.len() ==> *(#[trigger] r@[k]) == submitted(slots@)[k],
{
    let mut out: Vec<&DealerCommitment<P>> = Vec::new();
    let mut i: usize = 0;
    while i < slots.len()
        invariant
            i <= slots@.len(),
            out@.len() == submitted(slots@.subrange(0, i as int)).len(),
            forall|k: int|
                0 <= k < out@.len() ==> *(#[trigger] out@[k]) == submitted(
                    slots@.subrange(0, i as int),
                )[k],
        decreases slots@.len() - i,
    {
        proof {
            lemma_submitted_push(slots@, i as int);
        }
        match &slots[i] {
            Some(c) => out.push(c),
            None => {},
        }
        i += 1;
    }
    assert(slots@.subrange(0, i as int) =~= slots@);
    out
}

/// Where slots hold the commitments of their own dealers, what they hold is in
/// ascending order of dealers, and stands in its dealer's slot.
pub proof fn lemma_submitted<P: OsstPoint>(slots: Seq<Option<DealerCommitment<P>>>, t: u32)
    requires
        forall|i: int|
            0 <= i < slots.len() ==> (#[trigger] slots[i] matches Some(c) ==> c.dealer_index == i
                + 1 && c.coefficients@.len() as u32 == t),
        slots.len() <= u32::MAX,
    ensures
        submitted(slots).len() <= slots.len(),
        ascending(dealer_indices(submitted(slots))),
        forall|k: int|
            0 <= k < submitted(slots).len() ==> {
                let c = #[trigger] submitted(slots)[k];
                &&& 0 < c.dealer_index <= slots.len()
                &&& slots[c.dealer_index - 1] == Some(c)
                &&& c.coefficients@.len() as u32 == t
            },
    decreases slots.len(),
{
    if slots.len() > 0 {
        let rest = slots.drop_last();
        assert forall|i: int| 0 <= i < rest.len() implies (#[trigger] rest[i] matches Some(c)
            ==> c.dealer_index == i + 1 && c.coefficients@.len() as u32 == t) by {
            assert(rest[i] == slots[i]);
        }
        lemma_submitted(rest, t);
        let s = submitted(slots);
        let r = submitted(rest);
        assert forall|k: int| 0 <= k < s.len() implies {
            let c = #[trigger] s[k];
            &&& 0 < c.dealer_index <= slots.len()
            &&& slots[c.dealer_index - 1] == Some(c)
            &&& c.coefficients@.len() as u32 == t
        } by {
            if k < r.len() {
                assert(s[k] == r[k]);
                assert(rest[r[k].dealer_index - 1] == slots[r[k].dealer_index - 1]);
            } else {
                assert(slots[slots.len() - 1] == slots.last());
            }
        }
        let d = dealer_indices(s);
        assert forall|i: int, j: int| 0 <= i < j < d.len() implies d[i] < d[j] by {
            assert(s[i] == r[i]);
            if j < r.len() {
                assert(dealer_indices(r)[i] < dealer_indices(r)[j]);
                assert(s[j] == r[j]);
            } else {
                assert(r[i].dealer_index <= rest.len());
                assert(slots[slots.len() - 1] == slots.last());
            }
        }
    }
}

impl<P: OsstPoint> ReshareState<P> {
    /// Each slot holds the commitment of its own dealer, for the new threshold.
    pub open spec fn wf(&self) -> bool {
        &&& self.commitments@.len() <= u32::MAX
        &&& forall|i: int|
            0 <= i < self.commitments@.len() ==> (#[trigger] self.commitments@[i] matches Some(c)
                ==> c.dealer_index == i + 1 && c.coefficients@.len() as u32 == self.new_threshold)
    }

    /// Starts a reshare round.
    pub fn new(
        target_epoch: u64,
        old_dealer_count: u32,
        old_threshold: u32,
        new_threshold: u32,
        new_player_count: u32,
        group_key: P,
    ) -> (r: Self)
        ensures
            r.wf(),
            r.target_epoch == target_epoch,
            r.old_threshold == old_threshold,
            r.new_threshold == new_threshold,
            r.new_player_count == new_player_count,
            r.group_key == group_key,
            r.commitments@ == Seq::new(old_dealer_count as nat, |i: int| None::<DealerCommitment<P>>),
    {
        let mut commitments: Vec<Option<DealerCommitment<P>>> = Vec::new();
        let mut i: u32 = 0;
        while i < old_dealer_count
            invariant
                i <= old_dealer_count,
                commitments@ == Seq::new(i as nat, |i: int| None::<DealerCommitment<P>>),
            decreases old_dealer_count - i,
        {
            commitments.push(None);
            i += 1;
            assert(commitments@ =~= Seq::new(i as nat, |i: int| None::<DealerCommitment<P>>));
        }
        ReshareState {
            target_epoch,
            old_threshold,
            new_threshold,
            new_player_count,
            commitments,
            group_key,
        }
    }

    /// What comes of submitting a commitment: whether it is new, or why it is
    /// refused.
    pub open spec fn submit_outcome(&self, c: DealerCommitment<P>) -> Result<bool, OsstError> {
        if c.dealer_index == 0 || c.dealer_index > self.commitments@.len() {
            Err(OsstError::InvalidIndex)
        } else if c.coefficients@.len() as u32 != self.new_threshold {
            Err(OsstError::InvalidCommitment)
        } else {
            Ok(self.commitments@[c.dealer_index - 1] is None)
        }
    }

    /// Submits a dealer's commitment.
    ///
    /// `Ok(true)` if it is new, `Ok(false)` if the dealer has committed already.
    ///
    /// # Errors
    ///
    /// [`OsstError::InvalidIndex`] if there is no such dealer,
    /// [`OsstError::InvalidCommitment`] if it is not to the new threshold.
    pub fn submit_commitment(&mut self, commitment: DealerCommitment<P>) -> (r: Result<
        bool,
        OsstError,
    >)
        ensures
            r == old(self).submit_outcome(commitment),
            old(self).wf() ==> final(self).wf(),
            final(self).commitments@ == if r == Ok::<bool, OsstError>(true) {
                old(self).commitments@.update(commitment.dealer_index - 1, Some(commitment))
            } else {
                old(self).commitments@
            },
            final(self).target_epoch == old(self).target_epoch,
            final(self).old_threshold == old(self).old_threshold,
            final(self).new_threshold == old(self).new_threshold,
            final(self).new_player_count == old(self).new_player_count,
            final(self).group_key == old(self).group_key,
    {
        if commitment.dealer_index == 0 {
            return Err(OsstError::InvalidIndex);
        }
        let idx: u32 = commitment.dealer_index - 1;
        if idx as u64 >= self.commitments.len() as u64 {
            return Err(OsstError::InvalidIndex);
        }
        if commitment.threshold() != self.new_threshold {
            return Err(OsstError::InvalidCommitment);
        }
        if self.commitments[idx as usize].is_some() {
            return Ok(false);
        }
        self.commitments.set(idx as usize, Some(commitment));
        Ok(true)
    }

    /// Number of commitments received.
    pub fn commitment_count(&self) -> (r: usize)
        ensures
            r == submitted(self.commitments@).len(),
    {
        let mut count: usize = 0;
        let mut i: usize = 0;
        while i < self.commitments.len()
            invariant
                i <= self.commitments@.len(),
                count <= i,
                count == submitted(self.commitments@.subrange(0, i as int)).len(),
            decreases self.commitments@.len() - i,
        {
            proof {
                lemma_submitted_push(self.commitments@, i as int);
            }
            if self.commitments[i].is_some() {
                count += 1;
            }
            i += 1;
        }
        assert(self.commitments@.subrange(0, i as int) =~= self.commitments@);
        count
    }

    /// Whether there are enough commitments to proceed.
    pub open spec fn quorum(&self) -> bool {
        submitted(self.commitments@).len() >= self.old_threshold
    }

    /// Whether there are enough commitments to proceed.
    pub fn has_quorum(&self) -> (r: bool)
        ensures
            r == self.quorum(),
    {
        self.commitment_count() as u64 >= self.old_threshold as u64
    }

    /// All submitted commitments, in ascending order of dealers.
    pub fn get_commitments(&self) -> (r: Vec<&DealerCommitment<P>>)
        ensures
            r@.len() == submitted(self.commitments@).len(),
            forall|k: int|
                0 <= k < r@.len() ==> *(#[trigger] r@[k]) == submitted(self.commitments@)[k],
    {
        collect_submitted(&self.commitments)
    }

    /// The deterministic dealer set for this round: the `old_threshold` lowest
    /// dealer indices that have committed. `None` until quorum.
    ///
    /// Every player must aggregate over exactly this set.
    pub fn dealer_set(&self) -> (r: Option<Vec<u32>>)
        ensures
            r is Some <==> self.quorum(),
            r matches Some(v) ==> v@ == dealer_indices(
                submitted(self.commitments@).subrange(0, self.old_threshold as int),
            ),
    {
        if !self.has_quorum() {
            return None;
        }
        let all = self.get_commitments();
        let mut out: Vec<u32> = Vec::new();
        let ghost s = submitted(self.commitments@);
        assert(dealer_indices(s.subrange(0, 0)) =~= Seq::empty());
        let mut i: u32 = 0;
        while i < self.old_threshold
            invariant
                i <= self.old_threshold <= s.len(),
                s == submitted(self.commitments@),
                all@.len() == s.len(),
                forall|k: int| 0 <= k < all@.len() ==> *(#[trigger] all@[k]) == s[k],
                out@ == dealer_indices(s.subrange(0, i as int)),
            decreases self.old_threshold - i,
        {
            out.push(all[i as usize].dealer_index);
            i += 1;
            assert(out@ =~= dealer_indices(s.subrange(0, i as int)));
        }
        Some(out)
    }

    /// The group key that the deterministic dealer set's commitments give.
    pub open spec fn derived_key(&self) -> int {
        let set = submitted(self.commitments@).subrange(0, self.old_threshold as int);
        dot(coefficients(dealer_indices(set), ord::<P>()), constant_terms(set)) % ord::<P>()
    }

    /// Verifies the group key from the deterministic dealer set's commitments.
    ///
    /// # Errors
    ///
    /// [`OsstError::InsufficientContributions`] until quorum.
    pub fn verify_group_key(&self) -> (r: Result<bool, OsstError>)
        requires
            self.wf(),
            self.new_threshold > 0 || self.old_threshold == 0,
        ensures
            r is Ok <==> self.quorum(),
            r matches Ok(b) ==> b == (self.derived_key() == self.group_key.log()),
            r matches Err(e) ==> e == (OsstError::InsufficientContributions {
                got: submitted(self.commitments@).len() as usize,
                need: self.old_threshold as usize,
            }),
    {
        let dealer_indices = match self.dealer_set() {
            Some(d) => d,
            None => return Err(
                OsstError::InsufficientContributions {
                    got: self.commitment_count(),
                    need: self.old_threshold as usize,
                },
            ),
        };
        let ghost n = ord::<P>();
        let ghost s = submitted(self.commitments@);
        let ghost set = s.subrange(0, self.old_threshold as int);
        proof {
            <P::Scalar as OsstScalar>::lemma_order();
            lemma_submitted(self.commitments@, self.new_threshold);
            assert forall|i: int, j: int|
                0 <= i < dealer_indices@.len() && 0 <= j < dealer_indices@.len() && i
                    != j implies dealer_indices@[i] != dealer_indices@[j] by {
                let d = crate::reshare::dealer_indices(s);
                assert(dealer_indices@[i] == d[i] && dealer_indices@[j] == d[j]);
                if i < j {
                    assert(d[i] < d[j]);
                } else {
                    assert(d[j] < d[i]);
                }
            }
        }
        let lagrange = match compute_lagrange_coefficients::<P::Scalar>(&dealer_indices) {
            Ok(l) => l,
            Err(e) => {
                assert(dealer_indices@.no_duplicates());
                return Err(e)
            },
        };
        let ghost l = coefficients(dealer_indices@, n);
        let ghost v = constant_terms(set);
        proof {
            lemma_small_mod(0, n as nat);
            assert(l.subrange(0, 0).len() == 0);
        }
        let mut derived_key = P::identity();
        let mut i: usize = 0;
        while i < dealer_indices.len()
            invariant
                i <= dealer_indices@.len(),
                n == ord::<P>(),
                n > 0,
                self.wf(),
                self.new_threshold > 0 || self.old_threshold == 0,
                s == submitted(self.commitments@),
                self.old_threshold <= s.len(),
                set == s.subrange(0, self.old_threshold as int),
                dealer_indices@ == crate::reshare::dealer_indices(set),
                l == coefficients(dealer_indices@, n),
                v == constant_terms(set),
                vals(lagrange@) == l,
                lagrange@.len() == dealer_indices@.len(),
                forall|k: int|
                    0 <= k < s.len() ==> {
                        let c = #[trigger] s[k];
                        &&& 0 < c.dealer_index <= self.commitments@.len()
                        &&& self.commitments@[c.dealer_index - 1] == Some(c)
                        &&& c.coefficients@.len() as u32 == self.new_threshold
                    },
                derived_key.log() == dot(l.subrange(0, i as int), v.subrange(0, i as int)) % n,
            decreases dealer_indices@.len() - i,
        {
            assert(set[i as int] == s[i as int]);
            let idx = dealer_indices[i];
            match &self.commitments[(idx - 1) as usize] {
                Some(commitment) => {
                    assert(*commitment == s[i as int]);
                    let term = commitment.share_commitment().mul_scalar(&lagrange[i]);
                    derived_key = derived_key.add(&term);
                    proof {
                        let (l1, v1) = (l.subrange(0, i as int), v.subrange(0, i as int));
                        assert(l.subrange(0, i as int + 1) =~= l1.push(l[i as int]));
                        assert(v.subrange(0, i as int + 1) =~= v1.push(v[i as int]));
                        lemma_dot_push(l1, v1, l[i as int], v[i as int]);
                        assert(lagrange@[i as int].val() == vals(lagrange@)[i as int]);
                        assert(v[i as int] * l[i as int] == l[i as int] * v[i as int])
                            by (nonlinear_arith);
                        lemma_mod_add(dot(l1, v1), l[i as int] * v[i as int], n);
                    }
                },
                None => {
                    assert(false);
                },
            }
            i += 1;
        }
        assert(l.subrange(0, i as int) =~= l);
        assert(v.subrange(0, i as int) =~= v);
        Ok(derived_key.equals(&self.group_key))
    }
}

// ---------------------------------------------------------------------------
// Batch verification
// ---------------------------------------------------------------------------

/// The position of the first commitment of a dealer.
pub open spec fn is_first_of<P: OsstPoint>(
    cs: Seq<DealerCommitment<P>>,
    dealer: u32,
    k: int,
) -> bool {
    &&& 0 <= k < cs.len()
    &&& cs[k].dealer_index == dealer
    &&& forall|j: int| 0 <= j < k ==> (#[trigger] cs[j]).dealer_index != dealer
}

/// The first commitment of a dealer.
pub open spec fn commitment_of<P: OsstPoint>(
    cs: Seq<DealerCommitment<P>>,
    dealer: u32,
) -> DealerCommitment<P> {
    cs[choose|k: int| is_first_of(cs, dealer, k)]
}

/// A sub-share is for the player and its dealer has a commitment.
pub open spec fn is_paired<P: OsstPoint>(
    player: u32,
    s: SubShareView,
    cs: Seq<DealerCommitment<P>>,
) -> bool {
    s.player == player && exists|k: int| is_first_of(cs, s.dealer, k)
}

/// A batch can be checked: there is one commitment to a sub-share, and every
/// sub-share is for the player and has the commitment of its dealer.
pub open spec fn batch_paired<P: OsstPoint>(
    player: u32,
    subshares: Seq<SubShare<P::Scalar>>,
    cs: Seq<DealerCommitment<P>>,
) -> bool {
    &&& subshares.len() == cs.len()
    &&& subshares.len() > 0
    &&& player != 0
    &&& forall|i: int|
        0 <= i < subshares.len() ==> is_paired(player, (#[trigger] subshares[i])@, cs)
}

/// The values of the sub-shares of a batch.
pub open spec fn batch_values<S: OsstScalar>(subshares: Seq<SubShare<S>>) -> Seq<int> {
    Seq::new(subshares.len(), |i: int| subshares[i]@.value)
}

/// What the sub-shares of a batch should be.
pub open spec fn batch_expected<P: OsstPoint>(
    player: u32,
    subshares: Seq<SubShare<P::Scalar>>,
    cs: Seq<DealerCommitment<P>>,
) -> Seq<int> {
    Seq::new(
        subshares.len(),
        |i: int| commitment_of(cs, subshares[i]@.dealer).value_at(player),
    )
}

/// The first commitment of a dealer, if there is one.
fn find_commitment<P: OsstPoint>(cs: &[DealerCommitment<P>], dealer: u32) -> (r: Option<usize>)
    ensures
        r matches Some(k) ==> is_first_of(cs@, dealer, k as int) && commitment_of(cs@, dealer)
            == cs@[k as int],
        r is None ==> forall|k: int| !is_first_of(cs@, dealer, k),
{
    let mut i: usize = 0;
    while i < cs.len()
        invariant
            i <= cs@.len(),
            forall|j: int| 0 <= j < i ==> (#[trigger] cs@[j]).dealer_index != dealer,
        decreases cs@.len() - i,
    {
        if cs[i].dealer_index == dealer {
            assert(is_first_of(cs@, dealer, i as int));
            proof {
                let k = choose|k: int| is_first_of(cs@, dealer, k);
                assert(k == i);
            }
            return Some(i);
        }
        i += 1;
    }
    None
}

/// [`batch_verify_subshares`] with given weights: whether the weighted sum of
/// the sub-shares is that of the values committed to.
pub fn batch_verify_weighted<P: OsstPoint>(
    player_index: u32,
    subshares: &[SubShare<P::Scalar>],
    commitments: &[DealerCommitment<P>],
    weights: &[P::Scalar],
) -> (r: bool)
    requires
        weights@.len() == subshares@.len(),
    ensures
        r == (batch_paired(player_index, subshares@, commitments@) && eqm(
            dot(vals(weights@), batch_values(subshares@)),
            dot(vals(weights@), batch_expected(player_index, subshares@, commitments@)),
            ord::<P>(),
        )),
{
    if subshares.len() != commitments.len() || subshares.len() == 0 {
        return false;
    }
    let ghost n = ord::<P>();
    let ghost w = vals(weights@);
    let ghost a = batch_values(subshares@);
    let ghost b = batch_expected(player_index, subshares@, commitments@);
    proof {
        <P::Scalar as OsstScalar>::lemma_order();
        lemma_small_mod(0, n as nat);
        assert(w.subrange(0, 0).len() == 0);
    }
    let mut lhs_exponent = <P::Scalar as OsstScalar>::zero();
    let mut rhs = P::identity();
    let mut i: usize = 0;
    while i < subshares.len()
        invariant
            i <= subshares@.len(),
            subshares@.len() == commitments@.len(),
            weights@.len() == subshares@.len(),
            subshares@.len() > 0,
            n == ord::<P>(),
            n > 0,
            w == vals(weights@),
            a == batch_values(subshares@),
            b == batch_expected(player_index, subshares@, commitments@),
            i > 0 ==> player_index != 0,
            forall|k: int|
                0 <= k < i ==> is_paired(
                    player_index,
                    (#[trigger] subshares@[k])@,
                    commitments@,
                ),
            lhs_exponent.val() == dot(w.subrange(0, i as int), a.subrange(0, i as int)) % n,
            rhs.log() == dot(w.subrange(0, i as int), b.subrange(0, i as int)) % n,
        decreases subshares@.len() - i,
    {
        if subshares[i].player_index != player_index {
            assert(!is_paired(player_index, subshares@[i as int]@, commitments@));
            return false;
        }
        let at = match find_commitment(commitments, subshares[i].dealer_index) {
            Some(k) => k,
            None => {
                assert(!is_paired(player_index, subshares@[i as int]@, commitments@));
                return false;
            },
        };
        assert(is_first_of(commitments@, subshares@[i as int]@.dealer, at as int));
        let eval = match commitments[at].evaluate_at(player_index) {
            Ok(e) => e,
            Err(_) => return false,
        };
        lhs_exponent = lhs_exponent.add(&weights[i].mul(&subshares[i].value));
        rhs = rhs.add(&eval.mul_scalar(&weights[i]));
        proof {
            let (w1, a1, b1) = (
                w.subrange(0, i as int),
                a.subrange(0, i as int),
                b.subrange(0, i as int),
            );
            assert(w.subrange(0, i as int + 1) =~= w1.push(w[i as int]));
            assert(a.subrange(0, i as int + 1) =~= a1.push(a[i as int]));
            assert(b.subrange(0, i as int + 1) =~= b1.push(b[i as int]));
            lemma_dot_push(w1, a1, w[i as int], a[i as int]);
            lemma_dot_push(w1, b1, w[i as int], b[i as int]);
            lemma_mod_add(dot(w1, a1), w[i as int] * a[i as int], n);
            assert(b[i as int] * w[i as int] == w[i as int] * b[i as int]) by (nonlinear_arith);
            lemma_mod_add(dot(w1, b1), w[i as int] * b[i as int], n);
            assert(is_paired(player_index, subshares@[i as int]@, commitments@));
        }
        i += 1;
    }
    assert(w.subrange(0, i as int) =~= w);
    assert(a.subrange(0, i as int) =~= a);
    assert(b.subrange(0, i as int) =~= b);
    let lhs = base_mul::<P>(&lhs_exponent);
    lhs.equals(&rhs)
}

/// Verifies several sub-shares against their commitments at once, with a random
/// linear combination: independent random weights per sub-share, so a bad share
/// is caught with overwhelming probability.
///
/// Sub-shares are paired with commitments by dealer index, not by position. A
/// batch whose every sub-share is valid is accepted whatever the weights; one
/// that cannot be paired is refused whatever the weights. Whether a paired batch
/// with several bad sub-shares is refused is up to the weights, as
/// [`batch_verify_weighted`] says; no weight is zero, so that every sub-share counts.
pub fn batch_verify_subshares<P: OsstPoint>(
    player_index: u32,
    subshares: &[SubShare<P::Scalar>],
    commitments: &[DealerCommitment<P>],
    rng: &mut OsRng,
) -> (r: bool)
    ensures
        r ==> batch_paired(player_index, subshares@, commitments@),
        batch_paired(player_index, subshares@, commitments@) && batch_values(subshares@)
            == batch_expected(player_index, subshares@, commitments@) ==> r,
        exists|weights: Seq<int>| #[trigger]
            are_weights(weights, subshares@.len(), ord::<P>()) && r == (batch_paired(
                player_index,
                subshares@,
                commitments@,
            ) && eqm(
                dot(weights, batch_values(subshares@)),
                dot(weights, batch_expected(player_index, subshares@, commitments@)),
                ord::<P>(),
            )),
{
    let zero = <P::Scalar as OsstScalar>::zero();
    let mut weights: Vec<P::Scalar> = Vec::new();
    while weights.len() < subshares.len()
        invariant
            weights@.len() <= subshares@.len(),
            zero.val() == 0,
            forall|i: int| 0 <= i < weights@.len() ==> (#[trigger] weights@[i]).val() != 0,
        decreases subshares@.len() - weights@.len(),
    {
        let drawn = <P::Scalar as OsstScalar>::random(rng);
        let weight = if drawn.equals(&zero) {
            <P::Scalar as OsstScalar>::one()
        } else {
            drawn
        };
        weights.push(weight);
    }
    proof {
        assert forall|i: int| 0 <= i < weights@.len() implies 0 < (#[trigger] vals(weights@)[i])
            < ord::<P>() by {
            weights@[i].lemma_val();
        }
        assert(are_weights(vals(weights@), subshares@.len(), ord::<P>()));
    }
    batch_verify_weighted::<P>(player_index, subshares, commitments, &weights)
}

/// Weights of a batch: a residue other than zero for each sub-share.
pub open spec fn are_weights(weights: Seq<int>, len: nat, n: int) -> bool {
    &&& weights.len() == len
    &&& forall|i: int| 0 <= i < weights.len() ==> 0 < (#[trigger] weights[i]) < n
}

// ---------------------------------------------------------------------------
// Laws
// ---------------------------------------------------------------------------

/// The share a player aggregates lies on the reshared polynomial.
pub proof fn law_share_on_polynomial(v: AggregatorView, n: int)
    requires
        n > 0,
        v.wf(n),
        v.complete(),
    ensures
        v.share(n) == poly(v.polynomial(n), v.player as int) % n,
{
    lemma_rows(v, n);
    let l = coefficients(v.dealers, n);
    let rows = v.polynomials();
    let t = v.threshold();
    let x = v.player as int;
    lemma_combine(l, rows, t, x);
    let e = evaluations(rows, x);
    assert forall|i: int| 0 <= i < e.len() implies eqm(#[trigger] v.values()[i], e[i], n) by {
        lemma_eqm_mod(e[i], n);
    }
    lemma_dot_eqm(l, v.values(), l, e, n);
    let c = combine(l, rows, t);
    assert forall|k: int| 0 <= k < c.len() implies eqm(#[trigger] v.polynomial(n)[k], c[k], n) by {
        lemma_eqm_mod(c[k], n);
    }
    lemma_poly_eqm(v.polynomial(n), c, x, n);
}

/// Resharing preserves the group key: where the dealers' constant terms are
/// shares of a secret under a polynomial with no more coefficients than there
/// are dealers, the reshared polynomial has that secret at zero.
pub proof fn law_key_preserved(v: AggregatorView, old_polynomial: Seq<int>, n: int)
    requires
        is_field(n),
        n > 0x1_0000_0000,
        v.wf(n),
        v.complete(),
        v.threshold() > 0,
        0 < old_polynomial.len() <= v.dealers.len(),
        forall|i: int|
            0 <= i < v.dealers.len() ==> (#[trigger] v.polynomials()[i])[0] == poly(
                old_polynomial,
                v.dealers[i] as int,
            ) % n,
    ensures
        v.polynomial(n)[0] == old_polynomial[0] % n,
{
    lemma_rows(v, n);
    lemma_polynomial_len(v, n);
    let l = coefficients(v.dealers, n);
    let rows = v.polynomials();
    let t = v.threshold();
    lemma_combine(l, rows, t, 0);
    let c = combine(l, rows, t);
    lemma_poly_zero(c);
    let e = evaluations(rows, 0);
    assert forall|i: int| 0 <= i < e.len() implies eqm(
        #[trigger] e[i],
        poly(old_polynomial, v.dealers[i] as int),
        n,
    ) by {
        lemma_poly_zero(rows[i]);
        assert(rows[i].len() == t);
        lemma_eqm_mod(poly(old_polynomial, v.dealers[i] as int), n);
    }
    lemma_reconstruct(v.dealers, e, old_polynomial, n);
    lemma_poly_zero(old_polynomial);
}

/// Players that agree on the dealer set and received the same commitments
/// derive the same polynomial, whatever the order of arrival.
pub proof fn law_same_polynomial(a: AggregatorView, b: AggregatorView, n: int)
    requires
        a.wf(n),
        b.wf(n),
        a.complete(),
        b.complete(),
        a.dealers == b.dealers,
        forall|i: int, j: int|
            0 <= i < a.deliveries.len() && 0 <= j < b.deliveries.len()
                && #[trigger] a.deliveries[i].dealer == #[trigger] b.deliveries[j].dealer
                ==> a.deliveries[i].polynomial == b.deliveries[j].polynomial,
    ensures
        a.polynomial(n) == b.polynomial(n),
{
    lemma_rows(a, n);
    lemma_rows(b, n);
    assert(a.polynomials() =~= b.polynomials()) by {
        assert forall|i: int| 0 <= i < a.dealers.len() implies a.polynomials()[i]
            == b.polynomials()[i] by {
            assert(a.dealers.contains(a.dealers[i]));
            lemma_delivered(a, n, a.dealers[i]);
            lemma_delivered(b, n, a.dealers[i]);
        }
    }
    assert(a.polynomials()[0].len() == a.threshold());
    assert(b.polynomials()[0].len() == b.threshold());
}

/// New shares reconstruct the secret: any distinct players, at least as many as
/// the new threshold, whose shares lie on one polynomial recover its value at
/// zero with their Lagrange coefficients.
pub proof fn law_new_shares_reconstruct(
    polynomial: Seq<int>,
    players: Seq<u32>,
    shares: Seq<int>,
    n: int,
)
    requires
        is_field(n),
        n > 0x1_0000_0000,
        0 < polynomial.len() <= players.len(),
        players.no_duplicates(),
        shares.len() == players.len(),
        forall|i: int|
            0 <= i < players.len() ==> #[trigger] shares[i] == poly(polynomial, players[i] as int)
                % n,
    ensures
        dot(coefficients(players, n), shares) % n == polynomial[0] % n,
{
    assert forall|i: int| 0 <= i < players.len() implies eqm(
        #[trigger] shares[i],
        poly(polynomial, players[i] as int),
        n,
    ) by {
        lemma_eqm_mod(poly(polynomial, players[i] as int), n);
    }
    lemma_reconstruct(players, shares, polynomial, n);
    lemma_poly_zero(polynomial);
}

/// What an honest dealer deals verifies against its commitment, for every
/// player.
pub proof fn law_honest_subshare_verifies<P: OsstPoint>(
    dealer: DealerView,
    c: DealerCommitment<P>,
    player: u32,
)
    requires
        c.dealer_index == dealer.index,
        c.polynomial() == dealer.polynomial,
    ensures
        dealt::<P>(dealer, player).value == c.value_at(player),
{
}

/// A bad sub-share passes a batch for at most one weight: whatever the other
/// weights and values are, two weights of a sub-share that is not the value
/// committed to cannot both make the weighted sums agree unless they are one
/// residue.
pub proof fn law_batch_catches_bad_subshare(
    weights: Seq<int>,
    values: Seq<int>,
    expected: Seq<int>,
    k: int,
    other: int,
    n: int,
)
    requires
        is_field(n),
        weights.len() == values.len(),
        weights.len() == expected.len(),
        0 <= k < weights.len(),
        !eqm(values[k], expected[k], n),
        eqm(dot(weights, values), dot(weights, expected), n),
        eqm(dot(weights.update(k, other), values), dot(weights.update(k, other), expected), n),
    ensures
        eqm(weights[k], other, n),
{
    let d = other - weights[k];
    let (va, vb) = (values[k], expected[k]);
    lemma_dot_update(weights, values, k, other);
    lemma_dot_update(weights, expected, k, other);
    lemma_eqm_sub(
        dot(weights, values) + d * va,
        dot(weights, expected) + d * vb,
        dot(weights, values),
        dot(weights, expected),
        n,
    );
    assert(eqm(d * va, d * vb, n));
    lemma_eqm_sub(d * va, d * vb, d * vb, d * vb, n);
    assert((va - vb) * d == d * va - d * vb) by (nonlinear_arith);
    assert((va - vb) * 0 == 0);
    if eqm(va - vb, 0, n) {
        lemma_eqm_add(va - vb, 0, vb, vb, n);
    }
    lemma_cancel(va - vb, d, 0, n);
    lemma_eqm_add(d, 0, weights[k], weights[k], n);
}

/// A commitment is read back as it was written, and what is read is written as it was.
pub proof fn law_commitment_round_trip<P: OsstPoint>(c: CommitmentView, bytes: Seq<u8>, t: u32)
    requires
        forall|i: int|
            0 <= i < c.polynomial.len() ==> has_encoding::<P>(#[trigger] c.polynomial[i]),
        c.dealer != 0,
        c.polynomial.len() == t,
    ensures
        parse_commitment::<P>(bytes, t) == Ok::<(int, Seq<int>), OsstError>(
            (c.dealer as int, c.polynomial),
        ) <==> bytes == commitment_bytes::<P>(c),
{
    let head = le_bytes(c.dealer as int, 4);
    let want = points_bytes::<P>(c.polynomial);
    lemma_byte_bounds();
    lemma_le_bytes(c.dealer as int, 4);
    assert(0 <= t * P::COMPRESSED_SIZE) by (nonlinear_arith);
    law_points_round_trip::<P>(
        c.polynomial,
        Seq::new((t * P::COMPRESSED_SIZE) as nat, |i: int| 0u8),
    );
    if bytes.len() == 4 + t * P::COMPRESSED_SIZE {
        let (a, b) = (bytes.subrange(0, 4), bytes.subrange(4, bytes.len() as int));
        assert(bytes =~= a + b);
        law_points_round_trip::<P>(c.polynomial, b);
        lemma_le_value(a);
        if bytes == commitment_bytes::<P>(c) {
            lemma_concat_split(a, b, head, want);
        }
    }
}

/// The plaintext of a sub-share determines it: its dealer, its player and its value.
pub proof fn law_subshare_bytes_injective<S: OsstScalar>(a: SubShareView, b: SubShareView)
    requires
        0 <= a.value < S::order(),
        0 <= b.value < S::order(),
        subshare_bytes::<S>(a) == subshare_bytes::<S>(b),
    ensures
        a == b,
{
    let (da, db) = (le_bytes(a.dealer as int, 4), le_bytes(b.dealer as int, 4));
    let (pa, pb) = (le_bytes(a.player as int, 4), le_bytes(b.player as int, 4));
    let (va, vb) = (S::repr(a.value), S::repr(b.value));
    lemma_byte_bounds();
    lemma_le_bytes(a.dealer as int, 4);
    lemma_le_bytes(b.dealer as int, 4);
    lemma_le_bytes(a.player as int, 4);
    lemma_le_bytes(b.player as int, 4);
    S::lemma_repr(a.value);
    S::lemma_repr(b.value);
    lemma_concat_split(da + pa, va, db + pb, vb);
    lemma_concat_split(da, pa, db, pb);
    lemma_le_bytes_injective(a.dealer as int, b.dealer as int, 4);
    lemma_le_bytes_injective(a.player as int, b.player as int, 4);
}

/// A sub-share is read exactly from its plaintext: forty bytes are read as a sub-share
/// only where they are what it is written as.
pub proof fn law_subshare_bytes_canonical<S: OsstScalar>(bytes: Seq<u8>, s: SubShareView)
    requires
        bytes.len() == 40,
        parse_subshare::<S>(bytes) == Ok::<SubShareView, OsstError>(s),
    ensures
        bytes == subshare_bytes::<S>(s),
        s.dealer != 0,
        s.player != 0,
        0 <= s.value < S::order(),
{
    let (d, p, v) = (bytes.subrange(0, 4), bytes.subrange(4, 8), bytes.subrange(8, 40));
    lemma_byte_bounds();
    lemma_le_value(d);
    lemma_le_value(p);
    S::lemma_unrepr(v);
    assert(bytes =~= d + p + v);
}

/// The positions of the filled slots.
pub open spec fn filled<P: OsstPoint>(slots: Seq<Option<DealerCommitment<P>>>) -> Set<int> {
    Set::new(|i: int| 0 <= i < slots.len() && slots[i] is Some)
}

/// What was submitted is what the slots hold: as many commitments as slots are filled,
/// every one of them, and no other.
pub proof fn law_submitted_fill_slots<P: OsstPoint>(slots: Seq<Option<DealerCommitment<P>>>)
    ensures
        filled(slots).finite(),
        submitted(slots).len() == filled(slots).len(),
        forall|i: int|
            0 <= i < slots.len() ==> (#[trigger] slots[i] matches Some(c) ==> submitted(
                slots,
            ).contains(c)),
        forall|k: int|
            0 <= k < submitted(slots).len() ==> exists|i: int|
                0 <= i < slots.len() && #[trigger] slots[i] == Some(#[trigger] submitted(slots)[k]),
    decreases slots.len(),
{
    if slots.len() == 0 {
        assert(filled(slots) =~= Set::empty());
    } else {
        let rest = slots.drop_last();
        let last = slots.len() - 1;
        law_submitted_fill_slots(rest);
        let (s, r) = (submitted(slots), submitted(rest));
        assert forall|i: int| 0 <= i < last implies rest[i] == #[trigger] slots[i] by {}
        match slots.last() {
            Some(c) => {
                assert(filled(slots) =~= filled(rest).insert(last));
                assert(!filled(rest).contains(last));
                assert(s[r.len() as int] == c);
            },
            None => {
                assert(filled(slots) =~= filled(rest));
            },
        }
        assert forall|i: int| 0 <= i < slots.len() implies (#[trigger] slots[i] matches Some(c)
            ==> s.contains(c)) by {
            if i < last {
                match slots[i] {
                    Some(c) => {
                        assert(rest[i] == Some(c));
                        let k = choose|k: int| 0 <= k < r.len() && r[k] == c;
                        assert(s[k] == c);
                    },
                    None => {},
                }
            }
        }
        assert forall|k: int| 0 <= k < s.len() implies exists|i: int|
            0 <= i < slots.len() && #[trigger] slots[i] == Some(#[trigger] s[k]) by {
            if k < r.len() {
                assert(s[k] == r[k]);
                let i = choose|i: int| 0 <= i < rest.len() && #[trigger] rest[i] == Some(r[k]);
                assert(slots[i] == Some(s[k]));
            } else {
                assert(slots[last] == Some(s[k]));
            }
        }
    }
}

/// A quorum is `old_threshold` old dealers, whatever the new threshold and the number of
/// new players: a round has one exactly where at least as many slots are filled. The
/// dealer set is then there, and it is the `old_threshold` lowest dealers that have
/// committed: as many as that, ascending, each of a filled slot, and none that was left
/// out is lower than one that was taken.
pub proof fn law_quorum_of_old_dealers<P: OsstPoint>(
    state: ReshareState<P>,
    quorum: bool,
    set: Option<Vec<u32>>,
)
    requires
        state.wf(),
        call_ensures(ReshareState::<P>::has_quorum, (&state,), quorum),
        call_ensures(ReshareState::<P>::dealer_set, (&state,), set),
    ensures
        quorum <==> filled(state.commitments@).len() >= state.old_threshold,
        set is Some <==> filled(state.commitments@).len() >= state.old_threshold,
        set matches Some(v) ==> {
            &&& v@.len() == state.old_threshold
            &&& ascending(v@)
            &&& forall|i: int|
                0 <= i < v@.len() ==> 1 <= (#[trigger] v@[i]) <= state.commitments@.len()
                    && state.commitments@[v@[i] - 1] is Some
            &&& forall|d: u32|
                1 <= d <= state.commitments@.len() && state.commitments@[d - 1] is Some && !(
                #[trigger] v@.contains(d)) ==> forall|i: int| 0 <= i < v@.len() ==> v@[i] < d
        },
{
    let slots = state.commitments@;
    let s = submitted(slots);
    law_submitted_fill_slots(slots);
    lemma_submitted(slots, state.new_threshold);
    match set {
        Some(v) => {
            let all = dealer_indices(s);
            assert forall|i: int| 0 <= i < v@.len() implies #[trigger] v@[i] == all[i] && 1
                <= v@[i] <= slots.len() && slots[v@[i] - 1] is Some by {
                assert(slots[s[i].dealer_index - 1] == Some(s[i]));
            }
            assert forall|i: int, j: int| 0 <= i < j < v@.len() implies v@[i] < v@[j] by {
                assert(all[i] < all[j]);
            }
            assert forall|d: u32|
                1 <= d <= slots.len() && slots[d - 1] is Some && !(#[trigger] v@.contains(
                    d,
                )) implies forall|i: int| 0 <= i < v@.len() ==> v@[i] < d by {
                let c = slots[d - 1]->0;
                assert(c.dealer_index == d);
                assert(s.contains(c));
                let k = choose|k: int| 0 <= k < s.len() && s[k] == c;
                assert(all[k] == d);
                if k < v@.len() {
                    assert(v@[k] == d);
                }
                assert forall|i: int| 0 <= i < v@.len() implies v@[i] < d by {
                    assert(all[i] < all[k]);
                }
            }
        },
        None => {},
    }
}

/// A commitment is taken exactly where it names one of the old dealers and is to the new
/// threshold, and counts once: the first of a dealer fills one more slot, a later one
/// changes nothing.
pub proof fn law_first_commitment_counts<P: OsstPoint>(
    state: ReshareState<P>,
    c: DealerCommitment<P>,
)
    ensures
        state.submit_outcome(c) is Ok <==> 1 <= c.dealer_index <= state.commitments@.len()
            && c.coefficients@.len() as u32 == state.new_threshold,
        state.submit_outcome(c) == Err::<bool, OsstError>(OsstError::InvalidIndex) <==> !(1
            <= c.dealer_index <= state.commitments@.len()),
        state.submit_outcome(c) matches Err(e) ==> e == OsstError::InvalidIndex || e
            == OsstError::InvalidCommitment,
        state.submit_outcome(c) == Ok::<bool, OsstError>(true) ==> filled(
            state.commitments@.update(c.dealer_index - 1, Some(c)),
        ).len() == filled(state.commitments@).len() + 1,
        state.submit_outcome(c) == Ok::<bool, OsstError>(false) ==> filled(
            state.commitments@,
        ).contains(c.dealer_index - 1),
{
    let slots = state.commitments@;
    let at = c.dealer_index - 1;
    law_submitted_fill_slots(slots);
    if state.submit_outcome(c) == Ok::<bool, OsstError>(true) {
        assert(filled(slots.update(at, Some(c))) =~= filled(slots).insert(at));
        assert(!filled(slots).contains(at));
    }
}

/// A round verifies the key that it keeps: where the dealers of the dealer set committed
/// to the values, at their indices, of a polynomial with no more coefficients than there
/// are dealers in it, the round verifies exactly where the polynomial's value at zero is
/// the expected group key.
pub proof fn law_round_verifies_kept_key<P: OsstPoint>(
    state: ReshareState<P>,
    old_polynomial: Seq<int>,
    set: Option<Vec<u32>>,
    verified: Result<bool, OsstError>,
)
    requires
        is_field(ord::<P>()),
        state.wf(),
        state.new_threshold > 0,
        filled(state.commitments@).len() >= state.old_threshold,
        0 < old_polynomial.len() <= state.old_threshold,
        call_ensures(ReshareState::<P>::dealer_set, (&state,), set),
        call_ensures(ReshareState::<P>::verify_group_key, (&state,), verified),
        forall|d: u32|
            1 <= d <= state.commitments@.len() && set->0@.contains(d) ==> (
            #[trigger] state.commitments@[d - 1])->0.polynomial()[0] == poly(
                old_polynomial,
                d as int,
            ) % ord::<P>(),
    ensures
        verified == Ok::<bool, OsstError>(
            state.group_key.log() == old_polynomial[0] % ord::<P>(),
        ),
{
    let n = ord::<P>();
    let slots = state.commitments@;
    let s = submitted(slots);
    <P::Scalar as OsstScalar>::lemma_order();
    law_submitted_fill_slots(slots);
    lemma_submitted(slots, state.new_threshold);
    let taken = s.subrange(0, state.old_threshold as int);
    let ids = dealer_indices(taken);
    let terms = constant_terms(taken);
    let v = set->0;
    assert(v@ == ids);
    assert forall|i: int, j: int| 0 <= i < ids.len() && 0 <= j < ids.len() && i != j implies ids[i]
        != ids[j] by {
        let all = dealer_indices(s);
        assert(ids[i] == all[i] && ids[j] == all[j]);
        if i < j {
            assert(all[i] < all[j]);
        } else {
            assert(all[j] < all[i]);
        }
    }
    assert forall|i: int| 0 <= i < ids.len() implies eqm(
        #[trigger] terms[i],
        poly(old_polynomial, ids[i] as int),
        n,
    ) by {
        let c = s[i];
        assert(taken[i] == c);
        assert(slots[c.dealer_index - 1] == Some(c));
        assert(v@[i] == c.dealer_index);
        assert(v@.contains(c.dealer_index));
        assert(terms[i] == poly(old_polynomial, c.dealer_index as int) % n);
        lemma_eqm_mod(poly(old_polynomial, ids[i] as int), n);
    }
    lemma_reconstruct(ids, terms, old_polynomial, n);
    lemma_poly_zero(old_polynomial);
}

/// One sub-share is accepted from a dealer, and it is its own: of a dealer of the set
/// that has not delivered, to the threshold of the others, the value on its commitment at
/// the player is added, and every other value is refused as invalid, with the aggregator
/// as it was.
pub proof fn law_one_value_is_accepted<P: OsstPoint>(
    v: AggregatorView,
    c: DealerCommitment<P>,
    value: int,
)
    requires
        c.dealer_index != 0,
        v.dealers.contains(c.dealer_index),
        !v.delivered(c.dealer_index),
        v.deliveries.len() > 0 ==> v.deliveries[0].polynomial.len() == c.coefficients@.len(),
    ensures
        ({
            let s = SubShareView { dealer: c.dealer_index, player: v.player, value };
            let honest = poly(logs(c.coefficients@), v.player as int) % ord::<P>();
            &&& value == honest ==> add_outcome(v, s, c) == Ok::<bool, OsstError>(true)
                && after_add(v, s, c).deliveries == v.deliveries.push(
                DeliveryView {
                    dealer: c.dealer_index,
                    value,
                    polynomial: logs(c.coefficients@),
                },
            )
            &&& value != honest ==> add_outcome(v, s, c) == Err::<bool, OsstError>(
                OsstError::InvalidResponse,
            )
            &&& value != honest ==> after_add(v, s, c) == v
        }),
{
}

/// What an aggregator does not take: a sub-share for another player, one that does not
/// come from the dealer of its commitment, one of a dealer outside the set and one to
/// another threshold are refused, each with its error, and a dealer that has delivered
/// is not taken again. None of them changes anything.
pub proof fn law_others_are_not_taken<P: OsstPoint>(
    v: AggregatorView,
    s: SubShareView,
    c: DealerCommitment<P>,
)
    ensures
        s.player != v.player || s.dealer != c.dealer_index || s.dealer == 0 <==> add_outcome(
            v,
            s,
            c,
        ) == Err::<bool, OsstError>(OsstError::InvalidIndex),
        add_outcome(v, s, c) matches Ok(added) ==> v.dealers.contains(s.dealer) && (v.deliveries.len()
            > 0 ==> v.deliveries[0].polynomial.len() == c.coefficients@.len()) && added
            == !v.delivered(s.dealer),
        add_outcome(v, s, c) == Err::<bool, OsstError>(OsstError::UnexpectedDealer(s.dealer))
            ==> !v.dealers.contains(s.dealer),
        add_outcome(v, s, c) != Ok::<bool, OsstError>(true) ==> after_add(v, s, c) == v,
        after_add(v, s, c).player == v.player,
        after_add(v, s, c).dealers == v.dealers,
        forall|d: u32| #[trigger]
            after_add(v, s, c).delivered(d) <==> v.delivered(d) || (d == s.dealer && add_outcome(
                v,
                s,
                c,
            ) == Ok::<bool, OsstError>(true)),
{
    let w = after_add(v, s, c);
    assert forall|d: u32| #[trigger] w.delivered(d) <==> v.delivered(d) || (d == s.dealer
        && add_outcome(v, s, c) == Ok::<bool, OsstError>(true)) by {
        if add_outcome(v, s, c) == Ok::<bool, OsstError>(true) {
            assert(w.deliveries[v.deliveries.len() as int].dealer == s.dealer);
            if v.delivered(d) {
                let i = choose|i: int|
                    0 <= i < v.deliveries.len() && v.deliveries[i].dealer == d;
                assert(w.deliveries[i].dealer == d);
            }
            if w.delivered(d) {
                let i = choose|i: int|
                    0 <= i < w.deliveries.len() && w.deliveries[i].dealer == d;
                if i < v.deliveries.len() {
                    assert(v.deliveries[i].dealer == d);
                }
            }
        }
    }
}

/// An aggregator is complete exactly where every dealer of its set has delivered.
pub proof fn law_complete_when_all_delivered(v: AggregatorView, n: int)
    requires
        v.verified(n),
    ensures
        v.complete() <==> forall|d: u32| #[trigger] v.dealers.contains(d) ==> v.delivered(d),
{
    let part = Seq::new(v.deliveries.len(), |i: int| v.deliveries[i].dealer);
    assert forall|i: int, j: int| 0 <= i < part.len() && 0 <= j < part.len() && i != j implies part[i]
        != part[j] by {
        if i < j {
            assert(v.deliveries[i].dealer != v.deliveries[j].dealer);
        } else {
            assert(v.deliveries[j].dealer != v.deliveries[i].dealer);
        }
    }
    assert forall|i: int| 0 <= i < part.len() implies v.dealers.contains(#[trigger] part[i]) by {
        assert(v.dealers.contains(v.deliveries[i].dealer));
    }
    if v.complete() {
        assert forall|d: u32| #[trigger] v.dealers.contains(d) implies v.delivered(d) by {
            lemma_delivered(v, n, d);
        }
    }
    if forall|d: u32| #[trigger] v.dealers.contains(d) ==> v.delivered(d) {
        assert forall|i: int| 0 <= i < v.dealers.len() implies part.contains(
            #[trigger] v.dealers[i],
        ) by {
            assert(v.dealers.contains(v.dealers[i]));
            let k = choose|k: int|
                0 <= k < v.deliveries.len() && v.deliveries[k].dealer == v.dealers[i];
            assert(part[k] == v.dealers[i]);
        }
        lemma_at_most(v.dealers, part);
        lemma_at_most(part, v.dealers);
    }
}

/// A batch adds every sub-share that belongs: the deliveries grow by as many as it
/// counts, what was there stays, and after a batch whose commitments are to one threshold,
/// that of the deliveries so far, every dealer of the set whose sub-share, for the player
/// and on its commitment, was among those offered has delivered.
pub proof fn law_batch_adds_what_belongs<P: OsstPoint>(
    v: AggregatorView,
    subshares: Seq<SubShare<P::Scalar>>,
    commitments: Seq<DealerCommitment<P>>,
    count: nat,
    t: nat,
)
    requires
        count <= subshares.len(),
        count <= commitments.len(),
        forall|i: int|
            0 <= i < commitments.len() ==> (#[trigger] commitments[i]).coefficients@.len() == t,
        v.deliveries.len() > 0 ==> v.deliveries[0].polynomial.len() == t,
    ensures
        ({
            let (w, added) = after_batch(v, subshares, commitments, count);
            &&& w.player == v.player
            &&& w.dealers == v.dealers
            &&& w.deliveries.len() == v.deliveries.len() + added
            &&& w.deliveries.subrange(0, v.deliveries.len() as int) == v.deliveries
            &&& w.deliveries.len() > 0 ==> w.deliveries[0].polynomial.len() == t
            &&& forall|i: int|
                0 <= i < count && (#[trigger] subshares[i])@.player == v.player
                    && subshares[i]@.dealer == commitments[i].dealer_index && subshares[i]@.dealer
                    != 0 && v.dealers.contains(subshares[i]@.dealer) && subshares[i]@.value == poly(
                    logs(commitments[i].coefficients@),
                    v.player as int,
                ) % ord::<P>() ==> w.delivered(subshares[i]@.dealer)
        }),
    decreases count,
{
    if count == 0 {
        assert(v.deliveries.subrange(0, v.deliveries.len() as int) =~= v.deliveries);
    } else {
        let m = (count - 1) as nat;
        law_batch_adds_what_belongs(v, subshares, commitments, m, t);
        let (u, before) = after_batch(v, subshares, commitments, m);
        let (w, added) = after_batch(v, subshares, commitments, count);
        let (s, c) = (subshares[m as int]@, commitments[m as int]);
        law_others_are_not_taken(u, s, c);
        assert(w == after_add(u, s, c));
        assert(w.deliveries.subrange(0, v.deliveries.len() as int)
            =~= u.deliveries.subrange(0, v.deliveries.len() as int));
        if w.deliveries.len() > 0 && u.deliveries.len() > 0 {
            assert(w.deliveries[0] == u.deliveries[0]);
        }
        assert forall|i: int|
            0 <= i < count && (#[trigger] subshares[i])@.player == v.player && subshares[i]@.dealer
                == commitments[i].dealer_index && subshares[i]@.dealer != 0 && v.dealers.contains(
                subshares[i]@.dealer,
            ) && subshares[i]@.value == poly(
                logs(commitments[i].coefficients@),
                v.player as int,
            ) % ord::<P>() implies w.delivered(subshares[i]@.dealer) by {
            if i < m {
                assert(u.delivered(subshares[i]@.dealer));
            } else {
                assert(add_outcome(u, s, c) is Ok);
            }
        }
    }
}

/// A batch is paired by dealer: where no two commitments are of one dealer, a sub-share is
/// held against the commitment of its own dealer, wherever that stands.
pub proof fn law_batch_pairs_by_dealer<P: OsstPoint>(
    player: u32,
    subshares: Seq<SubShare<P::Scalar>>,
    cs: Seq<DealerCommitment<P>>,
    i: int,
    k: int,
)
    requires
        0 <= i < subshares.len(),
        0 <= k < cs.len(),
        forall|a: int, b: int|
            0 <= a < cs.len() && 0 <= b < cs.len() && a != b ==> (#[trigger] cs[a]).dealer_index
                != (#[trigger] cs[b]).dealer_index,
        cs[k].dealer_index == subshares[i]@.dealer,
    ensures
        batch_expected(player, subshares, cs)[i] == poly(
            logs(cs[k].coefficients@),
            player as int,
        ) % ord::<P>(),
        is_paired(player, subshares[i]@, cs) <==> subshares[i]@.player == player,
{
    assert(is_first_of(cs, subshares[i]@.dealer, k));
    let j = choose|j: int| is_first_of(cs, subshares[i]@.dealer, j);
    assert(is_first_of(cs, subshares[i]@.dealer, j));
    assert(j == k);
}

/// A batch of valid sub-shares passes under all weights, and one that holds a sub-share
/// for another player, or of a dealer without a commitment, under none.
pub proof fn law_batch_verdicts<P: OsstPoint>(
    player: u32,
    subshares: &[SubShare<P::Scalar>],
    commitments: &[DealerCommitment<P>],
    weights: &[P::Scalar],
    passed: bool,
)
    requires
        weights@.len() == subshares@.len(),
        call_ensures(
            batch_verify_weighted::<P>,
            (player, subshares, commitments, weights),
            passed,
        ),
    ensures
        player != 0 && subshares@.len() > 0 && subshares@.len() == commitments@.len() && (forall|
            i: int,
        |
            0 <= i < subshares@.len() ==> {
                let s = (#[trigger] subshares@[i])@;
                &&& s.player == player
                &&& commitments@[i].dealer_index == s.dealer
                &&& s.value == poly(logs(commitments@[i].coefficients@), player as int) % ord::<
                    P,
                >()
            }) && (forall|a: int, b: int|
            0 <= a < commitments@.len() && 0 <= b < commitments@.len() && a != b ==> (
            #[trigger] commitments@[a]).dealer_index != (#[trigger] commitments@[b]).dealer_index)
            ==> passed,
        player == 0 || subshares@.len() != commitments@.len() || subshares@.len() == 0 ==> !passed,
        forall|i: int|
            0 <= i < subshares@.len() && passed ==> (#[trigger] subshares@[i])@.player == player,
        forall|i: int|
            0 <= i < subshares@.len() && passed ==> exists|k: int|
                0 <= k < commitments@.len() && (#[trigger] commitments@[k]).dealer_index == (
                #[trigger] subshares@[i])@.dealer,
{
    let cs = commitments@;
    if passed {
        assert forall|i: int| 0 <= i < subshares@.len() implies exists|k: int|
            0 <= k < cs.len() && (#[trigger] cs[k]).dealer_index == (
            #[trigger] subshares@[i])@.dealer by {
            assert(is_paired(player, subshares@[i]@, cs));
            let k = choose|k: int| is_first_of(cs, subshares@[i]@.dealer, k);
            assert(is_first_of(cs, subshares@[i]@.dealer, k));
            assert(cs[k].dealer_index == subshares@[i]@.dealer);
        }
    }
    if player != 0 && subshares@.len() > 0 && subshares@.len() == cs.len() && (forall|i: int|
        0 <= i < subshares@.len() ==> {
            let s = (#[trigger] subshares@[i])@;
            &&& s.player == player
            &&& cs[i].dealer_index == s.dealer
            &&& s.value == poly(logs(cs[i].coefficients@), player as int) % ord::<P>()
        }) && (forall|a: int, b: int|
        0 <= a < cs.len() && 0 <= b < cs.len() && a != b ==> (#[trigger] cs[a]).dealer_index != (
        #[trigger] cs[b]).dealer_index) {
        let (x, y) = (batch_values(subshares@), batch_expected(player, subshares@, cs));
        assert forall|i: int| 0 <= i < subshares@.len() implies is_paired(
            player,
            (#[trigger] subshares@[i])@,
            cs,
        ) && x[i] == y[i] by {
            assert(cs[i].dealer_index == subshares@[i]@.dealer);
            law_batch_pairs_by_dealer(player, subshares@, cs, i, i);
        }
        assert(x =~= y);
    }
}

// ---------------------------------------------------------------------------
// From call to call
// ---------------------------------------------------------------------------

/// What a dealer deals verifies, and nothing else does: the check of its commitment accepts
/// of all scalars, at a player, exactly the one that the dealer dealt to the player.
pub proof fn law_dealt_value_verifies<P: OsstPoint>(
    dealer: Dealer<P>,
    player: u32,
    dealt_share: Result<SubShare<P::Scalar>, OsstError>,
    commitment: &DealerCommitment<P>,
    candidate: P::Scalar,
    accepted: bool,
)
    requires
        dealer.wf(),
        call_ensures(Dealer::<P>::generate_subshare, (&dealer, player), dealt_share),
        call_ensures(Dealer::<P>::commitment, (&dealer,), commitment),
        call_ensures(
            DealerCommitment::<P>::verify_subshare,
            (commitment, player, &candidate),
            accepted,
        ),
    ensures
        dealt_share is Ok <==> player != 0,
        player == 0 ==> !accepted,
        dealt_share matches Ok(s) ==> s@.dealer == dealer@.index && s@.player == player && (accepted
            <==> candidate.val() == s@.value) && s@.value == poly(
            dealer@.polynomial,
            player as int,
        ) % ord::<P>(),
{
}

/// A dealer of a reshare deals its own share: whatever it draws, its polynomial has the
/// share at zero and as many coefficients as the new threshold.
pub proof fn law_dealer_deals_its_share<P: OsstPoint>(
    index: u32,
    share: P::Scalar,
    new_threshold: u32,
    rng: &mut OsRng,
    dealer: Dealer<P>,
    commitment: &DealerCommitment<P>,
)
    requires
        call_ensures(
            Dealer::<P>::new,
            (index, share, new_threshold, rng),
            Ok::<Dealer<P>, OsstError>(dealer),
        ),
        call_ensures(Dealer::<P>::commitment, (&dealer,), commitment),
    ensures
        poly(logs(commitment.coefficients@), 0) == share.val(),
        commitment.coefficients@.len() == new_threshold,
        commitment.dealer_index == index,
        index != 0,
{
    assert(logs(commitment.coefficients@).len() == commitment.coefficients@.len());
    lemma_poly_zero(logs(commitment.coefficients@));
}

/// A sub-share is taken exactly where it is for the player, from the dealer of its
/// commitment, a dealer of the set that has not delivered, to the threshold of the others,
/// and the value on the commitment; it is then the last delivery, and otherwise nothing
/// changes.
pub proof fn law_subshare_taken<P: OsstPoint>(
    aggregator: &mut Aggregator<P>,
    subshare: SubShare<P::Scalar>,
    commitment: DealerCommitment<P>,
    r: Result<bool, OsstError>,
)
    requires
        call_ensures(Aggregator::<P>::add_subshare, (aggregator, subshare, commitment), r),
    ensures
        r == Ok::<bool, OsstError>(true) <==> {
            &&& subshare@.player == old(aggregator)@.player
            &&& subshare@.dealer == commitment.dealer_index
            &&& subshare@.dealer != 0
            &&& old(aggregator)@.dealers.contains(subshare@.dealer)
            &&& !old(aggregator)@.delivered(subshare@.dealer)
            &&& old(aggregator)@.deliveries.len() > 0 ==> old(
                aggregator,
            )@.deliveries[0].polynomial.len() == commitment.coefficients@.len()
            &&& subshare@.value == poly(
                logs(commitment.coefficients@),
                old(aggregator)@.player as int,
            ) % ord::<P>()
        },
        r == Ok::<bool, OsstError>(true) ==> final(aggregator)@.deliveries == old(
            aggregator,
        )@.deliveries.push(
            DeliveryView {
                dealer: subshare@.dealer,
                value: subshare@.value,
                polynomial: logs(commitment.coefficients@),
            },
        ),
        r != Ok::<bool, OsstError>(true) ==> final(aggregator)@ == old(aggregator)@,
        final(aggregator)@.player == old(aggregator)@.player,
        final(aggregator)@.dealers == old(aggregator)@.dealers,
        r == Ok::<bool, OsstError>(false) ==> old(aggregator)@.delivered(subshare@.dealer),
        r matches Err(OsstError::UnexpectedDealer(d)) ==> d == subshare@.dealer && !old(
            aggregator,
        )@.dealers.contains(d),
{
}

/// Missing dealers are those of the set that have not delivered, all of them, and none is
/// missing exactly where the aggregator is complete.
pub proof fn law_missing_dealers<P: OsstPoint>(
    aggregator: Aggregator<P>,
    missing: Vec<u32>,
    complete: bool,
)
    requires
        aggregator.wf(),
        call_ensures(Aggregator::<P>::missing_dealers, (&aggregator,), missing),
        call_ensures(Aggregator::<P>::is_complete, (&aggregator,), complete),
    ensures
        forall|d: u32| #[trigger]
            missing@.contains(d) <==> aggregator@.dealers.contains(d) && !aggregator@.delivered(d),
        complete <==> missing@.len() == 0,
{
    let keep = |d: u32| !aggregator@.delivered(d);
    let ds = aggregator@.dealers;
    assert forall|d: u32| #[trigger] missing@.contains(d) <==> ds.contains(d)
        && !aggregator@.delivered(d) by {
        broadcast use vstd::seq_lib::group_filter_ensures;

        if missing@.contains(d) {
            ds.lemma_filter_contains_rev(keep, d);
            let i = choose|i: int| 0 <= i < missing@.len() && missing@[i] == d;
            assert(keep(missing@[i]));
        }
        if ds.contains(d) && keep(d) {
            assert(ds.filter(keep).contains(d));
        }
    }
    law_complete_when_all_delivered(aggregator@, ord::<P>());
    if missing@.len() == 0 {
        assert forall|d: u32| #[trigger] ds.contains(d) implies aggregator@.delivered(d) by {
            assert(!missing@.contains(d));
        }
    } else {
        assert(missing@.contains(missing@[0]));
        assert(ds.contains(missing@[0]));
    }
}

/// Resharing, from the players' results: where players finalize over one dealer set and the
/// same commitments, all have one polynomial, whose value at zero is the expected group key,
/// and the new shares of any of them, at least as many as the new threshold, give its
/// discrete logarithm with their Lagrange coefficients.
pub proof fn law_results_share_kept_key<P: OsstPoint>(
    aggregators: Seq<Aggregator<P>>,
    key: P,
    results: Seq<(P::Scalar, SharePolynomial<P>)>,
)
    requires
        is_field(ord::<P>()),
        aggregators.len() > 0,
        results.len() == aggregators.len(),
        0 < aggregators[0]@.threshold() <= aggregators.len(),
        forall|i: int|
            #![trigger aggregators[i]]
            0 <= i < aggregators.len() ==> {
                &&& aggregators[i].wf()
                &&& call_ensures(
                    Aggregator::<P>::finalize,
                    (&aggregators[i], &key),
                    Ok::<(P::Scalar, SharePolynomial<P>), OsstError>(results[i]),
                )
                &&& aggregators[i]@.dealers == aggregators[0]@.dealers
            },
        forall|i: int, a: int, b: int|
            0 <= i < aggregators.len() && 0 <= a < aggregators[0]@.deliveries.len() && 0 <= b
                < aggregators[i]@.deliveries.len()
                && #[trigger] aggregators[0]@.deliveries[a].dealer
                == #[trigger] aggregators[i]@.deliveries[b].dealer
                ==> aggregators[0]@.deliveries[a].polynomial
                == aggregators[i]@.deliveries[b].polynomial,
        forall|i: int, j: int|
            0 <= i < aggregators.len() && 0 <= j < aggregators.len() && i != j ==> (
            #[trigger] aggregators[i])@.player != (#[trigger] aggregators[j])@.player,
    ensures
        forall|i: int|
            0 <= i < results.len() ==> (#[trigger] results[i]).1@ == results[0].1@,
        dot(
            coefficients(
                Seq::new(aggregators.len(), |i: int| aggregators[i]@.player),
                ord::<P>(),
            ),
            Seq::new(results.len(), |i: int| results[i].0.val()),
        ) % ord::<P>() == key.log(),
{
    let n = ord::<P>();
    let players = Seq::new(aggregators.len(), |i: int| aggregators[i]@.player);
    let shares = Seq::new(results.len(), |i: int| results[i].0.val());
    let f = aggregators[0]@.polynomial(n);
    <P::Scalar as OsstScalar>::lemma_order();
    assert forall|i: int| 0 <= i < results.len() implies (#[trigger] results[i]).1@ == f
        && shares[i] == poly(f, players[i] as int) % n && f[0] == key.log()
        && aggregators[i]@.complete() by {
        let (a, b) = (aggregators[0], aggregators[i]);
        assert(call_ensures(
            Aggregator::<P>::finalize,
            (&a, &key),
            Ok::<(P::Scalar, SharePolynomial<P>), OsstError>(results[0]),
        ));
        assert(call_ensures(
            Aggregator::<P>::finalize,
            (&b, &key),
            Ok::<(P::Scalar, SharePolynomial<P>), OsstError>(results[i]),
        ));
        law_same_polynomial(a@, b@, n);
    }
    assert(results[0].1@ == f);
    assert forall|i: int, j: int| 0 <= i < players.len() && 0 <= j < players.len() && i
        != j implies players[i] != players[j] by {
        assert(aggregators[i]@.player != aggregators[j]@.player);
    }
    lemma_polynomial_len(aggregators[0]@, n);
    assert forall|i: int| 0 <= i < players.len() implies #[trigger] shares[i] == poly(
        f,
        players[i] as int,
    ) % n by {
        assert(results[i].1@ == f);
    }
    law_new_shares_reconstruct(f, players, shares, n);
    key.lemma_log();
    lemma_small_mod(key.log() as nat, n as nat);
}

/// A reshared share is verifiable: the polynomial accepts of all scalars, for a player,
/// exactly the one whose public share is the player's verifying share.
pub proof fn law_share_and_verifying_share<P: OsstPoint>(
    polynomial: SharePolynomial<P>,
    player: u32,
    share: P::Scalar,
    accepted: bool,
    verifying_share: P,
    evaluated: Result<P, OsstError>,
)
    requires
        player != 0,
        call_ensures(SharePolynomial::<P>::verify_share, (&polynomial, player, &share), accepted),
        call_ensures(
            SharePolynomial::<P>::verifying_share,
            (&polynomial, player),
            verifying_share,
        ),
        call_ensures(SharePolynomial::<P>::evaluate_at, (&polynomial, player), evaluated),
    ensures
        accepted <==> share.val() == verifying_share.log(),
        evaluated matches Ok(p) && p.log() == verifying_share.log(),
{
}

/// Commitments, sub-shares and polynomials are read back as they were written, from call to
/// call.
pub proof fn law_written_commitments_read_back<P: OsstPoint>(
    commitment: DealerCommitment<P>,
    bytes: Vec<u8>,
    slice: &[u8],
    read: Result<DealerCommitment<P>, OsstError>,
    polynomial: SharePolynomial<P>,
    polynomial_bytes: Vec<u8>,
    polynomial_slice: &[u8],
    polynomial_read: Result<SharePolynomial<P>, OsstError>,
)
    requires
        commitment.dealer_index != 0,
        0 < commitment.coefficients@.len() <= u32::MAX,
        call_ensures(DealerCommitment::<P>::to_bytes, (&commitment,), bytes),
        slice@ == bytes@,
        call_ensures(
            DealerCommitment::<P>::from_bytes,
            (slice, commitment.coefficients@.len() as u32),
            read,
        ),
        0 < polynomial@.len() <= u32::MAX,
        call_ensures(SharePolynomial::<P>::to_bytes, (&polynomial,), polynomial_bytes),
        polynomial_slice@ == polynomial_bytes@,
        call_ensures(
            SharePolynomial::<P>::from_bytes,
            (polynomial_slice, polynomial@.len() as u32),
            polynomial_read,
        ),
    ensures
        read matches Ok(c) && c.dealer_index == commitment.dealer_index && c.polynomial()
            == commitment.polynomial(),
        polynomial_read matches Ok(p) && p@ == polynomial@,
{
}

/// A commitment that is submitted to a round fills the slot of its dealer exactly where it
/// is the first of one of the old dealers to the new threshold, and nothing else changes.
pub proof fn law_submitted_commitment_fills_slot<P: OsstPoint>(
    state: &mut ReshareState<P>,
    commitment: DealerCommitment<P>,
    r: Result<bool, OsstError>,
)
    requires
        call_ensures(ReshareState::<P>::submit_commitment, (state, commitment), r),
    ensures
        r == Ok::<bool, OsstError>(true) <==> {
            &&& 1 <= commitment.dealer_index <= old(state).commitments@.len()
            &&& commitment.coefficients@.len() as u32 == old(state).new_threshold
            &&& old(state).commitments@[commitment.dealer_index - 1] is None
        },
        r == Ok::<bool, OsstError>(true) ==> filled(final(state).commitments@) == filled(
            old(state).commitments@,
        ).insert(commitment.dealer_index - 1),
        r == Ok::<bool, OsstError>(true)
            ==> final(state).commitments@[commitment.dealer_index - 1] == Some(commitment),
        r != Ok::<bool, OsstError>(true) ==> final(state).commitments@ == old(state).commitments@,
        final(state).old_threshold == old(state).old_threshold,
        final(state).new_threshold == old(state).new_threshold,
        final(state).group_key == old(state).group_key,
{
    if r == Ok::<bool, OsstError>(true) {
        assert(filled(final(state).commitments@) =~= filled(old(state).commitments@).insert(
            commitment.dealer_index - 1,
        ));
    }
}

/// What a player derives belongs together: its share lies on the polynomial, the group key is
/// the polynomial's value at zero, and the polynomial has the threshold that the dealers
/// committed to.
pub proof fn law_derived_values_agree<P: OsstPoint>(
    aggregator: Aggregator<P>,
    share: P::Scalar,
    polynomial: SharePolynomial<P>,
    key: P,
)
    requires
        aggregator.wf(),
        aggregator@.threshold() > 0,
        call_ensures(Aggregator::<P>::aggregate, (&aggregator,), Ok::<P::Scalar, OsstError>(share)),
        call_ensures(
            Aggregator::<P>::polynomial,
            (&aggregator,),
            Ok::<SharePolynomial<P>, OsstError>(polynomial),
        ),
        call_ensures(Aggregator::<P>::derive_group_key, (&aggregator,), Ok::<P, OsstError>(key)),
    ensures
        share.val() == poly(polynomial@, aggregator@.player as int) % ord::<P>(),
        key.log() == poly(polynomial@, 0),
        polynomial@.len() == aggregator@.deliveries[0].polynomial.len(),
{
    <P::Scalar as OsstScalar>::lemma_order();
    law_share_on_polynomial(aggregator@, ord::<P>());
    lemma_polynomial_len(aggregator@, ord::<P>());
    lemma_poly_zero(polynomial@);
}

/// A dealer deals to each what it deals to one: the sub-shares of all players are those that
/// are generated one by one, in order.
pub proof fn law_dealt_to_all<P: OsstPoint>(
    dealer: Dealer<P>,
    n: u32,
    all: Vec<SubShare<P::Scalar>>,
    i: int,
    one: Result<SubShare<P::Scalar>, OsstError>,
)
    requires
        dealer.wf(),
        call_ensures(Dealer::<P>::generate_subshares, (&dealer, n), all),
        0 <= i < n,
        call_ensures(Dealer::<P>::generate_subshare, (&dealer, (i + 1) as u32), one),
    ensures
        all@.len() == n,
        one matches Ok(s) && s@ == all@[i]@,
{
}

/// A commitment that is read is the one that its bytes are the encoding of: of a dealer, with
/// as many coefficients as asked for.
pub proof fn law_read_commitment<P: OsstPoint>(
    bytes: &[u8],
    threshold: u32,
    c: DealerCommitment<P>,
)
    requires
        call_ensures(
            DealerCommitment::<P>::from_bytes,
            (bytes, threshold),
            Ok::<DealerCommitment<P>, OsstError>(c),
        ),
    ensures
        c.dealer_index != 0,
        c.coefficients@.len() == threshold,
        bytes@ == commitment_bytes::<P>(c@),
{
    let b = bytes@.subrange(4, bytes@.len() as int);
    let size = P::COMPRESSED_SIZE as int;
    assert(0 <= threshold * P::COMPRESSED_SIZE) by (nonlinear_arith);
    crate::shamir::lemma_decoded::<P>(b, threshold as nat);
    lemma_byte_bounds();
    lemma_le_value(bytes@.subrange(0, 4));
    law_commitment_round_trip::<P>(c@, bytes@, threshold);
}

/// A batch with random weights is paired, and one of valid sub-shares passes whatever is
/// drawn.
pub proof fn law_random_batch<P: OsstPoint>(
    player: u32,
    subshares: &[SubShare<P::Scalar>],
    commitments: &[DealerCommitment<P>],
    rng: &mut OsRng,
    passed: bool,
)
    requires
        call_ensures(batch_verify_subshares::<P>, (player, subshares, commitments, rng), passed),
    ensures
        passed ==> player != 0 && subshares@.len() == commitments@.len() && subshares@.len() > 0
            && forall|i: int|
            0 <= i < subshares@.len() ==> (#[trigger] subshares@[i])@.player == player,
        player != 0 && subshares@.len() > 0 && subshares@.len() == commitments@.len() && (forall|
            i: int,
        |
            0 <= i < subshares@.len() ==> {
                let s = (#[trigger] subshares@[i])@;
                &&& s.player == player
                &&& commitments@[i].dealer_index == s.dealer
                &&& s.value == poly(logs(commitments@[i].coefficients@), player as int) % ord::<
                    P,
                >()
            }) && (forall|a: int, b: int|
            0 <= a < commitments@.len() && 0 <= b < commitments@.len() && a != b ==> (
            #[trigger] commitments@[a]).dealer_index != (#[trigger] commitments@[b]).dealer_index)
            ==> passed,
{
    let cs = commitments@;
    if player != 0 && subshares@.len() > 0 && subshares@.len() == cs.len() && (forall|i: int|
        0 <= i < subshares@.len() ==> {
            let s = (#[trigger] subshares@[i])@;
            &&& s.player == player
            &&& cs[i].dealer_index == s.dealer
            &&& s.value == poly(logs(cs[i].coefficients@), player as int) % ord::<P>()
        }) && (forall|a: int, b: int|
        0 <= a < cs.len() && 0 <= b < cs.len() && a != b ==> (#[trigger] cs[a]).dealer_index != (
        #[trigger] cs[b]).dealer_index) {
        let (x, y) = (batch_values(subshares@), batch_expected(player, subshares@, cs));
        assert forall|i: int| 0 <= i < subshares@.len() implies is_paired(
            player,
            (#[trigger] subshares@[i])@,
            cs,
        ) && x[i] == y[i] by {
            assert(cs[i].dealer_index == subshares@[i]@.dealer);
            law_batch_pairs_by_dealer(player, subshares@, cs, i, i);
        }
        assert(x =~= y);
    }
}

/// Text for debugging gives nothing away: sub-shares of one dealer and player have one text,
/// whatever their values are.
pub proof fn law_debug_text_hides_value<S: OsstScalar>(
    a: SubShare<S>,
    b: SubShare<S>,
    text_a: String,
    text_b: String,
)
    requires
        a@.dealer == b@.dealer,
        a@.player == b@.player,
        call_ensures(SubShare::<S>::debug_text, (&a,), text_a),
        call_ensures(SubShare::<S>::debug_text, (&b,), text_b),
    ensures
        text_a@ == text_b@,
{
}

/// Results are owed: a player has its share, its polynomial and the group key exactly where
/// every dealer of its set has delivered, and finalizes exactly where moreover the
/// polynomial's value at zero is the expected key.
pub proof fn law_results_are_owed<P: OsstPoint>(
    aggregator: Aggregator<P>,
    expected: P,
    share: Result<P::Scalar, OsstError>,
    polynomial: Result<SharePolynomial<P>, OsstError>,
    key: Result<P, OsstError>,
    finalized: Result<(P::Scalar, SharePolynomial<P>), OsstError>,
)
    requires
        aggregator.wf(),
        aggregator@.complete() ==> aggregator@.threshold() > 0,
        call_ensures(Aggregator::<P>::aggregate, (&aggregator,), share),
        call_ensures(Aggregator::<P>::polynomial, (&aggregator,), polynomial),
        call_ensures(Aggregator::<P>::derive_group_key, (&aggregator,), key),
        call_ensures(Aggregator::<P>::finalize, (&aggregator, &expected), finalized),
    ensures
        share is Ok <==> forall|d: u32| #[trigger]
            aggregator@.dealers.contains(d) ==> aggregator@.delivered(d),
        polynomial is Ok <==> share is Ok,
        key is Ok <==> share is Ok,
        finalized is Ok <==> (key matches Ok(k) && k.log() == expected.log()),
        finalized is Ok ==> finalized->Ok_0.0.val() == share->Ok_0.val() && finalized->Ok_0.1@
            == polynomial->Ok_0@,
        share matches Err(e) ==> e == (OsstError::InsufficientContributions {
            got: aggregator@.deliveries.len() as usize,
            need: aggregator@.dealers.len() as usize,
        }),
        share is Ok && finalized is Err ==> finalized->Err_0 == OsstError::InvalidCommitment,
{
    law_complete_when_all_delivered(aggregator@, ord::<P>());
}

/// Dealers, commitments and sub-shares are made exactly of what makes one: an index, or two,
/// that is not zero, and a coefficient at least; and hold what they were made of.
pub proof fn law_made_of_parts<P: OsstPoint>(
    index: u32,
    player: u32,
    polynomial: Vec<P::Scalar>,
    slice: &[P::Scalar],
    value: P::Scalar,
    dealer: Result<Dealer<P>, OsstError>,
    commitment: Result<DealerCommitment<P>, OsstError>,
    subshare: Result<SubShare<P::Scalar>, OsstError>,
    evaluated: Result<P, OsstError>,
)
    requires
        slice@ == polynomial@,
        call_ensures(Dealer::<P>::from_polynomial, (index, polynomial), dealer),
        call_ensures(DealerCommitment::<P>::from_polynomial, (index, slice), commitment),
        call_ensures(SubShare::<P::Scalar>::new, (index, player, value), subshare),
        commitment is Ok ==> call_ensures(
            DealerCommitment::<P>::evaluate_at,
            (&commitment->Ok_0, player),
            evaluated,
        ),
    ensures
        dealer is Ok <==> index != 0 && polynomial@.len() > 0,
        dealer matches Ok(d) ==> d@.index == index && d@.polynomial == vals(polynomial@),
        commitment is Ok <==> index != 0 && polynomial@.len() > 0,
        commitment matches Ok(c) ==> c.dealer_index == index && logs(c.coefficients@) == vals(
            polynomial@,
        ),
        subshare is Ok <==> index != 0 && player != 0,
        subshare matches Ok(s) ==> s@.dealer == index && s@.player == player && s@.value
            == value.val(),
        commitment is Ok ==> (evaluated is Ok <==> player != 0),
        commitment is Ok && evaluated is Ok ==> evaluated->Ok_0.log() == poly(
            vals(polynomial@),
            player as int,
        ) % ord::<P>(),
{
}

/// An aggregator is over the dealers that it was made for, exactly the listed ones, with
/// nothing delivered; and is made exactly of a player and a set of dealers.
pub proof fn law_aggregator_over_its_dealers<P: OsstPoint>(
    player: u32,
    dealer_set: &[u32],
    r: Result<Aggregator<P>, OsstError>,
)
    requires
        call_ensures(Aggregator::<P>::new, (player, dealer_set), r),
    ensures
        r is Ok <==> player != 0 && dealer_set@.len() > 0 && dealer_set@.no_duplicates()
            && !dealer_set@.contains(0),
        r matches Ok(a) ==> a@.player == player && a@.deliveries.len() == 0 && forall|d: u32|
            a@.dealers.contains(d) <==> #[trigger] dealer_set@.contains(d),
        player == 0 ==> r == Err::<Aggregator<P>, OsstError>(OsstError::InvalidIndex),
{
}

/// A round begins with a slot for each old dealer, and nothing in them.
pub proof fn law_round_begins_empty<P: OsstPoint>(
    epoch: u64,
    dealers: u32,
    old_threshold: u32,
    new_threshold: u32,
    players: u32,
    key: P,
    state: ReshareState<P>,
)
    requires
        call_ensures(
            ReshareState::<P>::new,
            (epoch, dealers, old_threshold, new_threshold, players, key),
            state,
        ),
    ensures
        state.commitments@.len() == dealers,
        filled(state.commitments@).len() == 0,
        state.old_threshold == old_threshold,
        state.new_threshold == new_threshold,
        state.target_epoch == epoch,
        state.new_player_count == players,
        state.group_key == key,
{
    assert(filled(state.commitments@) =~= Set::empty());
}

/// An inner product with one factor exchanged.
proof fn lemma_dot_exchange(a: Seq<int>, b: Seq<int>, k: int, x: int)
    requires
        a.len() == b.len(),
        0 <= k < b.len(),
    ensures
        dot(a, b.update(k, x)) == dot(a, b) + a[k] * (x - b[k]),
    decreases b.len(),
{
    let c = b.update(k, x);
    let m = b.len() - 1;
    if k == m {
        assert(c.drop_last() =~= b.drop_last());
        assert(a[m] * x == a[m] * b[m] + a[m] * (x - b[m])) by (nonlinear_arith);
    } else {
        assert(c.drop_last() =~= b.drop_last().update(k, x));
        lemma_dot_exchange(a.drop_last(), b.drop_last(), k, x);
    }
}

/// One bad sub-share is always caught: a batch in which all sub-shares but one are the values
/// committed to is refused, whatever weights are drawn.
pub proof fn law_single_bad_subshare_caught<P: OsstPoint>(
    player: u32,
    subshares: &[SubShare<P::Scalar>],
    commitments: &[DealerCommitment<P>],
    rng: &mut OsRng,
    k: int,
    passed: bool,
)
    requires
        is_field(ord::<P>()),
        call_ensures(batch_verify_subshares::<P>, (player, subshares, commitments, rng), passed),
        subshares@.len() == commitments@.len(),
        forall|a: int, b: int|
            0 <= a < commitments@.len() && 0 <= b < commitments@.len() && a != b ==> (
            #[trigger] commitments@[a]).dealer_index != (#[trigger] commitments@[b]).dealer_index,
        forall|i: int|
            0 <= i < subshares@.len() ==> commitments@[i].dealer_index == (
            #[trigger] subshares@[i])@.dealer,
        0 <= k < subshares@.len(),
        forall|i: int|
            0 <= i < subshares@.len() && i != k ==> (#[trigger] subshares@[i])@.value == poly(
                logs(commitments@[i].coefficients@),
                player as int,
            ) % ord::<P>(),
        !eqm(
            subshares@[k]@.value,
            poly(logs(commitments@[k].coefficients@), player as int),
            ord::<P>(),
        ),
    ensures
        !passed,
{
    let n = ord::<P>();
    let cs = commitments@;
    let (x, y) = (batch_values(subshares@), batch_expected(player, subshares@, cs));
    let weights = choose|weights: Seq<int>| #[trigger]
        are_weights(weights, subshares@.len(), n) && passed == (batch_paired(
            player,
            subshares@,
            cs,
        ) && eqm(dot(weights, x), dot(weights, y), n));
    assert forall|i: int| 0 <= i < subshares@.len() implies #[trigger] y[i] == poly(
        logs(cs[i].coefficients@),
        player as int,
    ) % n by {
        assert(cs[i].dealer_index == subshares@[i]@.dealer);
        law_batch_pairs_by_dealer(player, subshares@, cs, i, i);
    }
    assert(x =~= y.update(k, x[k])) by {
        assert forall|i: int| 0 <= i < x.len() && i != k implies x[i] == y[i] by {
            assert(subshares@[i]@.value == y[i]);
        }
    }
    lemma_dot_exchange(weights, y, k, x[k]);
    if passed {
        let d = x[k] - y[k];
        let w = weights[k];
        lemma_eqm_sub(dot(weights, x), dot(weights, y), dot(weights, y), dot(weights, y), n);
        assert(eqm(w * d, 0, n));
        lemma_small_mod(w as nat, n as nat);
        lemma_small_mod(0, n as nat);
        assert(!eqm(w, 0, n));
        assert(w * 0 == 0);
        lemma_cancel(w, d, 0, n);
        lemma_eqm_add(d, 0, y[k], y[k], n);
        lemma_eqm_mod(poly(logs(cs[k].coefficients@), player as int), n);
    }
}

/// A size is the size of what is written, and a commitment's first coefficient is its value
/// at zero.
pub proof fn law_commitment_parts<P: OsstPoint>(
    commitment: DealerCommitment<P>,
    written: Vec<u8>,
    size: usize,
    first: &P,
    polynomial: SharePolynomial<P>,
    key: &P,
    threshold: u32,
)
    requires
        commitment.coefficients@.len() > 0,
        polynomial@.len() > 0,
        call_ensures(DealerCommitment::<P>::to_bytes, (&commitment,), written),
        call_ensures(DealerCommitment::<P>::byte_size, (&commitment,), size),
        call_ensures(DealerCommitment::<P>::share_commitment, (&commitment,), first),
        call_ensures(DealerCommitment::<P>::threshold, (&commitment,), threshold),
        call_ensures(SharePolynomial::<P>::group_key, (&polynomial,), key),
    ensures
        written@.len() == size,
        first.log() == poly(logs(commitment.coefficients@), 0),
        key.log() == poly(polynomial@, 0),
        commitment.coefficients@.len() <= u32::MAX ==> threshold == commitment.coefficients@.len(),
{
    lemma_poly_zero(logs(commitment.coefficients@));
    lemma_poly_zero(polynomial@);
}

/// As many commitments are counted and listed as slots are filled.
pub proof fn law_counted_commitments<P: OsstPoint>(
    state: ReshareState<P>,
    count: usize,
    listed: Vec<&DealerCommitment<P>>,
)
    requires
        call_ensures(ReshareState::<P>::commitment_count, (&state,), count),
        call_ensures(ReshareState::<P>::get_commitments, (&state,), listed),
    ensures
        count == filled(state.commitments@).len(),
        listed@.len() == count,
{
    law_submitted_fill_slots(state.commitments@);
}

/// A polynomial that is read is the one that its bytes are the encoding of, with as many
/// coefficients as asked for, at least one.
pub proof fn law_read_polynomial<P: OsstPoint>(
    bytes: &[u8],
    threshold: u32,
    p: SharePolynomial<P>,
)
    requires
        call_ensures(
            SharePolynomial::<P>::from_bytes,
            (bytes, threshold),
            Ok::<SharePolynomial<P>, OsstError>(p),
        ),
    ensures
        threshold > 0,
        p@.len() == threshold,
        bytes@ == points_bytes::<P>(p@),
{
    crate::shamir::lemma_decoded::<P>(bytes@, threshold as nat);
    law_points_round_trip::<P>(p@, bytes@);
}

} // verus!
