//! Nested FROST: one outer share controlled by an inner threshold group.
//!
//! The inner group collectively holds one position in an outer FROST scheme. The
//! outer share's secret never exists as a single scalar: it is born distributed,
//! by an interleaved key generation, and used distributed, by nested signing.
//!
//! 1. Inner holders agree a session id, generate nonce pairs, publish a hash of
//!    their commitments, then reveal them.
//! 2. The sum of the commitments is presented to the outer protocol as the
//!    nested position's ordinary commitments.
//! 3. The outer protocol computes its binding factor `rho` and challenge `c`
//!    exactly as for any other signer.
//! 4. Each inner holder recomputes both from the outer package, refuses to sign
//!    any message but the one it approved, and answers
//!    `z_k = d_k + rho e_k + (lambda c mu_k) s_k`.
//! 5. Shares are verified one by one, then summed.
//!
//! The inner group must be treated as one trust unit: as many corrupt holders as
//! its threshold are a corrupt outer signer.
use rand_core::OsRng;
use vstd::arithmetic::div_mod::lemma_small_mod;
use vstd::prelude::*;

use crate::bytes::{
    bytes_eq, copy_vec, get_array32, le_bytes, lemma_byte_bounds, lemma_concat_split,
    lemma_le_bytes, lemma_le_bytes_injective, put_slice, put_u32,
};
use crate::context::SigningContext;
use crate::curve::{has_encoding, lemma_encodings, ord, vals, OsstPoint, OsstScalar};
use crate::dkg;
use crate::error::OsstError;
use crate::frost::{
    expected_response, response_value, NoncesView, PackageView, SignerView, SigningPackage,
};
use crate::hash::{sha512, sha512_digest};
use crate::lagrange::{coefficients, compute_lagrange_coefficients, lemma_reconstruct};
use crate::math::{
    combine, dot, eqm, evaluations, is_field, lemma_combine, lemma_dot_ones, lemma_dot_push,
    lemma_eqm_add, lemma_eqm_mod, lemma_eqm_mul, lemma_mod_add, lemma_mod_mul, lemma_poly_eqm,
    lemma_poly_zero, poly, sum,
};
use crate::reshare::{DealerCommitment, DealerView};
use crate::sets::{
    contains_index, index_position, insert_index, lemma_at_most, lemma_same_multiset, lemma_sum_by_push,
    lemma_sum_permutation, sum_by,
};
use crate::shamir::{base_mul, eval_scalars};
use crate::share::{SecretShare, SecretShareView};
use crate::text::{ascii, decimal, put_decimal, put_text};

verus! {

/// Domain of the round-0 hash: `frostito-inner-precommit-v2`.
pub const PRECOMMIT_DOMAIN: [u8; 27] = [
    102u8, 114u8, 111u8, 115u8, 116u8, 105u8, 116u8, 111u8, 45u8, 105u8, 110u8, 110u8, 101u8,
    114u8, 45u8, 112u8, 114u8, 101u8, 99u8, 111u8, 109u8, 109u8, 105u8, 116u8, 45u8, 118u8, 50u8,
];

// ---------------------------------------------------------------------------
// Interleaved key generation
// ---------------------------------------------------------------------------

/// The inner key generation of one coefficient of the nested position's outer
/// polynomial: one dealer per inner holder.
pub struct CoefficientDkg<P: OsstPoint> {
    /// Which outer polynomial coefficient this is for (0-indexed).
    pub coeff_index: u32,
    /// Inner dealers, one per inner holder.
    pub dealers: Vec<dkg::Dealer<P>>,
}

/// The result of the interleaved key generation for one inner holder.
pub struct InnerShare<S: OsstScalar> {
    /// Inner holder's index (1-indexed).
    pub holder_index: u32,
    /// The holder's share of each outer polynomial coefficient.
    pub coefficient_shares: Vec<S>,
}

impl<S: OsstScalar> InnerShare<S> {
    /// This holder's share of the outer polynomial's value at `x`.
    pub fn eval_at(&self, x: u32) -> (r: S)
        ensures
            r.val() == poly(vals(self.coefficient_shares@), x as int) % S::order(),
    {
        eval_scalars::<S>(&self.coefficient_shares, x)
    }
}

/// The output of [`interleaved_dkg`]: one [`InnerShare`] per inner holder, and
/// the commitment to each coefficient of the outer polynomial.
pub type InterleavedDkg<P> = (Vec<InnerShare<<P as OsstPoint>::Scalar>>, Vec<P>);

/// What the dealers of one coefficient hold.
pub open spec fn dealer_views<P: OsstPoint>(ds: Seq<dkg::Dealer<P>>) -> Seq<DealerView> {
    Seq::new(ds.len(), |i: int| ds[i]@)
}

/// The sum of the dealers' values at a holder.
pub open spec fn dealt_sum(ds: Seq<DealerView>, holder: u32) -> int {
    sum(Seq::new(ds.len(), |i: int| poly(ds[i].polynomial, holder as int)))
}

/// The sum of the dealers' constant terms.
pub open spec fn constant_sum(ds: Seq<DealerView>) -> int {
    sum(Seq::new(ds.len(), |i: int| ds[i].polynomial[0]))
}

/// Dealers `1..=n` that hold their polynomials.
pub open spec fn is_dealing<P: OsstPoint>(ds: Seq<dkg::Dealer<P>>, n: u32) -> bool {
    &&& ds.len() == n
    &&& forall|i: int| 0 <= i < ds.len() ==> (#[trigger] ds[i]).wf() && ds[i]@.index == i + 1
}

/// The commitment to one coefficient: the sum of the dealers' constant terms.
fn coefficient_commitment<P: OsstPoint>(dealers: &[dkg::Dealer<P>]) -> (r: P)
    requires
        is_dealing(dealers@, dealers@.len() as u32),
        dealers@.len() <= u32::MAX,
    ensures
        r.log() == constant_sum(dealer_views(dealers@)) % ord::<P>(),
{
    let ghost n = ord::<P>();
    let ghost ds = dealer_views(dealers@);
    let ghost cs = Seq::new(ds.len(), |i: int| ds[i].polynomial[0]);
    proof {
        <P::Scalar as OsstScalar>::lemma_order();
        lemma_small_mod(0, n as nat);
        assert(cs.subrange(0, 0).len() == 0);
    }
    let mut commitment = P::identity();
    let mut i: usize = 0;
    while i < dealers.len()
        invariant
            i <= dealers@.len(),
            is_dealing(dealers@, dealers@.len() as u32),
            n == ord::<P>(),
            n > 0,
            ds == dealer_views(dealers@),
            cs == Seq::new(ds.len(), |i: int| ds[i].polynomial[0]),
            commitment.log() == sum(cs.subrange(0, i as int)) % n,
        decreases dealers@.len() - i,
    {
        assert(dealers@[i as int].wf());
        commitment = commitment.add(dealers[i].commitment().share_commitment());
        proof {
            assert(cs.subrange(0, i as int + 1).drop_last() =~= cs.subrange(0, i as int));
            lemma_mod_add(sum(cs.subrange(0, i as int)), cs[i as int], n);
        }
        i += 1;
    }
    assert(cs.subrange(0, i as int) =~= cs);
    commitment
}

/// One holder's share of one coefficient: the sum of what the dealers deal it,
/// each sub-share verified against its dealer's commitment.
fn coefficient_share<P: OsstPoint>(dealers: &[dkg::Dealer<P>], holder: u32) -> (r: Result<
    P::Scalar,
    OsstError,
>)
    requires
        is_dealing(dealers@, dealers@.len() as u32),
        0 < dealers@.len() <= u32::MAX,
        holder != 0,
    ensures
        r is Ok,
        r matches Ok(s) ==> s.val() == dealt_sum(dealer_views(dealers@), holder) % ord::<P>(),
{
    let ghost n = ord::<P>();
    let ghost ds = dealer_views(dealers@);
    let mut agg = match dkg::Aggregator::<P>::all_dealers(holder, dealers.len() as u32) {
        Ok(a) => a,
        Err(e) => return Err(e),
    };
    let mut i: usize = 0;
    while i < dealers.len()
        invariant
            i <= dealers@.len(),
            is_dealing(dealers@, dealers@.len() as u32),
            0 < dealers@.len() <= u32::MAX,
            holder != 0,
            n == ord::<P>(),
            ds == dealer_views(dealers@),
            agg.wf(),
            agg@.player == holder,
            agg@.dealers.len() == dealers@.len(),
            forall|d: u32| #[trigger] agg@.dealers.contains(d) <==> 1 <= d <= dealers@.len(),
            agg@.deliveries.len() == i,
            forall|k: int|
                0 <= k < i ==> (#[trigger] agg@.deliveries[k]).dealer == k + 1
                    && agg@.deliveries[k].polynomial == ds[k].polynomial
                    && agg@.deliveries[k].value == poly(ds[k].polynomial, holder as int) % n,
        decreases dealers@.len() - i,
    {
        assert(dealers@[i as int].wf());
        let subshare = match dealers[i].generate_subshare(holder) {
            Ok(s) => s,
            Err(e) => return Err(e),
        };
        let commitment = dealers[i].commitment();
        let ghost before = agg@;
        proof {
            assert(agg@.dealers.contains((i + 1) as u32));
            assert(!agg@.delivered((i + 1) as u32));
        }
        match agg.add_subshare(subshare, commitment) {
            Ok(_) => {},
            Err(e) => return Err(e),
        }
        proof {
            assert forall|k: int| 0 <= k < i + 1 implies (#[trigger] agg@.deliveries[k]).dealer == k
                + 1 && agg@.deliveries[k].polynomial == ds[k].polynomial
                && agg@.deliveries[k].value == poly(ds[k].polynomial, holder as int) % n by {
                if k < i {
                    assert(agg@.deliveries[k] == before.deliveries[k]);
                }
            }
        }
        i += 1;
    }
    proof {
        <P::Scalar as OsstScalar>::lemma_order();
        agg.lemma_wf();
        dkg::lemma_arrival_sums(agg@, n);
        let vs = Seq::new(agg@.deliveries.len(), |i: int| agg@.deliveries[i].value);
        let es = Seq::new(ds.len(), |i: int| poly(ds[i].polynomial, holder as int));
        assert forall|k: int| 0 <= k < vs.len() implies eqm(#[trigger] vs[k], es[k], n) by {
            assert(agg@.deliveries[k].dealer == k + 1);
            lemma_eqm_mod(es[k], n);
        }
        lemma_sum_eqm(vs, es, n);
    }
    agg.finalize()
}

proof fn lemma_sum_eqm(a: Seq<int>, b: Seq<int>, n: int)
    requires
        n > 0,
        a.len() == b.len(),
        forall|i: int| 0 <= i < a.len() ==> eqm(#[trigger] a[i], b[i], n),
    ensures
        eqm(sum(a), sum(b), n),
    decreases a.len(),
{
    if a.len() > 0 {
        let m = a.len() - 1;
        let (a1, b1) = (a.drop_last(), b.drop_last());
        assert forall|i: int| 0 <= i < a1.len() implies eqm(#[trigger] a1[i], b1[i], n) by {
            assert(eqm(a[i], b[i], n));
        }
        lemma_sum_eqm(a1, b1, n);
        assert(eqm(a[m], b[m], n));
        lemma_eqm_add(sum(a1), sum(b1), a[m], b[m], n);
    }
}

/// The holder at position `k` has its share of every coefficient.
pub open spec fn is_inner_share<P: OsstPoint>(
    share: InnerShare<P::Scalar>,
    k: int,
    dkgs: Seq<CoefficientDkg<P>>,
) -> bool {
    &&& share.holder_index == k + 1
    &&& share.coefficient_shares@.len() == dkgs.len()
    &&& forall|j: int|
        0 <= j < dkgs.len() ==> (#[trigger] share.coefficient_shares@[j]).val() == dealt_sum(
            dealer_views(dkgs[j].dealers@),
            (k + 1) as u32,
        ) % ord::<P>()
}

/// Runs the dealing of an interleaved key generation whose dealers are given:
/// each holder's share of each coefficient, and the commitments to the
/// coefficients.
pub fn deal_inner_shares<P: OsstPoint>(dkgs: &[CoefficientDkg<P>], inner_n: u32) -> (r: Result<
    InterleavedDkg<P>,
    OsstError,
>)
    requires
        forall|j: int| 0 <= j < dkgs@.len() ==> is_dealing((#[trigger] dkgs@[j]).dealers@, inner_n),
    ensures
        r is Ok,
        r matches Ok((shares, commitments)) ==> {
            &&& shares@.len() == inner_n
            &&& commitments@.len() == dkgs@.len()
            &&& forall|k: int| 0 <= k < inner_n ==> is_inner_share::<P>(#[trigger] shares@[k], k, dkgs@)
            &&& forall|j: int|
                0 <= j < dkgs@.len() ==> (#[trigger] commitments@[j]).log() == constant_sum(
                    dealer_views(dkgs@[j].dealers@),
                ) % ord::<P>()
        },
{
    let mut commitments: Vec<P> = Vec::new();
    let mut j: usize = 0;
    while j < dkgs.len()
        invariant
            j <= dkgs@.len(),
            forall|j: int|
                0 <= j < dkgs@.len() ==> is_dealing((#[trigger] dkgs@[j]).dealers@, inner_n),
            commitments@.len() == j,
            forall|i: int|
                0 <= i < j ==> (#[trigger] commitments@[i]).log() == constant_sum(
                    dealer_views(dkgs@[i].dealers@),
                ) % ord::<P>(),
        decreases dkgs@.len() - j,
    {
        assert(is_dealing(dkgs@[j as int].dealers@, inner_n));
        commitments.push(coefficient_commitment::<P>(&dkgs[j].dealers));
        j += 1;
    }
    let mut shares: Vec<InnerShare<P::Scalar>> = Vec::new();
    let mut k: u32 = 0;
    while k < inner_n
        invariant
            k <= inner_n,
            forall|j: int|
                0 <= j < dkgs@.len() ==> is_dealing((#[trigger] dkgs@[j]).dealers@, inner_n),
            shares@.len() == k,
            forall|i: int| 0 <= i < k ==> is_inner_share::<P>(#[trigger] shares@[i], i, dkgs@),
        decreases inner_n - k,
    {
        let mut coefficient_shares: Vec<P::Scalar> = Vec::new();
        let mut j: usize = 0;
        while j < dkgs.len()
            invariant
                j <= dkgs@.len(),
                k < inner_n,
                forall|j: int|
                    0 <= j < dkgs@.len() ==> is_dealing((#[trigger] dkgs@[j]).dealers@, inner_n),
                coefficient_shares@.len() == j,
                forall|i: int|
                    0 <= i < j ==> (#[trigger] coefficient_shares@[i]).val() == dealt_sum(
                        dealer_views(dkgs@[i].dealers@),
                        (k + 1) as u32,
                    ) % ord::<P>(),
            decreases dkgs@.len() - j,
        {
            assert(is_dealing(dkgs@[j as int].dealers@, inner_n));
            match coefficient_share::<P>(&dkgs[j].dealers, k + 1) {
                Ok(s) => coefficient_shares.push(s),
                Err(e) => return Err(e),
            }
            j += 1;
        }
        shares.push(InnerShare { holder_index: k + 1, coefficient_shares });
        assert(is_inner_share::<P>(shares@[k as int], k as int, dkgs@));
        k += 1;
    }
    Ok((shares, commitments))
}

/// A holder's shares of the coefficients lie on some polynomials of `inner_t`
/// coefficients whose constant terms the commitments are to.
pub open spec fn is_interleaved<P: OsstPoint>(
    shares: Seq<InnerShare<P::Scalar>>,
    commitments: Seq<P>,
    polynomials: Seq<Seq<int>>,
    inner_t: u32,
) -> bool {
    &&& polynomials.len() == commitments.len()
    &&& forall|j: int|
        0 <= j < polynomials.len() ==> (#[trigger] polynomials[j]).len() == inner_t
            && commitments[j].log() == polynomials[j][0] % ord::<P>()
    &&& forall|k: int, j: int|
        0 <= k < shares.len() && 0 <= j < polynomials.len() ==> (
        #[trigger] shares[k].coefficient_shares@[j]).val() == poly(
            #[trigger] polynomials[j],
            k + 1,
        ) % ord::<P>()
}

/// The sum of several polynomials of `t` coefficients.
pub open spec fn polynomial_sum(ds: Seq<DealerView>, t: nat) -> Seq<int> {
    combine(
        Seq::new(ds.len(), |i: int| 1int),
        Seq::new(ds.len(), |i: int| ds[i].polynomial),
        t,
    )
}

proof fn lemma_polynomial_sum(ds: Seq<DealerView>, t: nat, holder: u32)
    requires
        t > 0,
        forall|i: int| 0 <= i < ds.len() ==> (#[trigger] ds[i]).polynomial.len() == t,
    ensures
        polynomial_sum(ds, t).len() == t,
        poly(polynomial_sum(ds, t), holder as int) == dealt_sum(ds, holder),
        polynomial_sum(ds, t)[0] == constant_sum(ds),
{
    let ones = Seq::new(ds.len(), |i: int| 1int);
    let rows = Seq::new(ds.len(), |i: int| ds[i].polynomial);
    assert forall|i: int| 0 <= i < rows.len() implies (#[trigger] rows[i]).len() == t by {
        assert(ds[i].polynomial.len() == t);
    }
    lemma_combine(ones, rows, t, holder as int);
    lemma_combine(ones, rows, t, 0);
    let e = evaluations(rows, holder as int);
    lemma_dot_ones(e);
    assert(e =~= Seq::new(ds.len(), |i: int| poly(ds[i].polynomial, holder as int)));
    let z = evaluations(rows, 0);
    lemma_dot_ones(z);
    assert(z =~= Seq::new(ds.len(), |i: int| ds[i].polynomial[0])) by {
        assert forall|i: int| 0 <= i < ds.len() implies z[i] == ds[i].polynomial[0] by {
            assert(ds[i].polynomial.len() == t);
            lemma_poly_zero(ds[i].polynomial);
        }
    }
    lemma_poly_zero(combine(ones, rows, t));
}

/// Runs the interleaved key generation for a nested position. It produces inner
/// holders' shares of each outer polynomial coefficient; nobody learns the
/// coefficients themselves.
///
/// Whatever the dealers drew, each coefficient's shares lie on one polynomial of
/// `inner_t` coefficients, whose constant term the coefficient's commitment is
/// to. It does not fail.
pub fn interleaved_dkg<P: OsstPoint>(
    inner_n: u32,
    inner_t: u32,
    outer_t: u32,
    rng: &mut OsRng,
) -> (r: Result<InterleavedDkg<P>, OsstError>)
    requires
        inner_t > 0 || inner_n == 0 || outer_t == 0,
    ensures
        r is Ok,
        r matches Ok((shares, commitments)) ==> {
            &&& shares@.len() == inner_n
            &&& commitments@.len() == outer_t
            &&& forall|k: int|
                0 <= k < inner_n ==> (#[trigger] shares@[k]).holder_index == k + 1
                    && shares@[k].coefficient_shares@.len() == outer_t
            &&& inner_t > 0 ==> exists|polynomials: Seq<Seq<int>>|
                is_interleaved::<P>(shares@, commitments@, polynomials, inner_t)
        },
{
    let mut dkgs: Vec<CoefficientDkg<P>> = Vec::new();
    let mut j: u32 = 0;
    while j < outer_t
        invariant
            j <= outer_t,
            inner_t > 0 || inner_n == 0 || outer_t == 0,
            dkgs@.len() == j,
            forall|i: int| 0 <= i < j ==> is_dealing((#[trigger] dkgs@[i]).dealers@, inner_n),
            forall|i: int, k: int|
                0 <= i < j && 0 <= k < inner_n ==> (
                #[trigger] dkgs@[i].dealers@[k])@.polynomial.len() == inner_t,
        decreases outer_t - j,
    {
        let mut dealers: Vec<dkg::Dealer<P>> = Vec::new();
        let mut k: u32 = 0;
        while k < inner_n
            invariant
                k <= inner_n,
                inner_t > 0 || inner_n == 0,
                is_dealing(dealers@, k),
                forall|i: int|
                    0 <= i < k ==> (#[trigger] dealers@[i])@.polynomial.len() == inner_t,
            decreases inner_n - k,
        {
            match dkg::Dealer::<P>::new(k + 1, inner_t, rng) {
                Ok(d) => dealers.push(d),
                Err(e) => return Err(e),
            }
            k += 1;
        }
        dkgs.push(CoefficientDkg { coeff_index: j, dealers });
        j += 1;
    }
    let r = deal_inner_shares::<P>(&dkgs, inner_n);
    proof {
        if inner_t > 0 {
            let (shares, commitments) = r->Ok_0;
            let n = ord::<P>();
            let ps = Seq::new(
                dkgs@.len(),
                |j: int| polynomial_sum(dealer_views(dkgs@[j].dealers@), inner_t as nat),
            );
            assert forall|j: int| 0 <= j < ps.len() implies (#[trigger] ps[j]).len() == inner_t
                && commitments@[j].log() == ps[j][0] % n by {
                let ds = dealer_views(dkgs@[j].dealers@);
                assert(is_dealing(dkgs@[j].dealers@, inner_n));
                assert forall|i: int| 0 <= i < ds.len() implies (
                #[trigger] ds[i]).polynomial.len() == inner_t by {
                    assert(dkgs@[j].dealers@[i]@.polynomial.len() == inner_t);
                }
                lemma_polynomial_sum(ds, inner_t as nat, 1);
            }
            assert forall|k: int, j: int| 0 <= k < shares@.len() && 0 <= j < ps.len() implies (
            #[trigger] shares@[k].coefficient_shares@[j]).val() == poly(
                #[trigger] ps[j],
                k + 1,
            ) % n by {
                let ds = dealer_views(dkgs@[j].dealers@);
                assert(is_dealing(dkgs@[j].dealers@, inner_n));
                assert forall|i: int| 0 <= i < ds.len() implies (
                #[trigger] ds[i]).polynomial.len() == inner_t by {
                    assert(dkgs@[j].dealers@[i]@.polynomial.len() == inner_t);
                }
                lemma_polynomial_sum(ds, inner_t as nat, (k + 1) as u32);
                assert(is_inner_share::<P>(shares@[k], k, dkgs@));
            }
            assert(is_interleaved::<P>(shares@, commitments@, ps, inner_t));
        }
        let (shares, commitments) = r->Ok_0;
        assert forall|k: int| 0 <= k < inner_n implies (#[trigger] shares@[k]).holder_index == k + 1
            && shares@[k].coefficient_shares@.len() == outer_t by {
            assert(is_inner_share::<P>(shares@[k], k, dkgs@));
        }
    }
    while dkgs.len() > 0
        decreases dkgs@.len(),
    {
        if let Some(coefficient) = dkgs.pop() {
            let mut dealers = coefficient.dealers;
            erase_dealers::<P>(&mut dealers);
        }
    }
    r
}

/// Overwrites the polynomials of dealers with zeros.
fn erase_dealers<P: OsstPoint>(dealers: &mut Vec<dkg::Dealer<P>>)
    ensures
        final(dealers)@.len() == old(dealers)@.len(),
        forall|i: int|
            0 <= i < final(dealers)@.len() ==> (#[trigger] final(dealers)@[i])@ == (DealerView {
                index: old(dealers)@[i]@.index,
                polynomial: Seq::new(old(dealers)@[i]@.polynomial.len(), |j: int| 0int),
            }),
{
    let ghost before = dealers@;
    let mut i: usize = 0;
    while i < dealers.len()
        invariant
            i <= dealers@.len(),
            dealers@.len() == before.len(),
            forall|k: int| i <= k < before.len() ==> dealers@[k] == before[k],
            forall|k: int|
                0 <= k < i ==> (#[trigger] dealers@[k])@ == (DealerView {
                    index: before[k]@.index,
                    polynomial: Seq::new(before[k]@.polynomial.len(), |j: int| 0int),
                }),
        decreases dealers@.len() - i,
    {
        dealers[i].zeroize();
        i += 1;
    }
}

/// The pieces of a splitting polynomial for holders `1..=inner_n`.
pub open spec fn are_pieces<P: OsstPoint>(
    pieces: Seq<(u32, P::Scalar)>,
    polynomial: Seq<int>,
    inner_n: u32,
) -> bool {
    &&& pieces.len() == inner_n
    &&& forall|k: int|
        0 <= k < pieces.len() ==> (#[trigger] pieces[k]).0 == k + 1 && pieces[k].1.val() == poly(
            polynomial,
            k + 1,
        ) % ord::<P>()
}

/// Splits an evaluation with a given polynomial, whose constant term it is:
/// the pieces for holders `1..=inner_n`, and the commitment to verify them by.
///
/// # Errors
///
/// [`OsstError::EmptyContributions`] if there is no coefficient.
pub fn split_with_polynomial<P: OsstPoint>(polynomial: &[P::Scalar], inner_n: u32) -> (r: Result<
    (Vec<(u32, P::Scalar)>, DealerCommitment<P>),
    OsstError,
>)
    ensures
        r is Ok <==> polynomial@.len() > 0,
        r matches Ok((pieces, c)) ==> are_pieces::<P>(pieces@, vals(polynomial@), inner_n)
            && c.dealer_index == 1 && c.polynomial() == vals(polynomial@),
        r matches Err(e) ==> e == OsstError::EmptyContributions,
{
    let commitment = match DealerCommitment::<P>::from_polynomial(1, polynomial) {
        Ok(c) => c,
        Err(e) => return Err(e),
    };
    let mut shares: Vec<(u32, P::Scalar)> = Vec::new();
    let mut k: u32 = 0;
    while k < inner_n
        invariant
            k <= inner_n,
            are_pieces::<P>(shares@, vals(polynomial@), k),
        decreases inner_n - k,
    {
        let piece = eval_scalars::<P::Scalar>(polynomial, k + 1);
        shares.push((k + 1, piece));
        k += 1;
    }
    Ok((shares, commitment))
}

/// Splits an outer participant's evaluation among inner holders, with a random
/// polynomial that has it as its constant term. The commitment lets the holders
/// verify their pieces.
pub fn split_evaluation_for_inner<P: OsstPoint>(
    evaluation: &P::Scalar,
    inner_n: u32,
    inner_t: u32,
    rng: &mut OsRng,
) -> (r: (Vec<(u32, P::Scalar)>, DealerCommitment<P>))
    ensures
        r.1.dealer_index == 1,
        r.1.polynomial().len() == if inner_t == 0 {
            1
        } else {
            inner_t as int
        },
        r.1.polynomial()[0] == evaluation.val(),
        are_pieces::<P>(r.0@, r.1.polynomial(), inner_n),
{
    let mut coeffs: Vec<P::Scalar> = Vec::new();
    coeffs.push(*evaluation);
    let mut i: u32 = 1;
    while i < inner_t
        invariant
            1 <= i,
            i <= inner_t || i == 1,
            coeffs@.len() == i,
            coeffs@[0] == *evaluation,
        decreases inner_t - i,
    {
        coeffs.push(<P::Scalar as OsstScalar>::random(rng));
        i += 1;
    }
    match split_with_polynomial::<P>(&coeffs, inner_n) {
        Ok(r) => {
            assert(vals(coeffs@)[0] == evaluation.val());
            r
        },
        Err(_) => {
            assert(false);
            (Vec::new(), DealerCommitment { dealer_index: 1, coefficients: Vec::new() })
        },
    }
}

/// Verifies a split evaluation piece against its commitment.
pub fn verify_split_piece<P: OsstPoint>(
    commitment: &DealerCommitment<P>,
    holder_index: u32,
    piece: &P::Scalar,
) -> (r: bool)
    ensures
        r == (holder_index != 0 && piece.val() == commitment.value_at(holder_index)),
{
    commitment.verify_subshare(holder_index, piece)
}

/// The values of some pieces.
pub open spec fn piece_values<S: OsstScalar>(pieces: Seq<(u32, S)>) -> Seq<int> {
    Seq::new(pieces.len(), |i: int| pieces[i].1.val())
}

/// Combines a holder's inner share with the outer participants' split
/// evaluations: its share of the nested position's outer secret.
pub fn combine_shares<S: OsstScalar>(
    inner_share: &InnerShare<S>,
    nested_position: u32,
    outer_eval_pieces: &[(u32, S)],
) -> (r: S)
    ensures
        r.val() == (poly(vals(inner_share.coefficient_shares@), nested_position as int) + sum(
            piece_values(outer_eval_pieces@),
        )) % S::order(),
{
    let ghost n = S::order();
    let ghost ps = piece_values(outer_eval_pieces@);
    let ghost base = poly(vals(inner_share.coefficient_shares@), nested_position as int);
    proof {
        S::lemma_order();
        assert(ps.subrange(0, 0).len() == 0);
    }
    let mut result = inner_share.eval_at(nested_position);
    let mut i: usize = 0;
    while i < outer_eval_pieces.len()
        invariant
            i <= outer_eval_pieces@.len(),
            n == S::order(),
            n > 0,
            ps == piece_values(outer_eval_pieces@),
            result.val() == (base + sum(ps.subrange(0, i as int))) % n,
        decreases outer_eval_pieces@.len() - i,
    {
        result = result.add(&outer_eval_pieces[i].1);
        proof {
            assert(ps.subrange(0, i as int + 1).drop_last() =~= ps.subrange(0, i as int));
            lemma_mod_add(base + sum(ps.subrange(0, i as int)), ps[i as int], n);
        }
        i += 1;
    }
    assert(ps.subrange(0, i as int) =~= ps);
    result
}

// ---------------------------------------------------------------------------
// Inner nonces and commitments
// ---------------------------------------------------------------------------

/// Inner holder's nonce pair for nested signing.
pub struct InnerNonces<S: OsstScalar> {
    /// The holder.
    pub holder_index: u32,
    /// The round this nonce pair belongs to: [`inner_sign_v2`] refuses to answer
    /// a round the holder did not commit to.
    pub session_id: [u8; 32],
    pub(crate) hiding: S,
    pub(crate) binding: S,
}

/// What an inner nonce pair holds.
pub ghost struct InnerNoncesView {
    /// The holder.
    pub holder: u32,
    /// The round.
    pub session: Seq<u8>,
    /// The hiding nonce.
    pub hiding: int,
    /// The binding nonce.
    pub binding: int,
}

impl<S: OsstScalar> View for InnerNonces<S> {
    type V = InnerNoncesView;

    closed spec fn view(&self) -> InnerNoncesView {
        InnerNoncesView {
            holder: self.holder_index,
            session: self.session_id@,
            hiding: self.hiding.val(),
            binding: self.binding.val(),
        }
    }
}

impl<S: OsstScalar> InnerNonces<S> {
    /// The holder.
    pub fn holder(&self) -> (r: u32)
        ensures
            r == self@.holder,
    {
        self.holder_index
    }

    /// The round.
    pub fn session(&self) -> (r: &[u8; 32])
        ensures
            r@ == self@.session,
    {
        &self.session_id
    }

    /// Overwrites the nonces with zeros.
    pub fn zeroize(&mut self)
        ensures
            final(self)@ == (InnerNoncesView { hiding: 0, binding: 0, ..old(self)@ }),
    {
        self.hiding.zeroize();
        self.binding.zeroize();
    }
}

/// Inner holder's nonce commitments.
#[derive(Clone, Copy, Debug, PartialEq)]
pub struct InnerCommitments<P: OsstPoint> {
    /// The holder.
    pub holder_index: u32,
    /// The inner round these were produced for.
    pub session_id: [u8; 32],
    /// Hiding commitment.
    pub hiding: P,
    /// Binding commitment.
    pub binding: P,
}

impl<P: OsstPoint> View for InnerCommitments<P> {
    type V = InnerNoncesView;

    /// What is committed to.
    open spec fn view(&self) -> InnerNoncesView {
        InnerNoncesView {
            holder: self.holder_index,
            session: self.session_id@,
            hiding: self.hiding.log(),
            binding: self.binding.log(),
        }
    }
}

/// Nonces for an inner holder from given scalars, which must be used once, and
/// their commitments.
pub fn inner_commit_scalars<P: OsstPoint>(
    holder_index: u32,
    session_id: [u8; 32],
    hiding: P::Scalar,
    binding: P::Scalar,
) -> (r: (InnerNonces<P::Scalar>, InnerCommitments<P>))
    ensures
        r.0@ == (InnerNoncesView {
            holder: holder_index,
            session: session_id@,
            hiding: hiding.val(),
            binding: binding.val(),
        }),
        r.1@ == r.0@,
{
    let commitments = InnerCommitments {
        holder_index,
        session_id,
        hiding: base_mul::<P>(&hiding),
        binding: base_mul::<P>(&binding),
    };
    (InnerNonces { holder_index, session_id, hiding, binding }, commitments)
}

/// Generates nonces for an inner holder.
///
/// `session_id` names the inner round. It is public, must be agreed by the inner
/// group before round 1, and is carried through to [`inner_sign_v2`].
pub fn inner_commit<P: OsstPoint>(
    holder_index: u32,
    session_id: [u8; 32],
    rng: &mut OsRng,
) -> (r: (InnerNonces<P::Scalar>, InnerCommitments<P>))
    ensures
        r.0@.holder == holder_index,
        r.0@.session == session_id@,
        r.1@ == r.0@,
{
    let hiding = <P::Scalar as OsstScalar>::random(rng);
    let binding = <P::Scalar as OsstScalar>::random(rng);
    inner_commit_scalars::<P>(holder_index, session_id, hiding, binding)
}

/// The input of the round-0 hash: the domain, the holder, the session and the
/// two commitments.
pub open spec fn precommit_input<P: OsstPoint>(c: InnerNoncesView) -> Seq<u8> {
    PRECOMMIT_DOMAIN@ + (le_bytes(c.holder as int, 4) + (c.session + (P::encoding(c.hiding)
        + P::encoding(c.binding))))
}

/// The round-0 hash: the first half of the SHA-512 of its input.
pub open spec fn precommit_value<P: OsstPoint>(c: InnerNoncesView) -> Seq<u8> {
    sha512_digest(precommit_input::<P>(c)).subrange(0, 32)
}

/// Round-0 hash commitment to an inner holder's nonce commitments.
pub fn inner_precommit<P: OsstPoint>(c: &InnerCommitments<P>) -> (r: [u8; 32])
    ensures
        r@ == precommit_value::<P>(c@),
        has_encoding::<P>(c@.hiding),
        has_encoding::<P>(c@.binding),
{
    let mut h: Vec<u8> = Vec::new();
    put_slice(&mut h, &PRECOMMIT_DOMAIN);
    put_u32(&mut h, c.holder_index);
    put_slice(&mut h, &c.session_id);
    let d = c.hiding.compress_vec();
    put_slice(&mut h, &d);
    let e = c.binding.compress_vec();
    put_slice(&mut h, &e);
    assert(h@ =~= precommit_input::<P>(c@));
    let full = sha512(&h);
    get_array32(&full, 0)
}

/// Verifies a revealed commitment against its round-0 precommitment.
pub fn verify_inner_precommit<P: OsstPoint>(
    precommit: &[u8; 32],
    revealed: &InnerCommitments<P>,
) -> (r: bool)
    ensures
        r == (precommit@ == precommit_value::<P>(revealed@)),
        has_encoding::<P>(revealed@.hiding),
        has_encoding::<P>(revealed@.binding),
{
    let computed = inner_precommit(revealed);
    bytes_eq(&computed, precommit)
}

/// What several inner commitments commit to.
pub open spec fn inner_views<P: OsstPoint>(cs: Seq<InnerCommitments<P>>) -> Seq<InnerNoncesView> {
    Seq::new(cs.len(), |i: int| cs[i]@)
}

/// The holders of several inner commitments.
pub open spec fn holders(cs: Seq<InnerNoncesView>) -> Seq<u32> {
    Seq::new(cs.len(), |i: int| cs[i].holder)
}

/// The hiding nonces of several inner commitments.
pub open spec fn hidings(cs: Seq<InnerNoncesView>) -> Seq<int> {
    Seq::new(cs.len(), |i: int| cs[i].hiding)
}

/// The binding nonces of several inner commitments.
pub open spec fn bindings(cs: Seq<InnerNoncesView>) -> Seq<int> {
    Seq::new(cs.len(), |i: int| cs[i].binding)
}

/// The first precommitment of a holder.
pub open spec fn precommit_of(precommits: Seq<(u32, [u8; 32])>, holder: u32) -> Option<Seq<u8>>
    decreases precommits.len(),
{
    if precommits.len() == 0 {
        None
    } else if precommits[0].0 == holder {
        Some(precommits[0].1@)
    } else {
        precommit_of(precommits.drop_first(), holder)
    }
}

/// Why one more commitment is refused, behind some others.
pub open spec fn reveal_error<P: OsstPoint>(
    session: Seq<u8>,
    precommits: Seq<(u32, [u8; 32])>,
    before: Seq<InnerNoncesView>,
    c: InnerNoncesView,
) -> Option<OsstError> {
    if c.holder == 0 {
        Some(OsstError::InvalidIndex)
    } else if c.session != session {
        Some(OsstError::SessionMismatch)
    } else if holders(before).contains(c.holder) {
        Some(OsstError::DuplicateIndex(c.holder))
    } else if precommit_of(precommits, c.holder) != Some(precommit_value::<P>(c)) {
        Some(OsstError::PrecommitMismatch(c.holder))
    } else {
        None
    }
}

/// The error of the first commitment that is refused.
pub open spec fn reveals_error<P: OsstPoint>(
    session: Seq<u8>,
    precommits: Seq<(u32, [u8; 32])>,
    cs: Seq<InnerNoncesView>,
) -> Option<OsstError>
    decreases cs.len(),
{
    if cs.len() == 0 {
        None
    } else {
        match reveals_error::<P>(session, precommits, cs.drop_last()) {
            Some(e) => Some(e),
            None => reveal_error::<P>(session, precommits, cs.drop_last(), cs.last()),
        }
    }
}

/// Why inner commitments do not aggregate, if they do not.
pub open spec fn pair_error<P: OsstPoint>(
    session: Seq<u8>,
    precommits: Seq<(u32, [u8; 32])>,
    cs: Seq<InnerNoncesView>,
) -> Option<OsstError> {
    if cs.len() == 0 {
        Some(OsstError::EmptyContributions)
    } else {
        reveals_error::<P>(session, precommits, cs)
    }
}

proof fn lemma_reveals_error<P: OsstPoint>(
    session: Seq<u8>,
    precommits: Seq<(u32, [u8; 32])>,
    cs: Seq<InnerNoncesView>,
    i: nat,
)
    requires
        i <= cs.len(),
        reveals_error::<P>(session, precommits, cs.subrange(0, i as int)) is Some,
    ensures
        reveals_error::<P>(session, precommits, cs) == reveals_error::<P>(
            session,
            precommits,
            cs.subrange(0, i as int),
        ),
    decreases cs.len() - i,
{
    if i < cs.len() {
        assert(cs.subrange(0, i as int + 1).drop_last() =~= cs.subrange(0, i as int));
        lemma_reveals_error::<P>(session, precommits, cs, i + 1);
    } else {
        assert(cs.subrange(0, i as int) =~= cs);
    }
}

/// The first precommitment of a holder.
fn find_precommit(precommits: &[(u32, [u8; 32])], holder: u32) -> (r: Option<[u8; 32]>)
    ensures
        r is Some <==> precommit_of(precommits@, holder) is Some,
        r matches Some(p) ==> precommit_of(precommits@, holder) == Some(p@),
{
    let mut i: usize = 0;
    assert(precommits@.subrange(0, precommits@.len() as int) =~= precommits@);
    while i < precommits.len()
        invariant
            i <= precommits@.len(),
            precommit_of(precommits@, holder) == precommit_of(
                precommits@.subrange(i as int, precommits@.len() as int),
                holder,
            ),
        decreases precommits@.len() - i,
    {
        let ghost rest = precommits@.subrange(i as int, precommits@.len() as int);
        assert(rest[0] == precommits@[i as int]);
        if precommits[i].0 == holder {
            return Some(precommits[i].1);
        }
        proof {
            assert(rest.drop_first() =~= precommits@.subrange(
                i as int + 1,
                precommits@.len() as int,
            ));
        }
        i += 1;
    }
    None
}

/// Aggregates inner nonce commitments into the pair the outer protocol consumes:
/// the sums of the hiding and of the binding commitments.
///
/// Every revealed commitment must have the precommitment that its holder
/// published in round 0; extra entries for holders that did not reveal are fine.
///
/// # Errors
///
/// [`OsstError::EmptyContributions`] if the list is empty; for the first
/// commitment at fault [`OsstError::InvalidIndex`] if its holder is 0,
/// [`OsstError::SessionMismatch`] if it belongs to another round,
/// [`OsstError::DuplicateIndex`] if its holder occurred before, and
/// [`OsstError::PrecommitMismatch`] naming the holder if it has no matching
/// precommitment.
pub fn aggregate_inner_commitment_pair<P: OsstPoint>(
    session_id: &[u8; 32],
    precommits: &[(u32, [u8; 32])],
    inner_commitments: &[InnerCommitments<P>],
) -> (r: Result<(P, P), OsstError>)
    ensures
        r is Ok <==> pair_error::<P>(session_id@, precommits@, inner_views(inner_commitments@))
            is None,
        r matches Ok((d, e)) ==> d.log() == sum(hidings(inner_views(inner_commitments@))) % ord::<
            P,
        >() && e.log() == sum(bindings(inner_views(inner_commitments@))) % ord::<P>(),
        r matches Err(e) ==> pair_error::<P>(
            session_id@,
            precommits@,
            inner_views(inner_commitments@),
        ) == Some(e),
{
    let ghost n = ord::<P>();
    let ghost v = inner_views(inner_commitments@);
    let ghost hs = hidings(v);
    let ghost bs = bindings(v);
    if inner_commitments.len() == 0 {
        return Err(OsstError::EmptyContributions);
    }
    proof {
        <P::Scalar as OsstScalar>::lemma_order();
        lemma_small_mod(0, n as nat);
        assert(hs.subrange(0, 0).len() == 0 && bs.subrange(0, 0).len() == 0);
        assert(v.subrange(0, 0).len() == 0);
        assert(holders(v.subrange(0, 0)) =~= Seq::empty());
    }
    let mut seen: Vec<u32> = Vec::new();
    let mut d = P::identity();
    let mut e = P::identity();
    let mut i: usize = 0;
    while i < inner_commitments.len()
        invariant
            i <= inner_commitments@.len(),
            inner_commitments@.len() > 0,
            n == ord::<P>(),
            n > 0,
            v == inner_views(inner_commitments@),
            hs == hidings(v),
            bs == bindings(v),
            seen@ == holders(v.subrange(0, i as int)),
            reveals_error::<P>(session_id@, precommits@, v.subrange(0, i as int)) is None,
            d.log() == sum(hs.subrange(0, i as int)) % n,
            e.log() == sum(bs.subrange(0, i as int)) % n,
        decreases inner_commitments@.len() - i,
    {
        let c = inner_commitments[i];
        let ghost before = v.subrange(0, i as int);
        let ghost next = v.subrange(0, i as int + 1);
        proof {
            assert(next.drop_last() =~= before);
            assert(next.last() == c@);
            if reveal_error::<P>(session_id@, precommits@, before, c@) is Some {
                lemma_reveals_error::<P>(session_id@, precommits@, v, (i + 1) as nat);
            }
        }
        if c.holder_index == 0 {
            return Err(OsstError::InvalidIndex);
        }
        if !bytes_eq(&c.session_id, session_id) {
            return Err(OsstError::SessionMismatch);
        }
        if contains_index(&seen, c.holder_index) {
            return Err(OsstError::DuplicateIndex(c.holder_index));
        }
        match find_precommit(precommits, c.holder_index) {
            Some(p) => {
                if !verify_inner_precommit::<P>(&p, &c) {
                    return Err(OsstError::PrecommitMismatch(c.holder_index));
                }
            },
            None => return Err(OsstError::PrecommitMismatch(c.holder_index)),
        }
        seen.push(c.holder_index);
        d = d.add(&c.hiding);
        e = e.add(&c.binding);
        proof {
            assert(seen@ =~= holders(next));
            assert(hs.subrange(0, i as int + 1).drop_last() =~= hs.subrange(0, i as int));
            assert(bs.subrange(0, i as int + 1).drop_last() =~= bs.subrange(0, i as int));
            lemma_mod_add(sum(hs.subrange(0, i as int)), hs[i as int], n);
            lemma_mod_add(sum(bs.subrange(0, i as int)), bs[i as int], n);
        }
        i += 1;
    }
    assert(v.subrange(0, i as int) =~= v);
    assert(hs.subrange(0, i as int) =~= hs);
    assert(bs.subrange(0, i as int) =~= bs);
    Ok((d, e))
}

/// Why the outer package's commitment for the nested position is not the pair of
/// this inner round, if it is not.
pub open spec fn nested_commitment_error<P: OsstPoint>(
    v: PackageView,
    nested_index: u32,
    session: Seq<u8>,
    precommits: Seq<(u32, [u8; 32])>,
    cs: Seq<InnerNoncesView>,
) -> Option<OsstError> {
    if !v.has(nested_index) {
        Some(OsstError::InvalidIndex)
    } else {
        match pair_error::<P>(session, precommits, cs) {
            Some(e) => Some(e),
            None => if v.signer(nested_index).hiding != sum(hidings(cs)) % ord::<P>() || v.signer(
                nested_index,
            ).binding != sum(bindings(cs)) % ord::<P>() {
                Some(OsstError::UnexpectedCommitment)
            } else {
                None
            },
        }
    }
}

/// Checks that the outer package's commitment for the nested position is the
/// pair this inner round actually produced.
///
/// # Errors
///
/// [`OsstError::InvalidIndex`] if `nested_index` is not in the package; the
/// errors of [`aggregate_inner_commitment_pair`];
/// [`OsstError::UnexpectedCommitment`] if the package's entry is not the pair.
pub fn verify_nested_commitment<P: OsstPoint>(
    package: &SigningPackage<P>,
    nested_index: u32,
    session_id: &[u8; 32],
    precommits: &[(u32, [u8; 32])],
    inner_commitments: &[InnerCommitments<P>],
) -> (r: Result<(), OsstError>)
    requires
        package.wf(),
    ensures
        r is Ok <==> nested_commitment_error::<P>(
            package@,
            nested_index,
            session_id@,
            precommits@,
            inner_views(inner_commitments@),
        ) is None,
        r matches Err(e) ==> nested_commitment_error::<P>(
            package@,
            nested_index,
            session_id@,
            precommits@,
            inner_views(inner_commitments@),
        ) == Some(e),
{
    let entry = match package.get_commitments(nested_index) {
        Some(c) => c,
        None => return Err(OsstError::InvalidIndex),
    };
    let (d, e) = match aggregate_inner_commitment_pair::<P>(
        session_id,
        precommits,
        inner_commitments,
    ) {
        Ok(p) => p,
        Err(e) => return Err(e),
    };
    if !entry.hiding.equals(&d) || !entry.binding.equals(&e) {
        return Err(OsstError::UnexpectedCommitment);
    }
    Ok(())
}

// ---------------------------------------------------------------------------
// Nested signing
// ---------------------------------------------------------------------------

/// Inner holder's partial signature.
pub struct InnerSignatureShare<S: OsstScalar> {
    /// The holder.
    pub holder_index: u32,
    /// Partial response.
    pub response: S,
}

impl<S: OsstScalar> InnerSignatureShare<S> {
    /// Text for debugging, without the response.
    pub fn debug_text(&self) -> (r: String)
        ensures
            r@ == "InnerSignatureShare { holder_index: "@ + decimal(self.holder_index as nat)
                + ", response: \"[REDACTED]\" }"@,
    {
        let mut out = String::new();
        put_text(&mut out, "InnerSignatureShare { holder_index: ");
        put_decimal(&mut out, self.holder_index as u64);
        put_text(&mut out, ", response: \"[REDACTED]\" }");
        out
    }
}

/// Everything an inner holder needs about the outer round that legitimately
/// comes from the coordinator.
///
/// The outer group public key is deliberately not here: it must come from the
/// holder's own key material. `nested_index`, `active_indices` and
/// `inner_threshold` must be anchored against the holder's own state as well.
pub struct NestedSigningRequest<'a, P: OsstPoint> {
    /// The outer signing package (carries the message and the full commitment
    /// list).
    pub package: &'a SigningPackage<P>,
    /// The nested position's index in the outer signing set.
    pub nested_index: u32,
    /// The inner round's id, as agreed before round 1.
    pub session_id: [u8; 32],
    /// The round-0 precommitments, by holder.
    pub inner_precommits: &'a [(u32, [u8; 32])],
    /// The revealed inner commitment set from round 1.
    pub inner_commitments: &'a [InnerCommitments<P>],
    /// The inner quorum actually signing.
    pub active_indices: &'a [u32],
    /// The inner group's own threshold.
    pub inner_threshold: u32,
}

/// Outer context of the nested position, derived by the holder from public data.
#[derive(Clone, Copy)]
pub struct InnerSigningParamsV2<S: OsstScalar> {
    outer_binding: S,
    outer_challenge: S,
    outer_lambda: S,
}

/// What an outer context holds.
pub ghost struct ParamsView {
    /// The outer binding factor.
    pub binding: int,
    /// The outer challenge.
    pub challenge: int,
    /// The nested position's outer Lagrange coefficient.
    pub lambda: int,
}

impl<S: OsstScalar> View for InnerSigningParamsV2<S> {
    type V = ParamsView;

    closed spec fn view(&self) -> ParamsView {
        ParamsView {
            binding: self.outer_binding.val(),
            challenge: self.outer_challenge.val(),
            lambda: self.outer_lambda.val(),
        }
    }
}

/// The outer context that a package and a group key give for a position.
pub open spec fn outer_context<P: OsstPoint>(
    v: PackageView,
    group_pubkey: int,
    nested_index: u32,
) -> ParamsView {
    ParamsView {
        binding: v.binding_factor::<P>(nested_index, group_pubkey),
        challenge: v.challenge::<P>(group_pubkey),
        lambda: v.lambda(nested_index, ord::<P>()),
    }
}

impl<S: OsstScalar> InnerSigningParamsV2<S> {
    /// Builds an outer context from the holder's own derivation of its values,
    /// never a coordinator's assertion of them.
    pub fn from_parts(outer_binding: S, outer_challenge: S, outer_lambda: S) -> (r: Self)
        ensures
            r@ == (ParamsView {
                binding: outer_binding.val(),
                challenge: outer_challenge.val(),
                lambda: outer_lambda.val(),
            }),
    {
        InnerSigningParamsV2 { outer_binding, outer_challenge, outer_lambda }
    }

    /// The outer binding factor for the nested position.
    pub fn outer_binding(&self) -> (r: &S)
        ensures
            r.val() == self@.binding,
    {
        &self.outer_binding
    }

    /// The outer Schnorr challenge.
    pub fn outer_challenge(&self) -> (r: &S)
        ensures
            r.val() == self@.challenge,
    {
        &self.outer_challenge
    }

    /// The nested position's outer Lagrange coefficient.
    pub fn outer_lambda(&self) -> (r: &S)
        ensures
            r.val() == self@.lambda,
    {
        &self.outer_lambda
    }

    /// Derives the nested position's outer context from public data alone.
    ///
    /// # Errors
    ///
    /// [`OsstError::InvalidIndex`] if `nested_index` is not one of the outer
    /// package's signers.
    pub fn from_outer<P: OsstPoint<Scalar = S>>(
        package: &SigningPackage<P>,
        group_pubkey: &P,
        nested_index: u32,
    ) -> (r: Result<Self, OsstError>)
        requires
            package.wf(),
        ensures
            r is Ok <==> package@.has(nested_index),
            r matches Ok(p) ==> p@ == outer_context::<P>(
                package@,
                group_pubkey.log(),
                nested_index,
            ),
            r matches Err(e) ==> e == OsstError::InvalidIndex,
    {
        proof {
            package.lemma_wf();
        }
        let indices = package.signer_indices();
        let pos = match index_position(&indices, nested_index) {
            Some(k) => k,
            None => return Err(OsstError::InvalidIndex),
        };
        let lagrange = match compute_lagrange_coefficients::<S>(&indices) {
            Ok(l) => l,
            Err(e) => {
                assert(indices@.no_duplicates());
                return Err(e)
            },
        };
        let group_commitment = package.group_commitment(group_pubkey);
        assert(vals(lagrange@)[pos as int] == lagrange@[pos as int].val());
        Ok(
            InnerSigningParamsV2 {
                outer_binding: package.binding_factor(nested_index, group_pubkey),
                outer_challenge: package.challenge(&group_commitment, group_pubkey),
                outer_lambda: lagrange[pos],
            },
        )
    }

    /// Accepts a coordinator-supplied outer context only if it is the one the
    /// holder recomputes from the package.
    ///
    /// This validates self-consistency, not the provenance of the package or the
    /// group key: a substituted group key passes. Prefer
    /// [`from_outer`](Self::from_outer), with the group key taken from the
    /// signer's own key package.
    ///
    /// # Errors
    ///
    /// [`OsstError::InvalidIndex`] if `nested_index` is not one of the outer
    /// package's signers, [`OsstError::ChallengeMismatch`] if any of the three
    /// values differs from the locally derived one.
    pub fn from_coordinator_checked<P: OsstPoint<Scalar = S>>(
        supplied_binding: &S,
        supplied_challenge: &S,
        supplied_lambda: &S,
        package: &SigningPackage<P>,
        group_pubkey: &P,
        nested_index: u32,
    ) -> (r: Result<Self, OsstError>)
        requires
            package.wf(),
        ensures
            ({
                let local = outer_context::<P>(package@, group_pubkey.log(), nested_index);
                let supplied = ParamsView {
                    binding: supplied_binding.val(),
                    challenge: supplied_challenge.val(),
                    lambda: supplied_lambda.val(),
                };
                &&& r is Ok <==> package@.has(nested_index) && supplied == local
                &&& r matches Ok(p) ==> p@ == local
                &&& r matches Err(e) ==> e == if !package@.has(nested_index) {
                    OsstError::InvalidIndex
                } else {
                    OsstError::ChallengeMismatch
                }
            }),
    {
        let local = match Self::from_outer::<P>(package, group_pubkey, nested_index) {
            Ok(p) => p,
            Err(e) => return Err(e),
        };
        if !local.outer_binding.equals(supplied_binding) || !local.outer_challenge.equals(
            supplied_challenge,
        ) || !local.outer_lambda.equals(supplied_lambda) {
            return Err(OsstError::ChallengeMismatch);
        }
        Ok(local)
    }
}

/// The first commitment of a holder.
pub open spec fn commitment_of(cs: Seq<InnerNoncesView>, holder: u32) -> Option<InnerNoncesView>
    decreases cs.len(),
{
    if cs.len() == 0 {
        None
    } else if cs[0].holder == holder {
        Some(cs[0])
    } else {
        commitment_of(cs.drop_first(), holder)
    }
}

/// There is a commitment of a holder if and only if it is among the holders.
proof fn lemma_commitment_of(cs: Seq<InnerNoncesView>, holder: u32)
    ensures
        commitment_of(cs, holder) is Some <==> holders(cs).contains(holder),
        commitment_of(cs, holder) matches Some(c) ==> c.holder == holder,
    decreases cs.len(),
{
    if cs.len() > 0 {
        let rest = cs.drop_first();
        lemma_commitment_of(rest, holder);
        assert(holders(cs)[0] == cs[0].holder);
        if holders(rest).contains(holder) {
            let k = choose|k: int| 0 <= k < rest.len() && holders(rest)[k] == holder;
            assert(holders(cs)[k + 1] == holder);
        }
        if holders(cs).contains(holder) && cs[0].holder != holder {
            let k = choose|k: int| 0 <= k < cs.len() && holders(cs)[k] == holder;
            assert(holders(rest)[k - 1] == holder);
        }
    }
}

/// The first commitment of a holder.
fn find_inner<P: OsstPoint>(cs: &[InnerCommitments<P>], holder: u32) -> (r: Option<usize>)
    ensures
        r is Some <==> commitment_of(inner_views(cs@), holder) is Some,
        r matches Some(k) ==> k < cs@.len() && commitment_of(inner_views(cs@), holder) == Some(
            cs@[k as int]@,
        ),
{
    let ghost v = inner_views(cs@);
    let mut i: usize = 0;
    assert(v.subrange(0, v.len() as int) =~= v);
    while i < cs.len()
        invariant
            i <= cs@.len(),
            v == inner_views(cs@),
            commitment_of(v, holder) == commitment_of(
                v.subrange(i as int, v.len() as int),
                holder,
            ),
        decreases cs@.len() - i,
    {
        let ghost rest = v.subrange(i as int, v.len() as int);
        assert(rest[0] == cs@[i as int]@);
        if cs[i].holder_index == holder {
            return Some(i);
        }
        assert(rest.drop_first() =~= v.subrange(i as int + 1, v.len() as int));
        i += 1;
    }
    None
}

/// Why one more member of a quorum is refused, behind some others.
pub open spec fn member_error(before: Seq<u32>, cs: Seq<InnerNoncesView>, k: u32) -> Option<
    OsstError,
> {
    if k == 0 {
        Some(OsstError::InvalidIndex)
    } else if before.contains(k) {
        Some(OsstError::DuplicateIndex(k))
    } else if !holders(cs).contains(k) {
        Some(OsstError::UnknownQuorumMember(k))
    } else {
        None
    }
}

/// The error of the first member of a quorum that is refused.
pub open spec fn quorum_error(active: Seq<u32>, cs: Seq<InnerNoncesView>) -> Option<OsstError>
    decreases active.len(),
{
    if active.len() == 0 {
        None
    } else {
        match quorum_error(active.drop_last(), cs) {
            Some(e) => Some(e),
            None => member_error(active.drop_last(), cs, active.last()),
        }
    }
}

proof fn lemma_quorum_error(active: Seq<u32>, cs: Seq<InnerNoncesView>, i: nat)
    requires
        i <= active.len(),
        quorum_error(active.subrange(0, i as int), cs) is Some,
    ensures
        quorum_error(active, cs) == quorum_error(active.subrange(0, i as int), cs),
    decreases active.len() - i,
{
    if i < active.len() {
        assert(active.subrange(0, i as int + 1).drop_last() =~= active.subrange(0, i as int));
        lemma_quorum_error(active, cs, i + 1);
    } else {
        assert(active.subrange(0, i as int) =~= active);
    }
}

/// A quorum that is accepted has no member twice.
proof fn lemma_quorum_distinct(active: Seq<u32>, cs: Seq<InnerNoncesView>)
    requires
        quorum_error(active, cs) is None,
    ensures
        active.no_duplicates(),
        forall|i: int|
            0 <= i < active.len() ==> #[trigger] active[i] != 0 && holders(cs).contains(active[i]),
    decreases active.len(),
{
    if active.len() > 0 {
        let rest = active.drop_last();
        lemma_quorum_distinct(rest, cs);
        assert(!rest.contains(active.last()));
        assert forall|i: int, j: int|
            0 <= i < active.len() && 0 <= j < active.len() && i != j implies active[i]
            != active[j] by {
            if i < rest.len() && j < rest.len() {
                assert(rest[i] != rest[j]);
            } else if i < rest.len() {
                assert(rest[i] == active[i]);
            } else {
                assert(rest[j] == active[j]);
            }
        }
        assert forall|i: int| 0 <= i < active.len() implies #[trigger] active[i] != 0 && holders(
            cs,
        ).contains(active[i]) by {
            if i < rest.len() {
                assert(rest[i] == active[i]);
            }
        }
    }
}

/// Checks a quorum against the commitment set.
fn check_quorum<P: OsstPoint>(active: &[u32], cs: &[InnerCommitments<P>]) -> (r: Result<
    (),
    OsstError,
>)
    ensures
        r is Ok <==> quorum_error(active@, inner_views(cs@)) is None,
        r matches Err(e) ==> quorum_error(active@, inner_views(cs@)) == Some(e),
{
    let ghost v = inner_views(cs@);
    let mut seen: Vec<u32> = Vec::new();
    let mut i: usize = 0;
    assert(active@.subrange(0, 0) =~= Seq::empty());
    while i < active.len()
        invariant
            i <= active@.len(),
            v == inner_views(cs@),
            seen@ == active@.subrange(0, i as int),
            quorum_error(active@.subrange(0, i as int), v) is None,
        decreases active@.len() - i,
    {
        let k = active[i];
        let ghost next = active@.subrange(0, i as int + 1);
        proof {
            assert(next.drop_last() =~= active@.subrange(0, i as int));
            assert(next.last() == k);
            if member_error(active@.subrange(0, i as int), v, k) is Some {
                lemma_quorum_error(active@, v, (i + 1) as nat);
            }
            lemma_commitment_of(v, k);
        }
        if k == 0 {
            return Err(OsstError::InvalidIndex);
        }
        if contains_index(&seen, k) {
            return Err(OsstError::DuplicateIndex(k));
        }
        if find_inner::<P>(cs, k).is_none() {
            return Err(OsstError::UnknownQuorumMember(k));
        }
        seen.push(k);
        assert(seen@ =~= next);
        i += 1;
    }
    assert(active@.subrange(0, i as int) =~= active@);
    Ok(())
}

/// The weight of a holder's secret in its response.
pub open spec fn inner_weight(params: ParamsView, mu: int) -> int {
    params.lambda * params.challenge * mu
}

/// The response of an inner holder: `d + rho e + (lambda c mu) s`.
pub open spec fn inner_response(
    nonces: InnerNoncesView,
    params: ParamsView,
    mu: int,
    secret: int,
    n: int,
) -> int {
    (nonces.hiding + params.binding * nonces.binding + inner_weight(params, mu) * secret) % n
}

/// The coefficient of an index among distinct ones.
pub open spec fn coefficient_of(indices: Seq<u32>, index: u32, n: int) -> int {
    coefficients(indices, n)[indices.index_of(index)]
}

/// Why an inner holder does not sign, if it does not: the first of its checks
/// that fails.
pub open spec fn inner_sign_error<P: OsstPoint>(
    nonces: InnerNoncesView,
    share: SecretShareView,
    approved_message: Seq<u8>,
    request: NestedSigningRequest<'_, P>,
) -> Option<OsstError> {
    let cs = inner_views(request.inner_commitments@);
    let active = request.active_indices@;
    let session = request.session_id@;
    if request.package@.message != approved_message {
        Some(OsstError::MessageMismatch)
    } else if active.len() < request.inner_threshold {
        Some(
            OsstError::InsufficientContributions {
                got: active.len() as usize,
                need: request.inner_threshold as usize,
            },
        )
    } else if quorum_error(active, cs) is Some {
        quorum_error(active, cs)
    } else if nonces.session != session {
        Some(OsstError::SessionMismatch)
    } else if commitment_of(cs, nonces.holder) != Some(nonces) {
        Some(OsstError::UnexpectedCommitment)
    } else {
        match nested_commitment_error::<P>(
            request.package@,
            request.nested_index,
            session,
            request.inner_precommits@,
            cs,
        ) {
            Some(e) => Some(e),
            None => if !active.contains(share.index) {
                Some(OsstError::InvalidIndex)
            } else {
                None
            },
        }
    }
}

/// The response that an inner holder owes a request.
pub open spec fn inner_sign_response<P: OsstPoint>(
    nonces: InnerNoncesView,
    share: SecretShareView,
    group_pubkey: int,
    request: NestedSigningRequest<'_, P>,
) -> int {
    inner_response(
        nonces,
        outer_context::<P>(request.package@, group_pubkey, request.nested_index),
        coefficient_of(request.active_indices@, share.index, ord::<P>()),
        share.secret,
        ord::<P>(),
    )
}

/// Inner holder's partial signature.
///
/// The holder supplies the message it approved; the outer binding factor and
/// challenge are recomputed here from the package, and never accepted from a
/// coordinator. It refuses to produce a share unless the approved message is the
/// package's, the quorum is one of the commitment set, the commitment set
/// contains this holder's own commitment for this session, matching the nonces
/// being consumed, and the package's entry for the nested position is exactly
/// the sum over that set.
///
/// `local_group_pubkey` must come from the holder's own key material. The nonces
/// are consumed, and overwritten whatever comes of it; but this function is not a
/// replay guard across a restart, see [`SpentSessions`].
///
/// # Errors
///
/// In this order: [`OsstError::MessageMismatch`];
/// [`OsstError::InsufficientContributions`] if the quorum is smaller than the
/// inner threshold; [`OsstError::InvalidIndex`], [`OsstError::DuplicateIndex`]
/// or [`OsstError::UnknownQuorumMember`] for the first member of the quorum at
/// fault; [`OsstError::SessionMismatch`]; [`OsstError::UnexpectedCommitment`];
/// the errors of [`verify_nested_commitment`]; and [`OsstError::InvalidIndex`]
/// if the share is of no member of the quorum.
pub fn inner_sign_v2<P: OsstPoint>(
    nonces: InnerNonces<P::Scalar>,
    share: &SecretShare<P::Scalar>,
    local_group_pubkey: &P,
    approved_message: &[u8],
    request: &NestedSigningRequest<'_, P>,
) -> (r: Result<InnerSignatureShare<P::Scalar>, OsstError>)
    requires
        request.package.wf(),
    ensures
        r is Ok <==> inner_sign_error::<P>(nonces@, share@, approved_message@, *request) is None,
        r matches Ok(s) ==> s.holder_index == nonces@.holder && s.response.val()
            == inner_sign_response::<P>(nonces@, share@, local_group_pubkey.log(), *request),
        r matches Err(e) ==> inner_sign_error::<P>(
            nonces@,
            share@,
            approved_message@,
            *request,
        ) == Some(e),
{
    let mut nonces = nonces;
    let r = inner_sign_once::<P>(&nonces, share, local_group_pubkey, approved_message, request);
    nonces.zeroize();
    r
}

/// The partial signature of a nonce pair.
fn inner_sign_once<P: OsstPoint>(
    nonces: &InnerNonces<P::Scalar>,
    share: &SecretShare<P::Scalar>,
    local_group_pubkey: &P,
    approved_message: &[u8],
    request: &NestedSigningRequest<'_, P>,
) -> (r: Result<InnerSignatureShare<P::Scalar>, OsstError>)
    requires
        request.package.wf(),
    ensures
        r is Ok <==> inner_sign_error::<P>(nonces@, share@, approved_message@, *request) is None,
        r matches Ok(s) ==> s.holder_index == nonces@.holder && s.response.val()
            == inner_sign_response::<P>(nonces@, share@, local_group_pubkey.log(), *request),
        r matches Err(e) ==> inner_sign_error::<P>(
            nonces@,
            share@,
            approved_message@,
            *request,
        ) == Some(e),
{
    let ghost cs = inner_views(request.inner_commitments@);
    if !bytes_eq(request.package.message(), approved_message) {
        return Err(OsstError::MessageMismatch);
    }
    if (request.active_indices.len() as u64) < request.inner_threshold as u64 {
        return Err(
            OsstError::InsufficientContributions {
                got: request.active_indices.len(),
                need: request.inner_threshold as usize,
            },
        );
    }
    match check_quorum::<P>(request.active_indices, request.inner_commitments) {
        Ok(_) => {},
        Err(e) => return Err(e),
    }
    if !bytes_eq(&nonces.session_id, &request.session_id) {
        return Err(OsstError::SessionMismatch);
    }
    let mine = match find_inner::<P>(request.inner_commitments, nonces.holder_index) {
        Some(k) => request.inner_commitments[k],
        None => return Err(OsstError::UnexpectedCommitment),
    };
    proof {
        lemma_commitment_of(cs, nonces@.holder);
    }
    if !bytes_eq(&mine.session_id, &request.session_id) || !mine.hiding.equals(
        &base_mul::<P>(&nonces.hiding),
    ) || !mine.binding.equals(&base_mul::<P>(&nonces.binding)) {
        return Err(OsstError::UnexpectedCommitment);
    }
    match verify_nested_commitment::<P>(
        request.package,
        request.nested_index,
        &request.session_id,
        request.inner_precommits,
        request.inner_commitments,
    ) {
        Ok(_) => {},
        Err(e) => return Err(e),
    }
    let params = match InnerSigningParamsV2::<P::Scalar>::from_outer::<P>(
        request.package,
        local_group_pubkey,
        request.nested_index,
    ) {
        Ok(p) => p,
        Err(e) => return Err(e),
    };
    proof {
        lemma_quorum_distinct(request.active_indices@, cs);
    }
    let lagrange = match compute_lagrange_coefficients::<P::Scalar>(request.active_indices) {
        Ok(l) => l,
        Err(e) => return Err(e),
    };
    let my_pos = match index_position(request.active_indices, share.index()) {
        Some(k) => k,
        None => return Err(OsstError::InvalidIndex),
    };
    assert(vals(lagrange@)[my_pos as int] == lagrange@[my_pos as int].val());
    let response = respond_inner::<P::Scalar>(nonces, &params, &lagrange[my_pos], share.scalar());
    Ok(InnerSignatureShare { holder_index: nonces.holder_index, response })
}

/// The weight of a holder's secret.
fn weight<S: OsstScalar>(params: &InnerSigningParamsV2<S>, mu: &S) -> (r: S)
    ensures
        r.val() == inner_weight(params@, mu.val()) % S::order(),
{
    let r = params.outer_lambda.mul(&params.outer_challenge).mul(mu);
    proof {
        S::lemma_order();
        lemma_mod_mul(params@.lambda * params@.challenge, mu.val(), S::order());
    }
    r
}

fn respond_inner<S: OsstScalar>(
    nonces: &InnerNonces<S>,
    params: &InnerSigningParamsV2<S>,
    mu: &S,
    secret: &S,
) -> (r: S)
    ensures
        r.val() == inner_response(nonces@, params@, mu.val(), secret.val(), S::order()),
{
    let rho_e = params.outer_binding.mul(&nonces.binding);
    let w = weight(params, mu);
    let r = nonces.hiding.add(&rho_e).add(&w.mul(secret));
    proof {
        S::lemma_order();
        let n = S::order();
        let (d, e, p) = (nonces@.hiding, nonces@.binding, params@.binding);
        let iw = inner_weight(params@, mu.val());
        lemma_mod_mul(iw, secret.val(), n);
        lemma_mod_add(d, p * e, n);
        lemma_mod_add(d + p * e, iw * secret.val(), n);
    }
    r
}

// ---------------------------------------------------------------------------
// Spent sessions
// ---------------------------------------------------------------------------

/// A record of which sessions of which holders have already produced a
/// signature share.
///
/// `session_id` keeps two concurrent rounds from being spliced into each other;
/// it enters neither the binding factor nor the challenge, and nothing about it
/// is enforced across a restart. A snapshot-restore brings nonces back, and two
/// responses under one nonce pair give up the share. This trait is where a
/// caller puts a record that survives: an implementation must be durable and
/// write-ahead, on stable storage before the share leaves the process.
pub trait SpentSessions {
    /// The spent pairs of session and holder.
    spec fn spent(&self) -> Set<(Seq<u8>, u32)>;

    /// How this store answers a request to record a session: what it may return, and
    /// what it is afterwards.
    spec fn spends(
        &self,
        after: &Self,
        session: Seq<u8>,
        holder: u32,
        r: Result<(), OsstError>,
    ) -> bool;

    /// Marks a session of a holder spent, or refuses if it already is.
    ///
    /// # Errors
    ///
    /// [`OsstError::SessionSpent`] if the pair has already produced a share. An
    /// implementation backed by storage may return another error for a failure
    /// to record, which must be reported.
    fn spend(&mut self, session_id: &[u8; 32], holder_index: u32) -> (r: Result<(), OsstError>)
        ensures
            old(self).spends(final(self), session_id@, holder_index, r),
            old(self).spent().contains((session_id@, holder_index)) ==> r == Err::<(), OsstError>(
                OsstError::SessionSpent,
            ),
            r is Ok ==> final(self).spent() == old(self).spent().insert(
                (session_id@, holder_index),
            ),
            old(self).spent().subset_of(final(self).spent()),
    ;

    /// Whether the pair has already been spent.
    fn is_spent(&self, session_id: &[u8; 32], holder_index: u32) -> (r: bool)
        ensures
            r == self.spent().contains((session_id@, holder_index)),
    ;
}

/// An in-memory [`SpentSessions`], for tests. **Not durable.**
#[derive(Clone, Debug)]
pub struct MemorySpentSessions {
    spent: Vec<([u8; 32], u32)>,
}

impl MemorySpentSessions {
    /// The recorded pairs, in order.
    pub closed spec fn entries(&self) -> Seq<(Seq<u8>, u32)> {
        Seq::new(self.spent@.len(), |i: int| (self.spent@[i].0@, self.spent@[i].1))
    }

    /// An empty record.
    pub fn new() -> (r: Self)
        ensures
            r.entries() == Seq::<(Seq<u8>, u32)>::empty(),
    {
        let r = MemorySpentSessions { spent: Vec::new() };
        assert(r.entries() =~= Seq::empty());
        r
    }

    /// How many pairs have been recorded.
    pub fn len(&self) -> (r: usize)
        ensures
            r == self.entries().len(),
    {
        self.spent.len()
    }

    /// Whether no pair has been recorded.
    pub fn is_empty(&self) -> (r: bool)
        ensures
            r == (self.entries().len() == 0),
    {
        self.spent.len() == 0
    }
}

impl Default for MemorySpentSessions {
    fn default() -> (r: Self)
        ensures
            r.entries() == Seq::<(Seq<u8>, u32)>::empty(),
    {
        Self::new()
    }
}

impl SpentSessions for MemorySpentSessions {
    open spec fn spent(&self) -> Set<(Seq<u8>, u32)> {
        self.entries().to_set()
    }

    /// A new pair is recorded behind the others, and one that is recorded already is
    /// refused.
    open spec fn spends(
        &self,
        after: &Self,
        session: Seq<u8>,
        holder: u32,
        r: Result<(), OsstError>,
    ) -> bool {
        if self.entries().contains((session, holder)) {
            r == Err::<(), OsstError>(OsstError::SessionSpent) && after.entries()
                == self.entries()
        } else {
            r == Ok::<(), OsstError>(()) && after.entries() == self.entries().push(
                (session, holder),
            )
        }
    }

    fn spend(&mut self, session_id: &[u8; 32], holder_index: u32) -> (r: Result<(), OsstError>)
        ensures
            r is Ok <==> !old(self).entries().contains((session_id@, holder_index)),
            r matches Err(e) ==> e == OsstError::SessionSpent && final(self).entries() == old(
                self,
            ).entries(),
            r is Ok ==> final(self).entries() == old(self).entries().push(
                (session_id@, holder_index),
            ),
    {
        let ghost before = self.entries();
        let ghost pair = (session_id@, holder_index);
        if self.is_spent(session_id, holder_index) {
            return Err(OsstError::SessionSpent);
        }
        self.spent.push((*session_id, holder_index));
        proof {
            let after = self.entries();
            assert(after =~= before.push(pair));
            assert(after.to_set() =~= before.to_set().insert(pair)) by {
                assert forall|x: (Seq<u8>, u32)| after.contains(x) <==> before.contains(x) || x
                    == pair by {
                    if after.contains(x) {
                        let k = choose|k: int| 0 <= k < after.len() && after[k] == x;
                        if k < before.len() {
                            assert(before[k] == x);
                        }
                    }
                    if before.contains(x) {
                        let k = choose|k: int| 0 <= k < before.len() && before[k] == x;
                        assert(after[k] == x);
                    }
                    assert(after[before.len() as int] == pair);
                }
            }
        }
        Ok(())
    }

    fn is_spent(&self, session_id: &[u8; 32], holder_index: u32) -> (r: bool) {
        let ghost pair = (session_id@, holder_index);
        let mut i: usize = 0;
        while i < self.spent.len()
            invariant
                i <= self.spent@.len(),
                pair == (session_id@, holder_index),
                forall|j: int| 0 <= j < i ==> self.entries()[j] != pair,
            decreases self.spent@.len() - i,
        {
            if self.spent[i].1 == holder_index && bytes_eq(&self.spent[i].0, session_id) {
                assert(self.entries()[i as int] == pair);
                return true;
            }
            i += 1;
        }
        assert(!self.entries().contains(pair));
        false
    }
}

/// What [`inner_sign_v2`] returns: a share where none of its checks fails, and the
/// error of the first that does.
pub open spec fn is_inner_answer<P: OsstPoint>(
    nonces: InnerNoncesView,
    share: SecretShareView,
    group_pubkey: int,
    approved_message: Seq<u8>,
    request: NestedSigningRequest<'_, P>,
    r: Result<InnerSignatureShare<P::Scalar>, OsstError>,
) -> bool {
    let error = inner_sign_error::<P>(nonces, share, approved_message, request);
    &&& r is Ok <==> error is None
    &&& r matches Ok(s) ==> s.holder_index == nonces.holder && s.response.val()
        == inner_sign_response::<P>(nonces, share, group_pubkey, request)
    &&& r matches Err(e) ==> error == Some(e)
}

/// [`inner_sign_v2`], with the nonces' session recorded as spent before the
/// share is computed: unless the store refuses, the session is spent whatever comes
/// of the signing, and a crash between the record and the share leaves the
/// session burnt rather than replayable.
///
/// # Errors
///
/// [`OsstError::SessionSpent`] if this holder has already signed this session;
/// anything the store returns for a failure to record; and every error of
/// [`inner_sign_v2`].
pub fn inner_sign_v2_spending<P: OsstPoint, T: SpentSessions>(
    store: &mut T,
    nonces: InnerNonces<P::Scalar>,
    share: &SecretShare<P::Scalar>,
    local_group_pubkey: &P,
    approved_message: &[u8],
    request: &NestedSigningRequest<'_, P>,
) -> (r: Result<InnerSignatureShare<P::Scalar>, OsstError>)
    requires
        request.package.wf(),
    ensures
        exists|recorded: Result<(), OsstError>|
            {
                &&& #[trigger] old(store).spends(
                    final(store),
                    nonces@.session,
                    nonces@.holder,
                    recorded,
                )
                &&& recorded matches Err(e) ==> r == Err::<
                    InnerSignatureShare<P::Scalar>,
                    OsstError,
                >(e)
                &&& recorded is Ok ==> final(store).spent() == old(store).spent().insert(
                    (nonces@.session, nonces@.holder),
                ) && is_inner_answer::<P>(
                    nonces@,
                    share@,
                    local_group_pubkey.log(),
                    approved_message@,
                    *request,
                    r,
                )
            },
        old(store).spent().contains((nonces@.session, nonces@.holder)) ==> r == Err::<
            InnerSignatureShare<P::Scalar>,
            OsstError,
        >(OsstError::SessionSpent),
        old(store).spent().subset_of(final(store).spent()),
{
    let recorded = store.spend(&nonces.session_id, nonces.holder_index);
    inner_sign_v2_recorded::<P>(
        recorded,
        nonces,
        share,
        local_group_pubkey,
        approved_message,
        request,
    )
}

/// [`inner_sign_v2`] behind the outcome of recording the session: a refusal to
/// record is returned as it is, and nothing is signed.
///
/// # Errors
///
/// The error of `recorded`; otherwise those of [`inner_sign_v2`].
pub fn inner_sign_v2_recorded<P: OsstPoint>(
    recorded: Result<(), OsstError>,
    nonces: InnerNonces<P::Scalar>,
    share: &SecretShare<P::Scalar>,
    local_group_pubkey: &P,
    approved_message: &[u8],
    request: &NestedSigningRequest<'_, P>,
) -> (r: Result<InnerSignatureShare<P::Scalar>, OsstError>)
    requires
        request.package.wf(),
    ensures
        r is Ok <==> recorded is Ok && inner_sign_error::<P>(
            nonces@,
            share@,
            approved_message@,
            *request,
        ) is None,
        r matches Ok(s) ==> s.holder_index == nonces@.holder && s.response.val()
            == inner_sign_response::<P>(nonces@, share@, local_group_pubkey.log(), *request),
        r matches Err(e) ==> if recorded is Err {
            recorded == Err::<(), OsstError>(e)
        } else {
            inner_sign_error::<P>(nonces@, share@, approved_message@, *request) == Some(e)
        },
{
    match recorded {
        Ok(_) => {},
        Err(e) => {
            let mut nonces = nonces;
            nonces.zeroize();
            return Err(e);
        },
    }
    inner_sign_v2::<P>(nonces, share, local_group_pubkey, approved_message, request)
}

/// [`inner_sign_v2`] with the approved message given as an epoch-bound
/// [`SigningContext`].
///
/// # Errors
///
/// [`OsstError::MessageMismatch`] unless the package was built over the
/// context's encoding; otherwise what [`inner_sign_v2`] gives.
pub fn inner_sign_v2_with_context<P: OsstPoint>(
    nonces: InnerNonces<P::Scalar>,
    share: &SecretShare<P::Scalar>,
    local_group_pubkey: &P,
    ctx: &SigningContext<'_>,
    request: &NestedSigningRequest<'_, P>,
) -> (r: Result<InnerSignatureShare<P::Scalar>, OsstError>)
    requires
        request.package.wf(),
    ensures
        r is Ok <==> inner_sign_error::<P>(nonces@, share@, ctx.encoding(), *request) is None,
        r matches Ok(s) ==> s.holder_index == nonces@.holder && s.response.val()
            == inner_sign_response::<P>(nonces@, share@, local_group_pubkey.log(), *request),
        r matches Err(e) ==> inner_sign_error::<P>(nonces@, share@, ctx.encoding(), *request)
            == Some(e),
{
    let approved = ctx.encode();
    inner_sign_v2::<P>(nonces, share, local_group_pubkey, &approved, request)
}

// ---------------------------------------------------------------------------
// Verification and aggregation
// ---------------------------------------------------------------------------

/// Verifies one inner holder's share before it is aggregated: whether it is the
/// response that its commitment and public share call for.
pub fn verify_inner_share<P: OsstPoint>(
    sig: &InnerSignatureShare<P::Scalar>,
    commitment: &InnerCommitments<P>,
    public_share: &P,
    params: &InnerSigningParamsV2<P::Scalar>,
    mu_k: &P::Scalar,
) -> (r: bool)
    ensures
        r == (sig.response.val() == inner_response(
            commitment@,
            params@,
            mu_k.val(),
            public_share.log(),
            ord::<P>(),
        )),
{
    let lhs = base_mul::<P>(&sig.response);
    let w = weight(params, mu_k);
    let rhs = commitment.hiding.add(&commitment.binding.mul_scalar(&params.outer_binding)).add(
        &public_share.mul_scalar(&w),
    );
    proof {
        <P::Scalar as OsstScalar>::lemma_order();
        let n = ord::<P>();
        let (d, e, p) = (commitment@.hiding, commitment@.binding, params@.binding);
        let iw = inner_weight(params@, mu_k.val());
        let s = public_share.log();
        lemma_mod_mul(s, iw, n);
        assert(s * iw == iw * s) by (nonlinear_arith);
        assert(e * p == p * e) by (nonlinear_arith);
        lemma_mod_add(d, p * e, n);
        lemma_mod_add(d + p * e, iw * s, n);
    }
    lhs.equals(&rhs)
}

/// The first public share of a holder.
pub open spec fn public_of<P: OsstPoint>(publics: Seq<(u32, P)>, holder: u32) -> Option<int>
    decreases publics.len(),
{
    if publics.len() == 0 {
        None
    } else if publics[0].0 == holder {
        Some(publics[0].1.log())
    } else {
        public_of(publics.drop_first(), holder)
    }
}

/// The first public share of a holder.
fn find_public<P: OsstPoint>(publics: &[(u32, P)], holder: u32) -> (r: Option<P>)
    ensures
        r is Some <==> public_of(publics@, holder) is Some,
        r matches Some(p) ==> public_of(publics@, holder) == Some(p.log()),
{
    let mut i: usize = 0;
    assert(publics@.subrange(0, publics@.len() as int) =~= publics@);
    while i < publics.len()
        invariant
            i <= publics@.len(),
            public_of(publics@, holder) == public_of(
                publics@.subrange(i as int, publics@.len() as int),
                holder,
            ),
        decreases publics@.len() - i,
    {
        let ghost rest = publics@.subrange(i as int, publics@.len() as int);
        assert(rest[0] == publics@[i as int]);
        if publics[i].0 == holder {
            return Some(publics[i].1);
        }
        assert(rest.drop_first() =~= publics@.subrange(i as int + 1, publics@.len() as int));
        i += 1;
    }
    None
}

/// A share verifies: its holder is in the quorum, has a commitment and a public
/// share, and its response is the one they call for.
pub open spec fn share_verifies<P: OsstPoint>(
    sig: InnerSignatureShare<P::Scalar>,
    cs: Seq<InnerNoncesView>,
    publics: Seq<(u32, P)>,
    params: ParamsView,
    active: Seq<u32>,
) -> bool {
    let k = sig.holder_index;
    &&& active.contains(k)
    &&& commitment_of(cs, k) is Some
    &&& public_of(publics, k) is Some
    &&& sig.response.val() == inner_response(
        commitment_of(cs, k)->0,
        params,
        coefficient_of(active, k, ord::<P>()),
        public_of(publics, k)->0,
        ord::<P>(),
    )
}

/// The holders of some shares.
pub open spec fn sig_holders<S: OsstScalar>(sigs: Seq<InnerSignatureShare<S>>) -> Seq<u32> {
    Seq::new(sigs.len(), |i: int| sigs[i].holder_index)
}

/// The responses of some shares.
pub open spec fn sig_responses<S: OsstScalar>(sigs: Seq<InnerSignatureShare<S>>) -> Seq<int> {
    Seq::new(sigs.len(), |i: int| sigs[i].response.val())
}

/// A share repeats the holder of an earlier one.
pub open spec fn repeats_holder<S: OsstScalar>(
    sigs: Seq<InnerSignatureShare<S>>,
    i: int,
    holder: u32,
) -> bool {
    0 <= i < sigs.len() && sigs[i].holder_index == holder && sig_holders(
        sigs.subrange(0, i),
    ).contains(holder)
}

/// A share of a holder does not verify.
pub open spec fn fails_at<P: OsstPoint>(
    sigs: Seq<InnerSignatureShare<P::Scalar>>,
    i: int,
    holder: u32,
    cs: Seq<InnerNoncesView>,
    publics: Seq<(u32, P)>,
    params: ParamsView,
    active: Seq<u32>,
) -> bool {
    0 <= i < sigs.len() && sigs[i].holder_index == holder && !share_verifies::<P>(
        sigs[i],
        cs,
        publics,
        params,
        active,
    )
}

/// A holder is at fault: it is of the quorum and produced no share, produced
/// two, or produced one that does not verify (as one from outside the quorum
/// never does).
pub open spec fn is_faulty<P: OsstPoint>(
    holder: u32,
    sigs: Seq<InnerSignatureShare<P::Scalar>>,
    cs: Seq<InnerNoncesView>,
    publics: Seq<(u32, P)>,
    params: ParamsView,
    active: Seq<u32>,
) -> bool {
    ||| active.contains(holder) && !sig_holders(sigs).contains(holder)
    ||| exists|i: int| repeats_holder(sigs, i, holder)
    ||| exists|i: int| fails_at::<P>(sigs, i, holder, cs, publics, params, active)
}

/// Nobody is at fault.
pub open spec fn is_faultless<P: OsstPoint>(
    sigs: Seq<InnerSignatureShare<P::Scalar>>,
    cs: Seq<InnerNoncesView>,
    publics: Seq<(u32, P)>,
    params: ParamsView,
    active: Seq<u32>,
) -> bool {
    forall|k: u32| !#[trigger] is_faulty::<P>(k, sigs, cs, publics, params, active)
}

/// Verifies every inner share, then aggregates.
///
/// The error names the holders at fault, ascending, so that the caller can evict
/// them and retry with a different quorum: those whose share does not verify,
/// those of the quorum that produced no share, and those that produced two. If
/// the quorum itself has a member twice, it is returned as it was given.
pub fn aggregate_inner_shares_verified<P: OsstPoint>(
    sigs: &[InnerSignatureShare<P::Scalar>],
    commitments: &[InnerCommitments<P>],
    public_shares: &[(u32, P)],
    params: &InnerSigningParamsV2<P::Scalar>,
    active_indices: &[u32],
) -> (r: Result<P::Scalar, Vec<u32>>)
    ensures
        r is Ok <==> active_indices@.no_duplicates() && forall|k: u32|
            !#[trigger] is_faulty::<P>(
                k,
                sigs@,
                inner_views(commitments@),
                public_shares@,
                params@,
                active_indices@,
            ),
        r is Ok <==> active_indices@.no_duplicates() && is_faultless::<P>(
            sigs@,
            inner_views(commitments@),
            public_shares@,
            params@,
            active_indices@,
        ),
        r matches Ok(z) ==> z.val() == sum(sig_responses(sigs@)) % ord::<P>(),
        r matches Err(bad) ==> if !active_indices@.no_duplicates() {
            bad@ == active_indices@
        } else {
            crate::sets::ascending(bad@) && bad@.len() > 0 && forall|k: u32|
                bad@.contains(k) <==> #[trigger] is_faulty::<P>(
                    k,
                    sigs@,
                    inner_views(commitments@),
                    public_shares@,
                    params@,
                    active_indices@,
                )
        },
{
    let lagrange = match compute_lagrange_coefficients::<P::Scalar>(active_indices) {
        Ok(l) => l,
        Err(_) => return Err(copy_vec(active_indices)),
    };
    let ghost n = ord::<P>();
    let ghost cs = inner_views(commitments@);
    let ghost pv = params@;
    let ghost active = active_indices@;
    let ghost zs = sig_responses(sigs@);
    let ghost hs = sig_holders(sigs@);
    let mut bad: Vec<u32> = Vec::new();
    let mut seen: Vec<u32> = Vec::new();
    let mut z = <P::Scalar as OsstScalar>::zero();
    let mut i: usize = 0;
    proof {
        <P::Scalar as OsstScalar>::lemma_order();
        lemma_small_mod(0, n as nat);
        assert(zs.subrange(0, 0).len() == 0);
        assert(hs.subrange(0, 0) =~= Seq::empty());
    }
    while i < sigs.len()
        invariant
            i <= sigs@.len(),
            n == ord::<P>(),
            n > 0,
            cs == inner_views(commitments@),
            pv == params@,
            active == active_indices@,
            active.no_duplicates(),
            lagrange@.len() == active.len(),
            vals(lagrange@) == coefficients(active, n),
            zs == sig_responses(sigs@),
            hs == sig_holders(sigs@),
            seen@ == hs.subrange(0, i as int),
            crate::sets::ascending(bad@),
            forall|k: u32|
                #[trigger] bad@.contains(k) <==> ((exists|j: int|
                    j < i && repeats_holder(sigs@, j, k)) || (exists|j: int|
                    j < i && fails_at::<P>(sigs@, j, k, cs, public_shares@, pv, active))),
            bad@.len() == 0 ==> z.val() == sum(zs.subrange(0, i as int)) % n,
        decreases sigs@.len() - i,
    {
        let sig = &sigs[i];
        let k = sig.holder_index;
        let ghost before = bad@;
        let mut fault = contains_index(&seen, k);
        proof {
            assert(sig_holders(sigs@.subrange(0, i as int)) =~= hs.subrange(0, i as int));
            assert(repeats_holder(sigs@, i as int, k) == fault);
        }
        let pos = index_position(active_indices, k);
        let at = find_inner::<P>(commitments, k);
        let public = find_public::<P>(public_shares, k);
        let mut verified = false;
        match (pos, at, public) {
            (Some(p), Some(c), Some(y)) => {
                assert(vals(lagrange@)[p as int] == lagrange@[p as int].val());
                verified = verify_inner_share::<P>(sig, &commitments[c], &y, params, &lagrange[p]);
            },
            _ => {},
        }
        assert(verified == share_verifies::<P>(*sig, cs, public_shares@, pv, active));
        assert(fails_at::<P>(sigs@, i as int, k, cs, public_shares@, pv, active) == !verified);
        if verified {
            z = z.add(&sig.response);
        } else {
            fault = true;
        }
        if fault {
            insert_index(&mut bad, k);
        }
        seen.push(k);
        proof {
            assert(hs.subrange(0, i as int + 1) =~= hs.subrange(0, i as int).push(k));
            assert(zs.subrange(0, i as int + 1).drop_last() =~= zs.subrange(0, i as int));
            lemma_mod_add(sum(zs.subrange(0, i as int)), zs[i as int], n);
            if fault {
                assert(bad@.contains(k));
            }
            assert forall|h: u32|
                #[trigger] bad@.contains(h) <==> ((exists|j: int|
                    j < i + 1 && repeats_holder(sigs@, j, h)) || (exists|j: int|
                    j < i + 1 && fails_at::<P>(
                        sigs@,
                        j,
                        h,
                        cs,
                        public_shares@,
                        pv,
                        active,
                    ))) by {
                assert(bad@.contains(h) <==> before.contains(h) || (fault && h == k));
                if before.contains(h) {
                    if exists|j: int| j < i && repeats_holder(sigs@, j, h) {
                        let j = choose|j: int| j < i && repeats_holder(sigs@, j, h);
                        assert(j < i + 1 && repeats_holder(sigs@, j, h));
                    } else {
                        let j = choose|j: int|
                            j < i && fails_at::<P>(sigs@, j, h, cs, public_shares@, pv, active);
                        assert(j < i + 1 && fails_at::<P>(
                            sigs@,
                            j,
                            h,
                            cs,
                            public_shares@,
                            pv,
                            active,
                        ));
                    }
                }
                if fault && h == k {
                    assert(repeats_holder(sigs@, i as int, k) || fails_at::<P>(
                        sigs@,
                        i as int,
                        k,
                        cs,
                        public_shares@,
                        pv,
                        active,
                    ));
                }
                if exists|j: int| j < i + 1 && repeats_holder(sigs@, j, h) {
                    let j = choose|j: int| j < i + 1 && repeats_holder(sigs@, j, h);
                    if j < i {
                        assert(j < i && repeats_holder(sigs@, j, h));
                    }
                }
                if exists|j: int|
                    j < i + 1 && fails_at::<P>(sigs@, j, h, cs, public_shares@, pv, active) {
                    let j = choose|j: int|
                        j < i + 1 && fails_at::<P>(sigs@, j, h, cs, public_shares@, pv, active);
                    if j < i {
                        assert(j < i && fails_at::<P>(
                            sigs@,
                            j,
                            h,
                            cs,
                            public_shares@,
                            pv,
                            active,
                        ));
                    }
                }
            }
            if bad@.len() == 0 {
                assert(before.len() == 0) by {
                    if before.len() > 0 {
                        assert(before.contains(before[0]));
                        assert(bad@.contains(before[0]));
                    }
                }
                if !verified {
                    assert(bad@.contains(k));
                }
            }
        }
        i += 1;
    }
    let ghost shares_bad = bad@;
    assert(hs.subrange(0, i as int) =~= hs);
    assert(zs.subrange(0, i as int) =~= zs);
    proof {
        assert forall|k: u32|
            #[trigger] shares_bad.contains(k) <==> ((exists|j: int| repeats_holder(sigs@, j, k))
                || (exists|j: int|
                fails_at::<P>(sigs@, j, k, cs, public_shares@, pv, active))) by {
            if exists|j: int| repeats_holder(sigs@, j, k) {
                let j = choose|j: int| repeats_holder(sigs@, j, k);
                assert(j < sigs@.len() && repeats_holder(sigs@, j, k));
            }
            if exists|j: int| fails_at::<P>(sigs@, j, k, cs, public_shares@, pv, active) {
                let j = choose|j: int| fails_at::<P>(sigs@, j, k, cs, public_shares@, pv, active);
                assert(j < sigs@.len() && fails_at::<P>(
                    sigs@,
                    j,
                    k,
                    cs,
                    public_shares@,
                    pv,
                    active,
                ));
            }
        }
    }
    let mut j: usize = 0;
    while j < active_indices.len()
        invariant
            j <= active_indices@.len(),
            active == active_indices@,
            hs == sig_holders(sigs@),
            seen@ == hs,
            crate::sets::ascending(bad@),
            shares_bad.len() <= bad@.len(),
            forall|k: u32|
                #[trigger] bad@.contains(k) <==> shares_bad.contains(k) || (active.subrange(
                    0,
                    j as int,
                ).contains(k) && !hs.contains(k)),
        decreases active_indices@.len() - j,
    {
        let k = active_indices[j];
        let ghost before = bad@;
        if !contains_index(&seen, k) {
            insert_index(&mut bad, k);
        }
        proof {
            let a = active.subrange(0, j as int);
            let b = active.subrange(0, j as int + 1);
            assert(b =~= a.push(k));
            assert forall|h: u32| #[trigger] b.contains(h) <==> a.contains(h) || h == k by {
                crate::sets::lemma_push_contains(a, k, h);
            }
            crate::sets::lemma_at_most(before, bad@);
        }
        j += 1;
    }
    assert(active.subrange(0, j as int) =~= active);
    proof {
        assert forall|k: u32|
            bad@.contains(k) <==> #[trigger] is_faulty::<P>(
                k,
                sigs@,
                cs,
                public_shares@,
                pv,
                active,
            ) by {
            assert(shares_bad.contains(k) <==> ((exists|j: int| repeats_holder(sigs@, j, k)) || (
            exists|j: int| fails_at::<P>(sigs@, j, k, cs, public_shares@, pv, active))));
        }
    }
    if bad.len() == 0 {
        proof {
            assert forall|k: u32|
                !#[trigger] is_faulty::<P>(k, sigs@, cs, public_shares@, pv, active) by {
                assert(!bad@.contains(k));
            }
        }
        Ok(z)
    } else {
        proof {
            assert(bad@.contains(bad@[0]));
            assert(is_faulty::<P>(bad@[0], sigs@, cs, public_shares@, pv, active));
        }
        Err(bad)
    }
}

// ---------------------------------------------------------------------------
// Laws
// ---------------------------------------------------------------------------

/// The powers of `x`, from the zeroth.
pub open spec fn powers(x: int, len: nat) -> Seq<int>
    decreases len,
{
    if len == 0 {
        Seq::empty()
    } else {
        powers(x, (len - 1) as nat).push(power(x, (len - 1) as nat))
    }
}

/// `x` to the power `k`.
pub open spec fn power(x: int, k: nat) -> int
    decreases k,
{
    if k == 0 {
        1
    } else {
        x * power(x, (k - 1) as nat)
    }
}

proof fn lemma_poly_push(c: Seq<int>, a: int, x: int)
    ensures
        poly(c.push(a), x) == poly(c, x) + power(x, c.len()) * a,
    decreases c.len(),
{
    let d = c.push(a);
    if c.len() == 0 {
        assert(d.drop_first() =~= Seq::empty());
        assert(poly(d.drop_first(), x) == 0);
        assert(x * 0 == 0) by (nonlinear_arith);
        assert(1 * a == a);
    } else {
        let r = c.drop_first();
        assert(d.drop_first() =~= r.push(a));
        lemma_poly_push(r, a, x);
        let (p, q) = (poly(r, x), power(x, r.len()));
        assert(poly(c.push(a), x) == c[0] + x * (p + q * a));
        assert(power(x, c.len()) == x * q);
        assert(x * (p + q * a) == x * p + (x * q) * a) by (nonlinear_arith);
    }
}

/// A polynomial's value is the inner product of its coefficients and powers.
proof fn lemma_poly_powers(c: Seq<int>, x: int)
    ensures
        powers(x, c.len()).len() == c.len(),
        poly(c, x) == dot(powers(x, c.len()), c),
    decreases c.len(),
{
    if c.len() > 0 {
        let r = c.drop_last();
        lemma_poly_powers(r, x);
        assert(r.push(c.last()) =~= c);
        lemma_poly_push(r, c.last(), x);
        lemma_dot_push(powers(x, r.len()), r, power(x, r.len()), c.last());
    }
}

/// The sum of two inner products is the one of the concatenations.
proof fn lemma_dot_concat(a: Seq<int>, b: Seq<int>, c: Seq<int>, d: Seq<int>)
    requires
        a.len() == b.len(),
        c.len() == d.len(),
    ensures
        dot(a + c, b + d) == dot(a, b) + dot(c, d),
    decreases c.len(),
{
    if c.len() == 0 {
        assert(a + c =~= a);
        assert(b + d =~= b);
    } else {
        lemma_dot_concat(a, b, c.drop_last(), d.drop_last());
        assert((a + c).drop_last() =~= a + c.drop_last());
        assert((b + d).drop_last() =~= b + d.drop_last());
    }
}

/// The polynomial whose values are the holders' shares of the nested position's
/// secret: the interleaved polynomials weighted by the powers of the position,
/// and the splitting polynomials of the outer participants.
pub open spec fn nested_polynomial(
    interleaved: Seq<Seq<int>>,
    splits: Seq<Seq<int>>,
    position: u32,
    t: nat,
) -> Seq<int> {
    combine(
        powers(position as int, interleaved.len()) + Seq::new(splits.len(), |i: int| 1int),
        interleaved + splits,
        t,
    )
}

/// The constant terms of some polynomials.
pub open spec fn constant_terms(rows: Seq<Seq<int>>) -> Seq<int> {
    Seq::new(rows.len(), |i: int| rows[i][0])
}

/// The constant term of the nested polynomial is the outer share that is never
/// assembled: the group's outer polynomial at its position, and the evaluations
/// that the outer participants split.
pub proof fn law_nested_secret(
    interleaved: Seq<Seq<int>>,
    splits: Seq<Seq<int>>,
    position: u32,
    t: nat,
)
    requires
        t > 0,
        forall|i: int| 0 <= i < interleaved.len() ==> (#[trigger] interleaved[i]).len() == t,
        forall|i: int| 0 <= i < splits.len() ==> (#[trigger] splits[i]).len() == t,
    ensures
        nested_polynomial(interleaved, splits, position, t).len() == t,
        nested_polynomial(interleaved, splits, position, t)[0] == poly(
            constant_terms(interleaved),
            position as int,
        ) + sum(constant_terms(splits)),
{
    lemma_nested_value(interleaved, splits, position, t, 0);
    lemma_poly_zero(nested_polynomial(interleaved, splits, position, t));
    assert(evaluations(interleaved, 0) =~= constant_terms(interleaved)) by {
        assert forall|i: int| 0 <= i < interleaved.len() implies evaluations(interleaved, 0)[i]
            == interleaved[i][0] by {
            assert(interleaved[i].len() == t);
            lemma_poly_zero(interleaved[i]);
        }
    }
    assert(evaluations(splits, 0) =~= constant_terms(splits)) by {
        assert forall|i: int| 0 <= i < splits.len() implies evaluations(splits, 0)[i]
            == splits[i][0] by {
            assert(splits[i].len() == t);
            lemma_poly_zero(splits[i]);
        }
    }
}

proof fn lemma_nested_value(
    interleaved: Seq<Seq<int>>,
    splits: Seq<Seq<int>>,
    position: u32,
    t: nat,
    at: int,
)
    requires
        forall|i: int| 0 <= i < interleaved.len() ==> (#[trigger] interleaved[i]).len() == t,
        forall|i: int| 0 <= i < splits.len() ==> (#[trigger] splits[i]).len() == t,
    ensures
        nested_polynomial(interleaved, splits, position, t).len() == t,
        poly(nested_polynomial(interleaved, splits, position, t), at) == poly(
            evaluations(interleaved, at),
            position as int,
        ) + sum(evaluations(splits, at)),
{
    let x = position as int;
    let rows = interleaved + splits;
    let ones = Seq::new(splits.len(), |i: int| 1int);
    let (ei, es) = (evaluations(interleaved, at), evaluations(splits, at));
    lemma_poly_powers(ei, x);
    assert forall|i: int| 0 <= i < rows.len() implies (#[trigger] rows[i]).len() == t by {
        if i < interleaved.len() {
            assert(interleaved[i].len() == t);
        } else {
            assert(splits[i - interleaved.len()].len() == t);
        }
    }
    lemma_combine(powers(x, interleaved.len()) + ones, rows, t, at);
    assert(evaluations(rows, at) =~= ei + es);
    lemma_dot_concat(powers(x, interleaved.len()), ei, ones, es);
    lemma_dot_ones(es);
}

/// What [`combine_shares`] gives a holder is the nested polynomial's value at
/// it: where the holder's coefficient shares are values of the interleaved
/// polynomials and its pieces values of the splitting polynomials.
pub proof fn law_combined_share_on_polynomial<P: OsstPoint>(
    share: InnerShare<P::Scalar>,
    pieces: Seq<(u32, P::Scalar)>,
    interleaved: Seq<Seq<int>>,
    splits: Seq<Seq<int>>,
    position: u32,
    t: nat,
)
    requires
        share.coefficient_shares@.len() == interleaved.len(),
        pieces.len() == splits.len(),
        forall|i: int| 0 <= i < interleaved.len() ==> (#[trigger] interleaved[i]).len() == t,
        forall|i: int| 0 <= i < splits.len() ==> (#[trigger] splits[i]).len() == t,
        forall|j: int|
            0 <= j < interleaved.len() ==> (#[trigger] share.coefficient_shares@[j]).val() == poly(
                interleaved[j],
                share.holder_index as int,
            ) % ord::<P>(),
        forall|i: int|
            0 <= i < pieces.len() ==> (#[trigger] pieces[i]).1.val() == poly(
                splits[i],
                share.holder_index as int,
            ) % ord::<P>(),
    ensures
        (poly(vals(share.coefficient_shares@), position as int) + sum(piece_values(pieces)))
            % ord::<P>() == poly(
            nested_polynomial(interleaved, splits, position, t),
            share.holder_index as int,
        ) % ord::<P>(),
{
    <P::Scalar as OsstScalar>::lemma_order();
    let n = ord::<P>();
    let (x, k) = (position as int, share.holder_index as int);
    let (ei, es) = (evaluations(interleaved, k), evaluations(splits, k));
    let cs = vals(share.coefficient_shares@);
    let ps = piece_values(pieces);
    assert forall|j: int| 0 <= j < cs.len() implies eqm(#[trigger] cs[j], ei[j], n) by {
        assert(share.coefficient_shares@[j].val() == ei[j] % n);
        lemma_eqm_mod(ei[j], n);
    }
    lemma_poly_eqm(cs, ei, x, n);
    assert forall|i: int| 0 <= i < ps.len() implies eqm(#[trigger] ps[i], es[i], n) by {
        assert(pieces[i].1.val() == es[i] % n);
        lemma_eqm_mod(es[i], n);
    }
    lemma_sum_eqm(ps, es, n);
    lemma_eqm_add(poly(cs, x), poly(ei, x), sum(ps), sum(es), n);
    lemma_nested_value(interleaved, splits, position, t, k);
}

/// Inner shares in the order of the commitments, up to position `m`, add up to
/// the nonces' sum and the weighted secrets.
proof fn lemma_inner_sum(
    cs: Seq<InnerNoncesView>,
    params: ParamsView,
    mus: Seq<int>,
    secrets: Seq<int>,
    n: int,
    m: nat,
)
    requires
        n > 0,
        m <= cs.len(),
        mus.len() == cs.len(),
        secrets.len() == cs.len(),
    ensures
        eqm(
            sum(
                Seq::new(m, |i: int| inner_response(cs[i], params, mus[i], secrets[i], n)),
            ),
            sum(hidings(cs).subrange(0, m as int)) + params.binding * sum(
                bindings(cs).subrange(0, m as int),
            ) + params.lambda * params.challenge * dot(
                mus.subrange(0, m as int),
                secrets.subrange(0, m as int),
            ),
            n,
        ),
    decreases m,
{
    let (hs, bs) = (hidings(cs), bindings(cs));
    let zs = Seq::new(m, |i: int| inner_response(cs[i], params, mus[i], secrets[i], n));
    let (p, l, c) = (params.binding, params.lambda, params.challenge);
    if m == 0 {
        assert(p * 0 == 0) by (nonlinear_arith);
        assert((l * c) * 0 == 0) by (nonlinear_arith);
    } else {
        let k = (m - 1) as nat;
        lemma_inner_sum(cs, params, mus, secrets, n, k);
        assert(zs.drop_last() =~= Seq::new(
            k,
            |i: int| inner_response(cs[i], params, mus[i], secrets[i], n),
        ));
        assert(hs.subrange(0, m as int).drop_last() =~= hs.subrange(0, k as int));
        assert(bs.subrange(0, m as int).drop_last() =~= bs.subrange(0, k as int));
        assert(mus.subrange(0, m as int).drop_last() =~= mus.subrange(0, k as int));
        assert(secrets.subrange(0, m as int).drop_last() =~= secrets.subrange(0, k as int));
        let (h, b, mu, s) = (cs[k as int].hiding, cs[k as int].binding, mus[k as int], secrets[k as int]);
        let one = h + p * b + l * c * mu * s;
        lemma_eqm_mod(one, n);
        let (sh, sb) = (sum(hs.subrange(0, k as int)), sum(bs.subrange(0, k as int)));
        let d = dot(mus.subrange(0, k as int), secrets.subrange(0, k as int));
        lemma_eqm_add(
            sum(zs.drop_last()),
            sh + p * sb + l * c * d,
            zs.last(),
            one,
            n,
        );
        let lc = l * c;
        assert(lc * mu * s == lc * (mu * s)) by (nonlinear_arith);
        assert(lc * (d + mu * s) == lc * d + lc * (mu * s)) by (nonlinear_arith);
        assert(p * (sb + b) == p * sb + p * b) by (nonlinear_arith);
    }
}

/// The commitment of a holder at a position, where no holder has two.
proof fn lemma_commitment_at(cs: Seq<InnerNoncesView>, i: int)
    requires
        holders(cs).no_duplicates(),
        0 <= i < cs.len(),
    ensures
        commitment_of(cs, cs[i].holder) == Some(cs[i]),
    decreases cs.len(),
{
    if i > 0 {
        let rest = cs.drop_first();
        assert(holders(cs)[0] != holders(cs)[i]);
        assert(holders(rest) =~= holders(cs).drop_first());
        assert(holders(rest).no_duplicates()) by {
            assert forall|a: int, b: int|
                0 <= a < rest.len() && 0 <= b < rest.len() && a != b implies holders(rest)[a]
                != holders(rest)[b] by {
                assert(holders(cs)[a + 1] != holders(cs)[b + 1]);
            }
        }
        assert(rest[i - 1] == cs[i]);
        lemma_commitment_at(rest, i - 1);
    }
}

/// The response of each holder of a quorum for a polynomial's value at it.
pub open spec fn quorum_responses(
    cs: Seq<InnerNoncesView>,
    params: ParamsView,
    active: Seq<u32>,
    polynomial: Seq<int>,
    n: int,
) -> spec_fn(u32) -> int {
    |k: u32|
        inner_response(
            commitment_of(cs, k)->0,
            params,
            coefficient_of(active, k, n),
            poly(polynomial, k as int) % n,
            n,
        )
}

/// A quorum signs with exactly the holders that committed: no holder twice, and
/// none of them missing.
pub open spec fn is_full_quorum(cs: Seq<InnerNoncesView>, active: Seq<u32>) -> bool {
    &&& holders(cs).no_duplicates()
    &&& active.no_duplicates()
    &&& active.len() == cs.len()
    &&& forall|i: int| 0 <= i < active.len() ==> holders(cs).contains(#[trigger] active[i])
}

/// Nested signing is the signing of one flat signer: where the inner shares are
/// the values of a polynomial, the quorum is the holders that committed and no
/// smaller than the polynomial's number of coefficients, and each holder, in any
/// order, gives the response it owes, the sum of the responses is the response
/// of a signer that holds the polynomial's value at zero, with the sums of the
/// inner nonces as its nonces.
pub proof fn law_nested_sum_is_flat_response<P: OsstPoint>(
    cs: Seq<InnerNoncesView>,
    params: ParamsView,
    active: Seq<u32>,
    polynomial: Seq<int>,
    sigs: Seq<InnerSignatureShare<P::Scalar>>,
)
    requires
        is_field(ord::<P>()),
        ord::<P>() > 0x1_0000_0000,
        is_full_quorum(cs, active),
        0 < polynomial.len() <= active.len(),
        sigs.len() == active.len(),
        sig_holders(sigs).no_duplicates(),
        forall|i: int|
            0 <= i < sigs.len() ==> active.contains((#[trigger] sigs[i]).holder_index)
                && sigs[i].response.val() == inner_response(
                commitment_of(cs, sigs[i].holder_index)->0,
                params,
                coefficient_of(active, sigs[i].holder_index, ord::<P>()),
                poly(polynomial, sigs[i].holder_index as int) % ord::<P>(),
                ord::<P>(),
            ),
    ensures
        sum(sig_responses(sigs)) % ord::<P>() == response_value(
            NoncesView {
                hiding: sum(hidings(cs)) % ord::<P>(),
                binding: sum(bindings(cs)) % ord::<P>(),
            },
            params.binding,
            params.lambda,
            params.challenge,
            polynomial[0] % ord::<P>(),
            ord::<P>(),
        ),
{
    <P::Scalar as OsstScalar>::lemma_order();
    let n = ord::<P>();
    let g = quorum_responses(cs, params, active, polynomial, n);
    let hs = holders(cs);
    let picked = sig_holders(sigs);
    // the shares, in the order of the commitments
    assert forall|i: int| 0 <= i < picked.len() implies active.contains(#[trigger] picked[i]) by {
        assert(active.contains(sigs[i].holder_index));
    }
    lemma_same_multiset(picked, active);
    lemma_same_multiset(active, hs);
    lemma_sum_permutation(g, picked, hs);
    assert(sig_responses(sigs) =~= Seq::new(picked.len(), |i: int| g(picked[i])));
    let mus = Seq::new(cs.len(), |i: int| coefficient_of(active, hs[i], n));
    let secrets = Seq::new(cs.len(), |i: int| poly(polynomial, hs[i] as int) % n);
    assert(Seq::new(hs.len(), |i: int| g(hs[i])) =~= Seq::new(
        cs.len(),
        |i: int| inner_response(cs[i], params, mus[i], secrets[i], n),
    )) by {
        assert forall|i: int| 0 <= i < cs.len() implies g(hs[i]) == inner_response(
            cs[i],
            params,
            mus[i],
            secrets[i],
            n,
        ) by {
            lemma_commitment_at(cs, i);
        }
    }
    lemma_inner_sum(cs, params, mus, secrets, n, cs.len());
    assert(hidings(cs).subrange(0, cs.len() as int) =~= hidings(cs));
    assert(bindings(cs).subrange(0, cs.len() as int) =~= bindings(cs));
    assert(mus.subrange(0, cs.len() as int) =~= mus);
    assert(secrets.subrange(0, cs.len() as int) =~= secrets);
    // the weighted secrets are the polynomial's value at zero
    let w = |k: u32| coefficient_of(active, k, n) * (poly(polynomial, k as int) % n);
    lemma_dot_by(w, mus, secrets, hs);
    lemma_sum_permutation(w, active, hs);
    let l = coefficients(active, n);
    let s = Seq::new(active.len(), |i: int| poly(polynomial, active[i] as int) % n);
    assert forall|i: int| 0 <= i < active.len() implies w(active[i]) == #[trigger] l[i]
        * s[i] by {
        assert(active.contains(active[i]));
        assert(active.index_of(active[i]) == i);
    }
    lemma_dot_by(w, l, s, active);
    assert forall|i: int| 0 <= i < active.len() implies eqm(
        #[trigger] s[i],
        poly(polynomial, active[i] as int),
        n,
    ) by {
        lemma_eqm_mod(poly(polynomial, active[i] as int), n);
    }
    lemma_reconstruct(active, s, polynomial, n);
    lemma_poly_zero(polynomial);
    // term by term
    let (sh, sb) = (sum(hidings(cs)), sum(bindings(cs)));
    let q = polynomial[0];
    let lc = params.lambda * params.challenge;
    lemma_eqm_mod(sh, n);
    lemma_eqm_mod(sb, n);
    lemma_eqm_mod(q, n);
    lemma_eqm_mul(params.binding, params.binding, sb, sb % n, n);
    lemma_eqm_mul(lc, lc, dot(mus, secrets), q % n, n);
    lemma_eqm_add(sh, sh % n, params.binding * sb, params.binding * (sb % n), n);
    lemma_eqm_add(
        sh + params.binding * sb,
        sh % n + params.binding * (sb % n),
        lc * dot(mus, secrets),
        lc * (q % n),
        n,
    );
}

/// An inner product whose terms are a function of indices is a sum over them.
pub proof fn lemma_dot_by(f: spec_fn(u32) -> int, a: Seq<int>, b: Seq<int>, ids: Seq<u32>)
    requires
        a.len() == ids.len(),
        b.len() == ids.len(),
        forall|i: int| 0 <= i < ids.len() ==> f(ids[i]) == #[trigger] a[i] * b[i],
    ensures
        dot(a, b) == sum_by(f, ids),
    decreases ids.len(),
{
    if ids.len() > 0 {
        let (a1, b1, ids1) = (a.drop_last(), b.drop_last(), ids.drop_last());
        assert forall|i: int| 0 <= i < ids1.len() implies f(ids1[i]) == #[trigger] a1[i] * b1[i] by {
            assert(f(ids[i]) == a[i] * b[i]);
        }
        lemma_dot_by(f, a1, b1, ids1);
        assert(ids1.push(ids.last()) =~= ids);
        lemma_sum_by_push(f, ids1, ids.last());
        let m = ids.len() - 1;
        assert(f(ids[m]) == a[m] * b[m]);
    }
}

/// A nested position answers the outer protocol as an ordinary signer: under a
/// package whose entry for the position is this inner round's pair, the sum of
/// the holders' responses is the one that the position owes for the
/// polynomial's value at zero.
pub proof fn law_nested_response_is_owed<P: OsstPoint>(
    v: PackageView,
    nested_index: u32,
    group_pubkey: int,
    session: Seq<u8>,
    precommits: Seq<(u32, [u8; 32])>,
    cs: Seq<InnerNoncesView>,
    active: Seq<u32>,
    polynomial: Seq<int>,
    sigs: Seq<InnerSignatureShare<P::Scalar>>,
)
    requires
        is_field(ord::<P>()),
        ord::<P>() > 0x1_0000_0000,
        nested_commitment_error::<P>(v, nested_index, session, precommits, cs) is None,
        is_full_quorum(cs, active),
        0 < polynomial.len() <= active.len(),
        sigs.len() == active.len(),
        sig_holders(sigs).no_duplicates(),
        forall|i: int|
            0 <= i < sigs.len() ==> active.contains((#[trigger] sigs[i]).holder_index)
                && sigs[i].response.val() == inner_response(
                commitment_of(cs, sigs[i].holder_index)->0,
                outer_context::<P>(v, group_pubkey, nested_index),
                coefficient_of(active, sigs[i].holder_index, ord::<P>()),
                poly(polynomial, sigs[i].holder_index as int) % ord::<P>(),
                ord::<P>(),
            ),
    ensures
        sum(sig_responses(sigs)) % ord::<P>() == expected_response::<P>(
            v,
            nested_index,
            polynomial[0] % ord::<P>(),
            group_pubkey,
        ),
{
    law_nested_sum_is_flat_response::<P>(
        cs,
        outer_context::<P>(v, group_pubkey, nested_index),
        active,
        polynomial,
        sigs,
    );
}

/// Verified inner shares add up to the response that the nested position owes:
/// where the holders' public shares are a polynomial's values in the exponent,
/// the quorum is the holders that committed, and nobody is at fault, the sum is
/// the one for the polynomial's value at zero.
pub proof fn law_verified_shares_are_owed<P: OsstPoint>(
    v: PackageView,
    nested_index: u32,
    group_pubkey: int,
    session: Seq<u8>,
    precommits: Seq<(u32, [u8; 32])>,
    cs: Seq<InnerNoncesView>,
    publics: Seq<(u32, P)>,
    active: Seq<u32>,
    polynomial: Seq<int>,
    sigs: Seq<InnerSignatureShare<P::Scalar>>,
)
    requires
        is_field(ord::<P>()),
        ord::<P>() > 0x1_0000_0000,
        nested_commitment_error::<P>(v, nested_index, session, precommits, cs) is None,
        is_full_quorum(cs, active),
        0 < polynomial.len() <= active.len(),
        forall|k: u32|
            (#[trigger] public_of(publics, k)) matches Some(y) ==> y == poly(polynomial, k as int)
                % ord::<P>(),
        forall|k: u32|
            !#[trigger] is_faulty::<P>(
                k,
                sigs,
                cs,
                publics,
                outer_context::<P>(v, group_pubkey, nested_index),
                active,
            ),
    ensures
        sum(sig_responses(sigs)) % ord::<P>() == expected_response::<P>(
            v,
            nested_index,
            polynomial[0] % ord::<P>(),
            group_pubkey,
        ),
{
    let params = outer_context::<P>(v, group_pubkey, nested_index);
    let hs = sig_holders(sigs);
    assert forall|i: int| 0 <= i < sigs.len() implies active.contains(
        (#[trigger] sigs[i]).holder_index,
    ) && sigs[i].response.val() == inner_response(
        commitment_of(cs, sigs[i].holder_index)->0,
        params,
        coefficient_of(active, sigs[i].holder_index, ord::<P>()),
        poly(polynomial, sigs[i].holder_index as int) % ord::<P>(),
        ord::<P>(),
    ) by {
        let k = sigs[i].holder_index;
        assert(!is_faulty::<P>(k, sigs, cs, publics, params, active));
        assert(!fails_at::<P>(sigs, i, k, cs, publics, params, active));
        assert(public_of(publics, k) is Some);
    }
    assert(hs.no_duplicates()) by {
        assert forall|i: int, j: int| 0 <= i < j < hs.len() implies hs[i] != hs[j] by {
            let k = sigs[j].holder_index;
            assert(!is_faulty::<P>(k, sigs, cs, publics, params, active));
            assert(!repeats_holder(sigs, j, k));
            assert(sig_holders(sigs.subrange(0, j))[i] == sigs[i].holder_index);
        }
    }
    assert forall|i: int| 0 <= i < active.len() implies hs.contains(#[trigger] active[i]) by {
        assert(active.contains(active[i]));
        assert(!is_faulty::<P>(active[i], sigs, cs, publics, params, active));
    }
    assert forall|i: int| 0 <= i < hs.len() implies active.contains(#[trigger] hs[i]) by {
        assert(active.contains(sigs[i].holder_index));
    }
    lemma_at_most(active, hs);
    lemma_at_most(hs, active);
    law_nested_response_is_owed::<P>(
        v,
        nested_index,
        group_pubkey,
        session,
        precommits,
        cs,
        active,
        polynomial,
        sigs,
    );
}

/// What [`inner_sign_v2`] answers a request verifies under the holder's public
/// share: an honest holder of the quorum, whose share is its own, is never at
/// fault for the share it produced.
pub proof fn law_honest_inner_share_verifies<P: OsstPoint>(
    nonces: InnerNoncesView,
    share: SecretShareView,
    approved_message: Seq<u8>,
    group_pubkey: int,
    request: NestedSigningRequest<'_, P>,
    sig: InnerSignatureShare<P::Scalar>,
    publics: Seq<(u32, P)>,
)
    requires
        inner_sign_error::<P>(nonces, share, approved_message, request) is None,
        share.index == nonces.holder,
        sig.holder_index == nonces.holder,
        sig.response.val() == inner_sign_response::<P>(nonces, share, group_pubkey, request),
        public_of(publics, nonces.holder) == Some(share.secret),
    ensures
        share_verifies::<P>(
            sig,
            inner_views(request.inner_commitments@),
            publics,
            outer_context::<P>(request.package@, group_pubkey, request.nested_index),
            request.active_indices@,
        ),
{
}

/// The input of the round-0 hash is injective: equal inputs, of sessions of one
/// length and encodings of one length, have one holder, one session and one pair
/// of encodings.
pub proof fn law_precommit_input_injective<P: OsstPoint>(a: InnerNoncesView, b: InnerNoncesView)
    requires
        a.session.len() == b.session.len(),
        P::encoding(a.hiding).len() == P::encoding(b.hiding).len(),
        precommit_input::<P>(a) == precommit_input::<P>(b),
    ensures
        a.holder == b.holder,
        a.session == b.session,
        P::encoding(a.hiding) == P::encoding(b.hiding),
        P::encoding(a.binding) == P::encoding(b.binding),
{
    lemma_byte_bounds();
    let (ea, eb) = (
        P::encoding(a.hiding) + P::encoding(a.binding),
        P::encoding(b.hiding) + P::encoding(b.binding),
    );
    let (ha, hb) = (le_bytes(a.holder as int, 4), le_bytes(b.holder as int, 4));
    lemma_le_bytes(a.holder as int, 4);
    lemma_le_bytes(b.holder as int, 4);
    lemma_concat_split(
        PRECOMMIT_DOMAIN@,
        ha + (a.session + ea),
        PRECOMMIT_DOMAIN@,
        hb + (b.session + eb),
    );
    lemma_concat_split(ha, a.session + ea, hb, b.session + eb);
    lemma_concat_split(a.session, ea, b.session, eb);
    lemma_concat_split(
        P::encoding(a.hiding),
        P::encoding(a.binding),
        P::encoding(b.hiding),
        P::encoding(b.binding),
    );
    lemma_le_bytes_injective(a.holder as int, b.holder as int, 4);
}

// ---------------------------------------------------------------------------
// What holders bind themselves to, and what they check
// ---------------------------------------------------------------------------

/// A round-0 hash binds the holder to its commitments: hashes are equal exactly where the
/// holder, the session and both commitments are, where the truncated SHA-512 does not
/// collide on their inputs.
pub proof fn law_precommit_binds<P: OsstPoint>(a: InnerNoncesView, b: InnerNoncesView)
    requires
        has_encoding::<P>(a.hiding),
        has_encoding::<P>(a.binding),
        has_encoding::<P>(b.hiding),
        has_encoding::<P>(b.binding),
        a.session.len() == b.session.len(),
        sha512_digest(precommit_input::<P>(a)).subrange(0, 32) == sha512_digest(
            precommit_input::<P>(b),
        ).subrange(0, 32) ==> precommit_input::<P>(a) == precommit_input::<P>(b),
    ensures
        precommit_value::<P>(a) == precommit_value::<P>(b) <==> a == b,
{
    lemma_encodings::<P>(a.hiding, b.hiding);
    lemma_encodings::<P>(a.binding, b.binding);
    if precommit_input::<P>(a) == precommit_input::<P>(b) {
        law_precommit_input_injective::<P>(a, b);
    }
}

/// A reveal is accepted for the commitments that were hashed, and for no others: neither
/// the holder, nor the session, nor either commitment can be changed after round 0.
pub proof fn law_reveal_matches_precommit<P: OsstPoint>(
    committed: InnerCommitments<P>,
    revealed: InnerCommitments<P>,
    precommit: [u8; 32],
    accepted: bool,
)
    requires
        call_ensures(inner_precommit::<P>, (&committed,), precommit),
        call_ensures(verify_inner_precommit::<P>, (&precommit, &revealed), accepted),
        sha512_digest(precommit_input::<P>(committed@)).subrange(0, 32) == sha512_digest(
            precommit_input::<P>(revealed@),
        ).subrange(0, 32) ==> precommit_input::<P>(committed@) == precommit_input::<P>(revealed@),
    ensures
        accepted <==> {
            &&& committed.holder_index == revealed.holder_index
            &&& committed.session_id@ == revealed.session_id@
            &&& committed.hiding.log() == revealed.hiding.log()
            &&& committed.binding.log() == revealed.binding.log()
        },
{
    law_precommit_binds::<P>(committed@, revealed@);
}

/// The first precommitment of a holder.
pub open spec fn is_first_precommit(
    precommits: Seq<(u32, [u8; 32])>,
    i: int,
    holder: u32,
) -> bool {
    &&& 0 <= i < precommits.len()
    &&& precommits[i].0 == holder
    &&& forall|j: int| 0 <= j < i ==> (#[trigger] precommits[j]).0 != holder
}

/// A holder has the precommitment of the first entry that names it, and none where no
/// entry does.
pub proof fn law_precommit_is_first(precommits: Seq<(u32, [u8; 32])>, holder: u32, i: int)
    ensures
        is_first_precommit(precommits, i, holder) ==> precommit_of(precommits, holder) == Some(
            precommits[i].1@,
        ),
        precommit_of(precommits, holder) is None <==> forall|j: int|
            0 <= j < precommits.len() ==> (#[trigger] precommits[j]).0 != holder,
    decreases precommits.len(),
{
    if precommits.len() > 0 {
        let rest = precommits.drop_first();
        law_precommit_is_first(rest, holder, i - 1);
        assert forall|j: int| 0 <= j < rest.len() implies rest[j] == #[trigger] precommits[j
            + 1] by {}
        if precommits[0].0 != holder {
            if is_first_precommit(precommits, i, holder) {
                assert forall|j: int| 0 <= j < i - 1 implies (#[trigger] rest[j]).0 != holder by {
                    assert(precommits[j + 1].0 != holder);
                }
                assert(is_first_precommit(rest, i - 1, holder));
            }
            if precommit_of(precommits, holder) is None {
                assert forall|j: int| 0 <= j < precommits.len() implies (
                #[trigger] precommits[j]).0 != holder by {
                    if j > 0 {
                        assert(rest[j - 1].0 != holder);
                    }
                }
            }
            if forall|j: int| 0 <= j < precommits.len() ==> (#[trigger] precommits[j]).0 != holder {
                assert forall|j: int| 0 <= j < rest.len() implies (#[trigger] rest[j]).0
                    != holder by {
                    assert(precommits[j + 1].0 != holder);
                }
            }
        }
    }
}

/// The first public share of a holder.
pub open spec fn is_first_public<P: OsstPoint>(
    publics: Seq<(u32, P)>,
    i: int,
    holder: u32,
) -> bool {
    &&& 0 <= i < publics.len()
    &&& publics[i].0 == holder
    &&& forall|j: int| 0 <= j < i ==> (#[trigger] publics[j]).0 != holder
}

/// A holder has the public share of the first entry that names it, and none where no
/// entry does.
pub proof fn law_public_is_first<P: OsstPoint>(publics: Seq<(u32, P)>, holder: u32, i: int)
    ensures
        is_first_public(publics, i, holder) ==> public_of(publics, holder) == Some(
            publics[i].1.log(),
        ),
        public_of(publics, holder) is None <==> forall|j: int|
            0 <= j < publics.len() ==> (#[trigger] publics[j]).0 != holder,
    decreases publics.len(),
{
    if publics.len() > 0 {
        let rest = publics.drop_first();
        law_public_is_first(rest, holder, i - 1);
        assert forall|j: int| 0 <= j < rest.len() implies rest[j] == #[trigger] publics[j + 1] by {}
        if publics[0].0 != holder {
            if is_first_public(publics, i, holder) {
                assert forall|j: int| 0 <= j < i - 1 implies (#[trigger] rest[j]).0 != holder by {
                    assert(publics[j + 1].0 != holder);
                }
                assert(is_first_public(rest, i - 1, holder));
            }
            if public_of(publics, holder) is None {
                assert forall|j: int| 0 <= j < publics.len() implies (#[trigger] publics[j]).0
                    != holder by {
                    if j > 0 {
                        assert(rest[j - 1].0 != holder);
                    }
                }
            }
            if forall|j: int| 0 <= j < publics.len() ==> (#[trigger] publics[j]).0 != holder {
                assert forall|j: int| 0 <= j < rest.len() implies (#[trigger] rest[j]).0
                    != holder by {
                    assert(publics[j + 1].0 != holder);
                }
            }
        }
    }
}

/// Where no holder committed twice, a commitment is found under its holder.
pub proof fn law_commitment_found(cs: Seq<InnerNoncesView>, c: InnerNoncesView)
    requires
        holders(cs).no_duplicates(),
    ensures
        commitment_of(cs, c.holder) == Some(c) <==> cs.contains(c),
{
    lemma_commitment_of(cs, c.holder);
    if cs.contains(c) {
        let i = choose|i: int| 0 <= i < cs.len() && cs[i] == c;
        lemma_commitment_at(cs, i);
    }
    if commitment_of(cs, c.holder) == Some(c) {
        let i = choose|i: int| 0 <= i < cs.len() && holders(cs)[i] == c.holder;
        lemma_commitment_at(cs, i);
        assert(cs[i] == c);
    }
}

/// Every reveal of a round is checked.
pub open spec fn are_reveals<P: OsstPoint>(
    session: Seq<u8>,
    precommits: Seq<(u32, [u8; 32])>,
    cs: Seq<InnerNoncesView>,
) -> bool {
    &&& forall|i: int|
        0 <= i < cs.len() ==> {
            &&& (#[trigger] cs[i]).holder != 0
            &&& cs[i].session == session
            &&& precommit_of(precommits, cs[i].holder) == Some(precommit_value::<P>(cs[i]))
        }
    &&& forall|i: int, j: int|
        0 <= i < j < cs.len() ==> (#[trigger] cs[i]).holder != (#[trigger] cs[j]).holder
}

proof fn lemma_are_reveals<P: OsstPoint>(
    session: Seq<u8>,
    precommits: Seq<(u32, [u8; 32])>,
    cs: Seq<InnerNoncesView>,
)
    ensures
        reveals_error::<P>(session, precommits, cs) is None <==> are_reveals::<P>(
            session,
            precommits,
            cs,
        ),
    decreases cs.len(),
{
    if cs.len() > 0 {
        let rest = cs.drop_last();
        let last = cs.len() - 1;
        lemma_are_reveals::<P>(session, precommits, rest);
        assert forall|i: int| 0 <= i < last implies rest[i] == #[trigger] cs[i] by {}
        if are_reveals::<P>(session, precommits, cs) {
            assert forall|i: int| 0 <= i < rest.len() implies {
                &&& (#[trigger] rest[i]).holder != 0
                &&& rest[i].session == session
                &&& precommit_of(precommits, rest[i].holder) == Some(
                    precommit_value::<P>(rest[i]),
                )
            } by {
                assert(cs[i].holder != 0);
            }
            assert forall|i: int, j: int| 0 <= i < j < rest.len() implies (
            #[trigger] rest[i]).holder != (#[trigger] rest[j]).holder by {
                assert(cs[i].holder != cs[j].holder);
            }
            if holders(rest).contains(cs[last].holder) {
                let k = choose|k: int| 0 <= k < rest.len() && holders(rest)[k] == cs[last].holder;
                assert(cs[k].holder != cs[last].holder);
            }
            assert(cs[last].holder != 0);
        }
        if reveals_error::<P>(session, precommits, cs) is None {
            assert forall|i: int| 0 <= i < cs.len() implies {
                &&& (#[trigger] cs[i]).holder != 0
                &&& cs[i].session == session
                &&& precommit_of(precommits, cs[i].holder) == Some(precommit_value::<P>(cs[i]))
            } by {
                if i < last {
                    assert(rest[i].holder != 0);
                }
            }
            assert forall|i: int, j: int| 0 <= i < j < cs.len() implies (#[trigger] cs[i]).holder
                != (#[trigger] cs[j]).holder by {
                if j < last {
                    assert(rest[i].holder != rest[j].holder);
                } else {
                    assert(holders(rest)[i] == cs[i].holder);
                }
            }
        }
    }
}

/// Inner commitments aggregate exactly where there are some and every one of them, with no
/// exception, is of a holder, of this session, of a holder that no other is of, and the
/// one whose hash the holder published in round 0; and what they give is their sum.
pub proof fn law_every_reveal_is_checked<P: OsstPoint>(
    session_id: [u8; 32],
    precommits: &[(u32, [u8; 32])],
    inner_commitments: &[InnerCommitments<P>],
    r: Result<(P, P), OsstError>,
)
    requires
        call_ensures(
            aggregate_inner_commitment_pair::<P>,
            (&session_id, precommits, inner_commitments),
            r,
        ),
    ensures
        r is Ok <==> inner_commitments@.len() > 0 && are_reveals::<P>(
            session_id@,
            precommits@,
            inner_views(inner_commitments@),
        ),
        r matches Ok((d, e)) ==> eqm(
            d.log(),
            sum(hidings(inner_views(inner_commitments@))),
            ord::<P>(),
        ) && eqm(e.log(), sum(bindings(inner_views(inner_commitments@))), ord::<P>()),
        inner_commitments@.len() == 0 <==> r == Err::<(P, P), OsstError>(
            OsstError::EmptyContributions,
        ),
{
    let cs = inner_views(inner_commitments@);
    <P::Scalar as OsstScalar>::lemma_order();
    lemma_are_reveals::<P>(session_id@, precommits@, cs);
    lemma_eqm_mod(sum(hidings(cs)), ord::<P>());
    lemma_eqm_mod(sum(bindings(cs)), ord::<P>());
    if cs.len() > 0 {
        lemma_reveals_error_kind::<P>(session_id@, precommits@, cs);
    }
}

proof fn lemma_reveals_error_kind<P: OsstPoint>(
    session: Seq<u8>,
    precommits: Seq<(u32, [u8; 32])>,
    cs: Seq<InnerNoncesView>,
)
    ensures
        reveals_error::<P>(session, precommits, cs) != Some(OsstError::EmptyContributions),
    decreases cs.len(),
{
    if cs.len() > 0 {
        lemma_reveals_error_kind::<P>(session, precommits, cs.drop_last());
    }
}

/// A quorum is accepted exactly where every member is a holder that committed, none is
/// zero and none occurs twice.
pub proof fn law_quorum_of_committed_holders(active: Seq<u32>, cs: Seq<InnerNoncesView>)
    ensures
        quorum_error(active, cs) is None <==> {
            &&& forall|i: int|
                0 <= i < active.len() ==> #[trigger] active[i] != 0 && holders(cs).contains(
                    active[i],
                )
            &&& forall|i: int, j: int| 0 <= i < j < active.len() ==> active[i] != active[j]
        },
    decreases active.len(),
{
    if active.len() > 0 {
        let rest = active.drop_last();
        let last = active.len() - 1;
        law_quorum_of_committed_holders(rest, cs);
        assert forall|i: int| 0 <= i < last implies rest[i] == #[trigger] active[i] by {}
        if quorum_error(active, cs) is None {
            lemma_quorum_distinct(active, cs);
        }
        if (forall|i: int|
            0 <= i < active.len() ==> #[trigger] active[i] != 0 && holders(cs).contains(active[i]))
            && (forall|i: int, j: int| 0 <= i < j < active.len() ==> active[i] != active[j]) {
            assert forall|i: int| 0 <= i < rest.len() implies #[trigger] rest[i] != 0 && holders(
                cs,
            ).contains(rest[i]) by {
                assert(active[i] != 0);
            }
            assert forall|i: int, j: int| 0 <= i < j < rest.len() implies rest[i] != rest[j] by {
                assert(active[i] != active[j]);
            }
            if rest.contains(active[last]) {
                let k = choose|k: int| 0 <= k < rest.len() && rest[k] == active[last];
                assert(active[k] != active[last]);
            }
            assert(active[last] != 0);
        }
    }
}

/// When a holder signs: exactly where the package carries the message that it approved,
/// the quorum has the inner threshold and consists of distinct holders that committed, the
/// nonces are of the session and are the ones committed to, every reveal is checked, the
/// package's entry for the nested position is the sum of the inner commitments, and the
/// share is of a member of the quorum.
pub proof fn law_holder_signs_what_it_checked<P: OsstPoint>(
    nonces: InnerNonces<P::Scalar>,
    share: SecretShare<P::Scalar>,
    key: P,
    approved_message: &[u8],
    request: NestedSigningRequest<'_, P>,
    r: Result<InnerSignatureShare<P::Scalar>, OsstError>,
)
    requires
        request.package.wf(),
        call_ensures(
            inner_sign_v2::<P>,
            (nonces, &share, &key, approved_message, &request),
            r,
        ),
    ensures
        r is Ok <==> {
            let cs = inner_views(request.inner_commitments@);
            let active = request.active_indices@;
            &&& request.package@.message == approved_message@
            &&& active.len() >= request.inner_threshold
            &&& forall|i: int|
                0 <= i < active.len() ==> #[trigger] active[i] != 0 && holders(cs).contains(
                    active[i],
                )
            &&& forall|i: int, j: int| 0 <= i < j < active.len() ==> active[i] != active[j]
            &&& active.contains(share@.index)
            &&& nonces@.session == request.session_id@
            &&& cs.contains(nonces@)
            &&& are_reveals::<P>(request.session_id@, request.inner_precommits@, cs)
            &&& request.package@.signers.contains(
                SignerView {
                    index: request.nested_index,
                    hiding: sum(hidings(cs)) % ord::<P>(),
                    binding: sum(bindings(cs)) % ord::<P>(),
                },
            )
        },
        r matches Ok(sig) ==> sig.holder_index == nonces@.holder,
        request.package@.message != approved_message@ <==> r == Err::<
            InnerSignatureShare<P::Scalar>,
            OsstError,
        >(OsstError::MessageMismatch),
{
    let v = request.package@;
    let cs = inner_views(request.inner_commitments@);
    let active = request.active_indices@;
    let session = request.session_id@;
    let entry = SignerView {
        index: request.nested_index,
        hiding: sum(hidings(cs)) % ord::<P>(),
        binding: sum(bindings(cs)) % ord::<P>(),
    };
    request.package.lemma_wf();
    law_quorum_of_committed_holders(active, cs);
    lemma_are_reveals::<P>(session, request.inner_precommits@, cs);
    if are_reveals::<P>(session, request.inner_precommits@, cs) {
        assert(holders(cs).no_duplicates()) by {
            assert forall|i: int, j: int|
                0 <= i < holders(cs).len() && 0 <= j < holders(cs).len() && i != j implies holders(
                cs,
            )[i] != holders(cs)[j] by {
                if i < j {
                    assert(cs[i].holder != cs[j].holder);
                } else {
                    assert(cs[j].holder != cs[i].holder);
                }
            }
        }
        law_commitment_found(cs, nonces@);
    }
    if cs.contains(nonces@) {
        assert(cs.len() > 0);
    }
    lemma_commitment_of(cs, nonces@.holder);
    assert(v.has(request.nested_index) && v.signer(request.nested_index).hiding == entry.hiding
        && v.signer(request.nested_index).binding == entry.binding <==> v.signers.contains(entry))
        by {
        let ids = v.indices();
        if v.has(request.nested_index) {
            let k = ids.index_of(request.nested_index);
            assert(0 <= k < ids.len() && ids[k] == request.nested_index);
            assert(v.signers[k].index == request.nested_index);
            if v.signers[k].hiding == entry.hiding && v.signers[k].binding == entry.binding {
                assert(v.signers[k] == entry);
            }
        }
        if v.signers.contains(entry) {
            let j = choose|j: int| 0 <= j < v.signers.len() && v.signers[j] == entry;
            assert(ids[j] == request.nested_index);
            assert(ids.contains(ids[j]));
            let k = ids.index_of(request.nested_index);
            assert(0 <= k < ids.len() && ids[k] == request.nested_index);
            if j < k {
                assert(ids[j] < ids[k]);
            } else if k < j {
                assert(ids[k] < ids[j]);
            }
        }
    }
    if quorum_error(active, cs) is Some {
        lemma_quorum_error_kind(active, cs);
    }
    if cs.len() > 0 {
        lemma_reveals_error_mismatch::<P>(session, request.inner_precommits@, cs);
    }
}

proof fn lemma_quorum_error_kind(active: Seq<u32>, cs: Seq<InnerNoncesView>)
    ensures
        quorum_error(active, cs) != Some(OsstError::MessageMismatch),
    decreases active.len(),
{
    if active.len() > 0 {
        lemma_quorum_error_kind(active.drop_last(), cs);
    }
}

proof fn lemma_reveals_error_mismatch<P: OsstPoint>(
    session: Seq<u8>,
    precommits: Seq<(u32, [u8; 32])>,
    cs: Seq<InnerNoncesView>,
)
    ensures
        reveals_error::<P>(session, precommits, cs) != Some(OsstError::MessageMismatch),
    decreases cs.len(),
{
    if cs.len() > 0 {
        lemma_reveals_error_mismatch::<P>(session, precommits, cs.drop_last());
    }
}

/// Nobody is blamed for an honest share: a member of the quorum that produced one share,
/// which satisfies its equation `z G = D + rho E + (lambda c mu) Y`, is not at fault,
/// whatever the others did; and of all responses of a member only that one verifies.
pub proof fn law_honest_holder_not_blamed<P: OsstPoint>(
    sigs: Seq<InnerSignatureShare<P::Scalar>>,
    i: int,
    cs: Seq<InnerNoncesView>,
    publics: Seq<(u32, P)>,
    params: ParamsView,
    active: Seq<u32>,
    c: InnerNoncesView,
    y: int,
    at: int,
)
    requires
        0 <= i < sigs.len(),
        forall|j: int|
            0 <= j < sigs.len() && j != i ==> (#[trigger] sigs[j]).holder_index
                != sigs[i].holder_index,
        active.no_duplicates(),
        0 <= at < active.len(),
        active[at] == sigs[i].holder_index,
        commitment_of(cs, sigs[i].holder_index) == Some(c),
        public_of(publics, sigs[i].holder_index) == Some(y),
    ensures
        is_faulty::<P>(sigs[i].holder_index, sigs, cs, publics, params, active) <==> !eqm(
            sigs[i].response.val(),
            c.hiding + params.binding * c.binding + params.lambda * params.challenge
                * coefficients(active, ord::<P>())[at] * y,
            ord::<P>(),
        ),
{
    let n = ord::<P>();
    let k = sigs[i].holder_index;
    <P::Scalar as OsstScalar>::lemma_order();
    assert(active.contains(k));
    let p = active.index_of(k);
    assert(0 <= p < active.len() && active[p] == k);
    assert(p == at);
    let w = c.hiding + params.binding * c.binding + params.lambda * params.challenge
        * coefficients(active, n)[at] * y;
    sigs[i].response.lemma_val();
    lemma_eqm_mod(w, n);
    lemma_small_mod(sigs[i].response.val() as nat, n as nat);
    assert(sig_holders(sigs)[i] == k);
    assert forall|j: int| !repeats_holder(sigs, j, k) by {
        if repeats_holder(sigs, j, k) {
            let before = sigs.subrange(0, j);
            let m = choose|m: int| 0 <= m < before.len() && sig_holders(before)[m] == k;
            assert(sigs[m].holder_index == k);
            assert(sigs[j].holder_index == k);
        }
    }
    assert(share_verifies::<P>(sigs[i], cs, publics, params, active) <==> eqm(
        sigs[i].response.val(),
        w,
        n,
    ));
    assert forall|j: int| fails_at::<P>(sigs, j, k, cs, publics, params, active) implies j == i by {
        if j != i && 0 <= j < sigs.len() {
            assert(sigs[j].holder_index != k);
        }
    }
    if !eqm(sigs[i].response.val(), w, n) {
        assert(fails_at::<P>(sigs, i, k, cs, publics, params, active));
    }
}

/// Nested signing, from the holders' answers to the position's share: where the holders
/// that committed are the quorum and no fewer than the polynomial has coefficients, each of
/// them answers with its value of the polynomial, and their public shares are those values,
/// their answers verify and aggregate, and the sum is the response that a single signer
/// with the polynomial's value at zero owes the package.
pub proof fn law_nested_signing_answers_package<P: OsstPoint>(
    request: NestedSigningRequest<'_, P>,
    key: P,
    approved_message: &[u8],
    nonces: Seq<InnerNonces<P::Scalar>>,
    shares: Seq<SecretShare<P::Scalar>>,
    sigs: &[InnerSignatureShare<P::Scalar>],
    publics: &[(u32, P)],
    params: InnerSigningParamsV2<P::Scalar>,
    polynomial: Seq<int>,
    r: Result<P::Scalar, Vec<u32>>,
)
    requires
        is_field(ord::<P>()),
        request.package.wf(),
        is_full_quorum(inner_views(request.inner_commitments@), request.active_indices@),
        0 < polynomial.len() <= request.active_indices@.len(),
        sigs@.len() == request.active_indices@.len(),
        sig_holders(sigs@).no_duplicates(),
        nonces.len() == sigs@.len(),
        shares.len() == sigs@.len(),
        forall|i: int|
            0 <= i < sigs@.len() ==> {
                &&& call_ensures(
                    inner_sign_v2::<P>,
                    (nonces[i], &shares[i], &key, approved_message, &request),
                    Ok::<InnerSignatureShare<P::Scalar>, OsstError>(#[trigger] sigs@[i]),
                )
                &&& shares[i]@.index == nonces[i]@.holder
                &&& shares[i]@.secret == poly(polynomial, shares[i]@.index as int) % ord::<P>()
                &&& public_of(publics@, shares[i]@.index) == Some(shares[i]@.secret)
            },
        call_ensures(
            InnerSigningParamsV2::<P::Scalar>::from_outer::<P>,
            (request.package, &key, request.nested_index),
            Ok::<InnerSigningParamsV2<P::Scalar>, OsstError>(params),
        ),
        call_ensures(
            aggregate_inner_shares_verified::<P>,
            (sigs, request.inner_commitments, publics, &params, request.active_indices),
            r,
        ),
    ensures
        r matches Ok(z) && z.val() == expected_response::<P>(
            request.package@,
            request.nested_index,
            polynomial[0] % ord::<P>(),
            key.log(),
        ),
{
    let n = ord::<P>();
    let v = request.package@;
    let cs = inner_views(request.inner_commitments@);
    let active = request.active_indices@;
    let session = request.session_id@;
    let hs = sig_holders(sigs@);
    <P::Scalar as OsstScalar>::lemma_order();
    assert forall|i: int| 0 <= i < sigs@.len() implies active.contains(
        (#[trigger] sigs@[i]).holder_index,
    ) && sigs@[i].response.val() == inner_response(
        commitment_of(cs, sigs@[i].holder_index)->0,
        params@,
        coefficient_of(active, sigs@[i].holder_index, n),
        poly(polynomial, sigs@[i].holder_index as int) % n,
        n,
    ) && share_verifies::<P>(sigs@[i], cs, publics@, params@, active) by {
        assert(inner_sign_error::<P>(nonces[i]@, shares[i]@, approved_message@, request) is None);
        law_honest_inner_share_verifies::<P>(
            nonces[i]@,
            shares[i]@,
            approved_message@,
            key.log(),
            request,
            sigs@[i],
            publics@,
        );
    }
    assert(nested_commitment_error::<P>(
        v,
        request.nested_index,
        session,
        request.inner_precommits@,
        cs,
    ) is None) by {
        assert(inner_sign_error::<P>(nonces[0]@, shares[0]@, approved_message@, request) is None)
            by {
            let s = sigs@[0];
        }
    }
    assert forall|i: int| 0 <= i < hs.len() implies active.contains(#[trigger] hs[i]) by {
        assert(active.contains(sigs@[i].holder_index));
    }
    crate::sets::lemma_all_present(hs, active);
    assert forall|k: u32| !#[trigger] is_faulty::<P>(
        k,
        sigs@,
        cs,
        publics@,
        params@,
        active,
    ) by {
        assert forall|j: int| !repeats_holder(sigs@, j, k) by {
            if repeats_holder(sigs@, j, k) {
                let before = sigs@.subrange(0, j);
                let m = choose|m: int| 0 <= m < before.len() && sig_holders(before)[m] == k;
                assert(hs[m] == k && hs[j] == k);
            }
        }
        assert forall|j: int| !fails_at::<P>(sigs@, j, k, cs, publics@, params@, active) by {
            if 0 <= j < sigs@.len() {
                assert(share_verifies::<P>(sigs@[j], cs, publics@, params@, active));
            }
        }
    }
    law_nested_response_is_owed::<P>(
        v,
        request.nested_index,
        key.log(),
        session,
        request.inner_precommits@,
        cs,
        active,
        polynomial,
        sigs@,
    );
}

/// Any inner threshold of holders has a coefficient between them: their shares of it, with
/// their Lagrange coefficients, give the scalar that the coefficient's commitment is to.
pub proof fn law_inner_shares_reconstruct<P: OsstPoint>(
    shares: Seq<InnerShare<P::Scalar>>,
    commitments: Seq<P>,
    polynomials: Seq<Seq<int>>,
    inner_t: u32,
    j: int,
    picked: Seq<u32>,
    values: Seq<int>,
)
    requires
        is_field(ord::<P>()),
        is_interleaved::<P>(shares, commitments, polynomials, inner_t),
        0 <= j < commitments.len(),
        picked.no_duplicates(),
        0 < inner_t <= picked.len(),
        values.len() == picked.len(),
        forall|i: int|
            0 <= i < picked.len() ==> 1 <= (#[trigger] picked[i]) <= shares.len() && values[i]
                == shares[picked[i] - 1].coefficient_shares@[j].val(),
    ensures
        dot(coefficients(picked, ord::<P>()), values) % ord::<P>() == commitments[j].log(),
{
    let n = ord::<P>();
    <P::Scalar as OsstScalar>::lemma_order();
    assert(polynomials[j].len() == inner_t);
    assert forall|i: int| 0 <= i < picked.len() implies eqm(
        #[trigger] values[i],
        poly(polynomials[j], picked[i] as int),
        n,
    ) by {
        let k = picked[i] - 1;
        assert(shares[k].coefficient_shares@[j].val() == poly(polynomials[j], k + 1) % n);
        lemma_eqm_mod(poly(polynomials[j], picked[i] as int), n);
    }
    lemma_reconstruct(picked, values, polynomials[j], n);
    lemma_poly_zero(polynomials[j]);
}

/// A split evaluation is verifiable and comes back: every piece passes the check under the
/// commitment at its holder, no other scalar does, and any holders, as many as the
/// polynomial has coefficients, recover the evaluation from their pieces.
pub proof fn law_split_pieces<P: OsstPoint>(
    polynomial: &[P::Scalar],
    inner_n: u32,
    pieces: Vec<(u32, P::Scalar)>,
    commitment: DealerCommitment<P>,
    k: int,
    candidate: P::Scalar,
    accepted: bool,
    picked: Seq<u32>,
    values: Seq<int>,
)
    requires
        is_field(ord::<P>()),
        call_ensures(
            split_with_polynomial::<P>,
            (polynomial, inner_n),
            Ok::<(Vec<(u32, P::Scalar)>, DealerCommitment<P>), OsstError>((pieces, commitment)),
        ),
        0 <= k < pieces@.len(),
        call_ensures(
            verify_split_piece::<P>,
            (&commitment, pieces@[k].0, &candidate),
            accepted,
        ),
        picked.no_duplicates(),
        picked.len() >= polynomial@.len(),
        values.len() == picked.len(),
        forall|i: int|
            0 <= i < picked.len() ==> 1 <= (#[trigger] picked[i]) <= pieces@.len() && values[i]
                == pieces@[picked[i] - 1].1.val(),
    ensures
        pieces@.len() == inner_n,
        pieces@[k].0 == k + 1,
        accepted <==> candidate.val() == pieces@[k].1.val(),
        dot(coefficients(picked, ord::<P>()), values) % ord::<P>() == polynomial@[0].val(),
{
    let n = ord::<P>();
    let f = vals(polynomial@);
    <P::Scalar as OsstScalar>::lemma_order();
    assert forall|i: int| 0 <= i < picked.len() implies eqm(
        #[trigger] values[i],
        poly(f, picked[i] as int),
        n,
    ) by {
        let m = picked[i] - 1;
        assert(pieces@[m].1.val() == poly(f, m + 1) % n);
        lemma_eqm_mod(poly(f, picked[i] as int), n);
    }
    lemma_reconstruct(picked, values, f, n);
    lemma_poly_zero(f);
    polynomial@[0].lemma_val();
    lemma_small_mod(f[0] as nat, n as nat);
    assert(pieces@[k].0 == k + 1);
}

/// A supplied context is accepted exactly where it is the local one, in each of its three
/// values.
pub proof fn law_supplied_context_is_local<P: OsstPoint>(
    binding: P::Scalar,
    challenge: P::Scalar,
    lambda: P::Scalar,
    package: SigningPackage<P>,
    key: P,
    index: u32,
    local: Result<InnerSigningParamsV2<P::Scalar>, OsstError>,
    r: Result<InnerSigningParamsV2<P::Scalar>, OsstError>,
)
    requires
        package.wf(),
        call_ensures(
            InnerSigningParamsV2::<P::Scalar>::from_outer::<P>,
            (&package, &key, index),
            local,
        ),
        call_ensures(
            InnerSigningParamsV2::<P::Scalar>::from_coordinator_checked::<P>,
            (&binding, &challenge, &lambda, &package, &key, index),
            r,
        ),
    ensures
        r is Ok <==> (local matches Ok(p) && p@ == (ParamsView {
            binding: binding.val(),
            challenge: challenge.val(),
            lambda: lambda.val(),
        })),
        r matches Ok(p) ==> p@ == local->Ok_0@,
        local is Ok <==> package@.indices().contains(index),
        local matches Ok(p) ==> p@.binding == package@.binding_factor::<P>(index, key.log())
            && p@.challenge == package@.challenge::<P>(key.log()),
{
}

/// The share of a holder lies on the nested polynomial, from call to call: where the
/// holder's coefficient shares are values of the interleaved polynomials and its pieces
/// values of the splitting polynomials, what it combines them to is the nested polynomial's
/// value at it.
pub proof fn law_combined_call_on_polynomial<P: OsstPoint>(
    share: InnerShare<P::Scalar>,
    pieces: &[(u32, P::Scalar)],
    position: u32,
    interleaved: Seq<Seq<int>>,
    splits: Seq<Seq<int>>,
    t: nat,
    combined: P::Scalar,
)
    requires
        call_ensures(combine_shares::<P::Scalar>, (&share, position, pieces), combined),
        t > 0,
        share.coefficient_shares@.len() == interleaved.len(),
        pieces@.len() == splits.len(),
        forall|i: int| 0 <= i < interleaved.len() ==> (#[trigger] interleaved[i]).len() == t,
        forall|i: int| 0 <= i < splits.len() ==> (#[trigger] splits[i]).len() == t,
        forall|i: int|
            0 <= i < interleaved.len() ==> (#[trigger] share.coefficient_shares@[i]).val() == poly(
                interleaved[i],
                share.holder_index as int,
            ) % ord::<P>(),
        forall|i: int|
            0 <= i < splits.len() ==> (#[trigger] pieces@[i]).1.val() == poly(
                splits[i],
                share.holder_index as int,
            ) % ord::<P>(),
    ensures
        combined.val() == poly(
            nested_polynomial(interleaved, splits, position, t),
            share.holder_index as int,
        ) % ord::<P>(),
{
    law_combined_share_on_polynomial::<P>(share, pieces@, interleaved, splits, position, t);
}

/// The package's entry for the nested position is the inner round's pair, or nobody signs:
/// the check passes exactly where the inner commitments aggregate and the package has their
/// sums under the position.
pub proof fn law_nested_entry_is_the_pair<P: OsstPoint>(
    package: SigningPackage<P>,
    nested_index: u32,
    session_id: [u8; 32],
    precommits: &[(u32, [u8; 32])],
    inner_commitments: &[InnerCommitments<P>],
    pair: Result<(P, P), OsstError>,
    entry: Option<&crate::frost::SigningCommitments<P>>,
    r: Result<(), OsstError>,
)
    requires
        package.wf(),
        call_ensures(
            aggregate_inner_commitment_pair::<P>,
            (&session_id, precommits, inner_commitments),
            pair,
        ),
        call_ensures(SigningPackage::<P>::get_commitments, (&package, nested_index), entry),
        call_ensures(
            verify_nested_commitment::<P>,
            (&package, nested_index, &session_id, precommits, inner_commitments),
            r,
        ),
    ensures
        r is Ok <==> (entry matches Some(c) && pair matches Ok((d, e)) && c.hiding.log() == d.log()
            && c.binding.log() == e.log()),
        entry is None ==> r == Err::<(), OsstError>(OsstError::InvalidIndex),
        entry is Some && pair is Err ==> r == Err::<(), OsstError>(pair->Err_0),
{
}

/// A holder's answer verifies, and of all responses no other does: what a holder of the
/// quorum answers a request passes the check under its commitment, its public share and its
/// Lagrange coefficient.
pub proof fn law_inner_answer_verifies<P: OsstPoint>(
    nonces: InnerNonces<P::Scalar>,
    share: SecretShare<P::Scalar>,
    key: P,
    approved_message: &[u8],
    request: NestedSigningRequest<'_, P>,
    answer: InnerSignatureShare<P::Scalar>,
    candidate: InnerSignatureShare<P::Scalar>,
    commitment: InnerCommitments<P>,
    public_share: P,
    params: InnerSigningParamsV2<P::Scalar>,
    mu: P::Scalar,
    at: int,
    accepted: bool,
)
    requires
        request.package.wf(),
        call_ensures(
            inner_sign_v2::<P>,
            (nonces, &share, &key, approved_message, &request),
            Ok::<InnerSignatureShare<P::Scalar>, OsstError>(answer),
        ),
        call_ensures(
            InnerSigningParamsV2::<P::Scalar>::from_outer::<P>,
            (request.package, &key, request.nested_index),
            Ok::<InnerSigningParamsV2<P::Scalar>, OsstError>(params),
        ),
        commitment@ == nonces@,
        public_share.log() == share@.secret,
        0 <= at < request.active_indices@.len(),
        request.active_indices@[at] == share@.index,
        mu.val() == coefficients(request.active_indices@, ord::<P>())[at],
        call_ensures(
            verify_inner_share::<P>,
            (&candidate, &commitment, &public_share, &params, &mu),
            accepted,
        ),
    ensures
        accepted <==> candidate.response.val() == answer.response.val(),
{
    let active = request.active_indices@;
    lemma_quorum_distinct(active, inner_views(request.inner_commitments@));
    let k = active.index_of(share@.index);
    assert(active.contains(share@.index));
    assert(0 <= k < active.len() && active[k] == share@.index);
    assert(k == at);
}

/// A refusal to record is the answer: nothing is signed, whatever the request; and where the
/// record was made, the answer is that of a holder without a record.
pub proof fn law_unrecorded_is_unsigned<P: OsstPoint>(
    recorded: Result<(), OsstError>,
    nonces: InnerNonces<P::Scalar>,
    share: SecretShare<P::Scalar>,
    key: P,
    approved_message: &[u8],
    request: NestedSigningRequest<'_, P>,
    r: Result<InnerSignatureShare<P::Scalar>, OsstError>,
    plain: Result<InnerSignatureShare<P::Scalar>, OsstError>,
)
    requires
        request.package.wf(),
        call_ensures(
            inner_sign_v2_recorded::<P>,
            (recorded, nonces, &share, &key, approved_message, &request),
            r,
        ),
        call_ensures(
            inner_sign_v2::<P>,
            (nonces, &share, &key, approved_message, &request),
            plain,
        ),
    ensures
        recorded matches Err(e) ==> r == Err::<InnerSignatureShare<P::Scalar>, OsstError>(e),
        recorded is Ok ==> (r is Ok <==> plain is Ok),
        recorded is Ok && r is Ok ==> r->Ok_0.response.val() == plain->Ok_0.response.val()
            && r->Ok_0.holder_index == plain->Ok_0.holder_index,
        recorded is Ok && r is Err ==> r->Err_0 == plain->Err_0,
{
}

/// A holder that is bound to a context signs nothing but the context's encoding.
pub proof fn law_context_holder<P: OsstPoint>(
    nonces: InnerNonces<P::Scalar>,
    share: SecretShare<P::Scalar>,
    key: P,
    ctx: SigningContext<'_>,
    approved: &[u8],
    request: NestedSigningRequest<'_, P>,
    bound: Result<InnerSignatureShare<P::Scalar>, OsstError>,
    plain: Result<InnerSignatureShare<P::Scalar>, OsstError>,
)
    requires
        request.package.wf(),
        approved@ == ctx.encoding(),
        call_ensures(
            inner_sign_v2_with_context::<P>,
            (nonces, &share, &key, &ctx, &request),
            bound,
        ),
        call_ensures(inner_sign_v2::<P>, (nonces, &share, &key, approved, &request), plain),
    ensures
        bound is Ok ==> request.package@.message == ctx.encoding(),
        bound is Ok <==> plain is Ok,
        bound matches Ok(s) ==> s.response.val() == plain->Ok_0.response.val() && s.holder_index
            == plain->Ok_0.holder_index,
{
}

/// A recorded session stays recorded and is recorded once: a store in memory refuses a pair
/// that it holds, records one that it does not, and forgets none.
pub proof fn law_session_recorded_once(
    store: &mut MemorySpentSessions,
    session_id: [u8; 32],
    holder: u32,
    r: Result<(), OsstError>,
)
    requires
        call_ensures(
            <MemorySpentSessions as SpentSessions>::spend,
            (store, &session_id, holder),
            r,
        ),
    ensures
        r is Ok <==> !old(store).entries().contains((session_id@, holder)),
        r is Err ==> r == Err::<(), OsstError>(OsstError::SessionSpent) && final(store).entries()
            == old(store).entries(),
        r is Ok ==> final(store).entries() == old(store).entries().push((session_id@, holder)),
{
}

/// Who is blamed and who is not: a member of the quorum without a share, a holder with two,
/// and one from outside the quorum with any are at fault; a holder from outside without one
/// is not.
pub proof fn law_blame<P: OsstPoint>(
    holder: u32,
    sigs: Seq<InnerSignatureShare<P::Scalar>>,
    cs: Seq<InnerNoncesView>,
    publics: Seq<(u32, P)>,
    params: ParamsView,
    active: Seq<u32>,
    i: int,
    j: int,
)
    ensures
        (forall|k: int| 0 <= k < sigs.len() ==> (#[trigger] sigs[k]).holder_index != holder) ==> (
        is_faulty::<P>(holder, sigs, cs, publics, params, active) <==> active.contains(holder)),
        0 <= i < j < sigs.len() && sigs[i].holder_index == holder && sigs[j].holder_index == holder
            ==> is_faulty::<P>(holder, sigs, cs, publics, params, active),
        0 <= i < sigs.len() && sigs[i].holder_index == holder && !active.contains(holder)
            ==> is_faulty::<P>(holder, sigs, cs, publics, params, active),
{
    let hs = sig_holders(sigs);
    if forall|k: int| 0 <= k < sigs.len() ==> (#[trigger] sigs[k]).holder_index != holder {
        assert(!hs.contains(holder)) by {
            if hs.contains(holder) {
                let k = choose|k: int| 0 <= k < hs.len() && hs[k] == holder;
                assert(sigs[k].holder_index == holder);
            }
        }
    }
    if 0 <= i < j < sigs.len() && sigs[i].holder_index == holder && sigs[j].holder_index == holder {
        let before = sigs.subrange(0, j);
        assert(sig_holders(before)[i] == holder);
        assert(sig_holders(before).contains(holder));
        assert(repeats_holder(sigs, j, holder));
    }
    if 0 <= i < sigs.len() && sigs[i].holder_index == holder && !active.contains(holder) {
        assert(fails_at::<P>(sigs, i, holder, cs, publics, params, active));
    }
}

/// Every inner share counts, and those at fault are named: the aggregate is the sum of all
/// responses, and otherwise exactly the holders at fault are returned, ascending, or the
/// quorum itself where it has a member twice.
pub proof fn law_every_inner_share_counts<P: OsstPoint>(
    sigs: &[InnerSignatureShare<P::Scalar>],
    commitments: &[InnerCommitments<P>],
    publics: &[(u32, P)],
    params: InnerSigningParamsV2<P::Scalar>,
    active: &[u32],
    r: Result<P::Scalar, Vec<u32>>,
)
    requires
        call_ensures(
            aggregate_inner_shares_verified::<P>,
            (sigs, commitments, publics, &params, active),
            r,
        ),
    ensures
        r matches Ok(z) ==> eqm(z.val(), sum(sig_responses(sigs@)), ord::<P>()),
        r matches Err(bad) ==> if active@.no_duplicates() {
            &&& bad@.len() > 0
            &&& forall|i: int, j: int| 0 <= i < j < bad@.len() ==> bad@[i] < bad@[j]
            &&& forall|k: u32|
                bad@.contains(k) <==> #[trigger] is_faulty::<P>(
                    k,
                    sigs@,
                    inner_views(commitments@),
                    publics@,
                    params@,
                    active@,
                )
        } else {
            bad@ == active@
        },
        r is Ok <==> active@.no_duplicates() && forall|k: u32|
            !#[trigger] is_faulty::<P>(
                k,
                sigs@,
                inner_views(commitments@),
                publics@,
                params@,
                active@,
            ),
{
    <P::Scalar as OsstScalar>::lemma_order();
    lemma_eqm_mod(sum(sig_responses(sigs@)), ord::<P>());
}

/// An answer is the holder's own: what counts as the answer to a request is what a holder
/// with the same nonces, share, key and approved message returns.
pub proof fn law_answer_is_the_holders<P: OsstPoint>(
    nonces: InnerNonces<P::Scalar>,
    share: SecretShare<P::Scalar>,
    key: P,
    approved_message: &[u8],
    request: NestedSigningRequest<'_, P>,
    answer: Result<InnerSignatureShare<P::Scalar>, OsstError>,
    returned: Result<InnerSignatureShare<P::Scalar>, OsstError>,
)
    requires
        request.package.wf(),
        is_inner_answer::<P>(
            nonces@,
            share@,
            key.log(),
            approved_message@,
            request,
            answer,
        ),
        call_ensures(
            inner_sign_v2::<P>,
            (nonces, &share, &key, approved_message, &request),
            returned,
        ),
    ensures
        answer is Ok <==> returned is Ok,
        answer matches Ok(s) ==> s.holder_index == returned->Ok_0.holder_index && s.response.val()
            == returned->Ok_0.response.val(),
        answer matches Err(e) ==> e == returned->Err_0,
{
}

/// What a holder draws it commits to: the commitments that come with nonces are theirs, for
/// the holder and the session, drawn or given.
pub proof fn law_nonces_and_their_commitments<P: OsstPoint>(
    holder: u32,
    session_id: [u8; 32],
    rng: &mut OsRng,
    drawn: (InnerNonces<P::Scalar>, InnerCommitments<P>),
    hiding: P::Scalar,
    binding: P::Scalar,
    given: (InnerNonces<P::Scalar>, InnerCommitments<P>),
)
    requires
        call_ensures(inner_commit::<P>, (holder, session_id, rng), drawn),
        call_ensures(inner_commit_scalars::<P>, (holder, session_id, hiding, binding), given),
    ensures
        drawn.1.holder_index == holder,
        drawn.1.session_id@ == session_id@,
        drawn.1.hiding.log() == drawn.0@.hiding,
        drawn.1.binding.log() == drawn.0@.binding,
        drawn.0@.holder == holder,
        drawn.0@.session == session_id@,
        given.1.hiding.log() == hiding.val(),
        given.1.binding.log() == binding.val(),
        given.0@ == given.1@,
        given.0@.holder == holder,
        given.0@.session == session_id@,
{
}

/// The holder that is named is at fault: a mismatch names one whose reveal is not what it
/// published, a repetition one that revealed twice, another session one of another session,
/// and a zero one without an index.
pub proof fn law_named_reveal_is_at_fault<P: OsstPoint>(
    session: Seq<u8>,
    precommits: Seq<(u32, [u8; 32])>,
    cs: Seq<InnerNoncesView>,
)
    ensures
        match reveals_error::<P>(session, precommits, cs) {
            None => true,
            Some(OsstError::PrecommitMismatch(h)) => exists|i: int|
                0 <= i < cs.len() && (#[trigger] cs[i]).holder == h && precommit_of(precommits, h)
                    != Some(precommit_value::<P>(cs[i])),
            Some(OsstError::DuplicateIndex(h)) => exists|i: int, j: int|
                0 <= i < j < cs.len() && (#[trigger] cs[i]).holder == h && (
                #[trigger] cs[j]).holder == h,
            Some(OsstError::SessionMismatch) => exists|i: int|
                0 <= i < cs.len() && (#[trigger] cs[i]).session != session,
            Some(OsstError::InvalidIndex) => exists|i: int|
                0 <= i < cs.len() && (#[trigger] cs[i]).holder == 0,
            Some(_) => false,
        },
    decreases cs.len(),
{
    if cs.len() > 0 {
        let rest = cs.drop_last();
        let last = cs.len() - 1;
        law_named_reveal_is_at_fault::<P>(session, precommits, rest);
        assert forall|i: int| 0 <= i < last implies rest[i] == #[trigger] cs[i] by {}
        match reveals_error::<P>(session, precommits, rest) {
            Some(OsstError::PrecommitMismatch(h)) => {
                let i = choose|i: int|
                    0 <= i < rest.len() && (#[trigger] rest[i]).holder == h && precommit_of(
                        precommits,
                        h,
                    ) != Some(precommit_value::<P>(rest[i]));
                assert(cs[i].holder == h);
            },
            Some(OsstError::DuplicateIndex(h)) => {
                let (i, j) = choose|i: int, j: int|
                    0 <= i < j < rest.len() && (#[trigger] rest[i]).holder == h && (
                    #[trigger] rest[j]).holder == h;
                assert(cs[i].holder == h && cs[j].holder == h);
            },
            Some(OsstError::SessionMismatch) => {
                let i = choose|i: int| 0 <= i < rest.len() && (#[trigger] rest[i]).session
                    != session;
                assert(cs[i].session != session);
            },
            Some(OsstError::InvalidIndex) => {
                let i = choose|i: int| 0 <= i < rest.len() && (#[trigger] rest[i]).holder == 0;
                assert(cs[i].holder == 0);
            },
            _ => {
                assert(cs[last] == cs.last());
                if holders(rest).contains(cs.last().holder) {
                    let i = choose|i: int|
                        0 <= i < rest.len() && holders(rest)[i] == cs.last().holder;
                    assert(cs[i].holder == cs[last].holder);
                }
            },
        }
    }
}

/// The member that is named is at fault: an unknown one did not commit, a repeated one is in
/// the quorum twice, and an index of zero is in it.
pub proof fn law_named_member_is_at_fault(active: Seq<u32>, cs: Seq<InnerNoncesView>)
    ensures
        match quorum_error(active, cs) {
            None => true,
            Some(OsstError::UnknownQuorumMember(k)) => active.contains(k) && !holders(cs).contains(
                k,
            ),
            Some(OsstError::DuplicateIndex(k)) => active.contains(k) && !active.no_duplicates(),
            Some(OsstError::InvalidIndex) => active.contains(0),
            Some(_) => false,
        },
    decreases active.len(),
{
    if active.len() > 0 {
        let rest = active.drop_last();
        let last = active.len() - 1;
        law_named_member_is_at_fault(rest, cs);
        assert forall|i: int| 0 <= i < last implies rest[i] == #[trigger] active[i] by {}
        assert forall|k: u32| rest.contains(k) implies active.contains(k) by {
            let i = choose|i: int| 0 <= i < rest.len() && rest[i] == k;
            assert(active[i] == k);
        }
        assert(active.contains(active[last]));
        if quorum_error(rest, cs) is Some {
            if !rest.no_duplicates() {
                let (i, j) = choose|i: int, j: int|
                    0 <= i < rest.len() && 0 <= j < rest.len() && i != j && rest[i] == rest[j];
                assert(active[i] == active[j]);
            }
        } else if rest.contains(active.last()) {
            let i = choose|i: int| 0 <= i < rest.len() && rest[i] == active.last();
            assert(active[i] == active[last]);
        }
    }
}

/// Why a holder refuses, in order: a message it did not approve, a quorum that is too small,
/// a member of the quorum at fault, nonces of another session.
pub proof fn law_holder_refusals<P: OsstPoint>(
    nonces: InnerNonces<P::Scalar>,
    share: SecretShare<P::Scalar>,
    key: P,
    approved_message: &[u8],
    request: NestedSigningRequest<'_, P>,
    e: OsstError,
)
    requires
        request.package.wf(),
        call_ensures(
            inner_sign_v2::<P>,
            (nonces, &share, &key, approved_message, &request),
            Err::<InnerSignatureShare<P::Scalar>, OsstError>(e),
        ),
    ensures
        ({
            let active = request.active_indices@;
            let cs = inner_views(request.inner_commitments@);
            let quorum_fault = quorum_error(active, cs);
            if request.package@.message != approved_message@ {
                e == OsstError::MessageMismatch
            } else if active.len() < request.inner_threshold {
                e == (OsstError::InsufficientContributions {
                    got: active.len() as usize,
                    need: request.inner_threshold as usize,
                })
            } else if quorum_fault is Some {
                e == quorum_fault->0
            } else if nonces@.session != request.session_id@ {
                e == OsstError::SessionMismatch
            } else {
                true
            }
        }),
{
}

/// A polynomial is split exactly where it has a coefficient, and what a key generation dealt
/// to the holders is each holder's part of every coefficient.
pub proof fn law_parts_are_dealt<P: OsstPoint>(
    polynomial: &[P::Scalar],
    inner_n: u32,
    split: Result<(Vec<(u32, P::Scalar)>, DealerCommitment<P>), OsstError>,
    evaluation: P::Scalar,
    inner_t: u32,
    rng: &mut OsRng,
    drawn: (Vec<(u32, P::Scalar)>, DealerCommitment<P>),
    k: int,
)
    requires
        call_ensures(split_with_polynomial::<P>, (polynomial, inner_n), split),
        call_ensures(
            split_evaluation_for_inner::<P>,
            (&evaluation, inner_n, inner_t, rng),
            drawn,
        ),
    ensures
        split is Ok <==> polynomial@.len() > 0,
        drawn.0@.len() == inner_n,
        poly(drawn.1.polynomial(), 0) == evaluation.val(),
        inner_t > 0 ==> drawn.1.polynomial().len() == inner_t,
        0 <= k < inner_n ==> drawn.0@[k].0 == k + 1 && drawn.0@[k].1.val() == poly(
            drawn.1.polynomial(),
            k + 1,
        ) % ord::<P>(),
{
    lemma_poly_zero(drawn.1.polynomial());
}

/// The dealing of an interleaved key generation: each holder's share of a coefficient is the
/// sum of what the coefficient's dealers dealt to it, the coefficient's commitment is to the
/// sum of their constant terms, and the shares lie on one polynomial with it at zero.
pub proof fn law_inner_dealing<P: OsstPoint>(
    dkgs: &[CoefficientDkg<P>],
    inner_n: u32,
    shares: Vec<InnerShare<P::Scalar>>,
    commitments: Vec<P>,
    j: int,
    k: int,
    t: nat,
)
    requires
        call_ensures(
            deal_inner_shares::<P>,
            (dkgs, inner_n),
            Ok::<InterleavedDkg<P>, OsstError>((shares, commitments)),
        ),
        0 <= j < dkgs@.len(),
        0 <= k < inner_n,
        t > 0,
        forall|i: int|
            0 <= i < dkgs@[j].dealers@.len() ==> (#[trigger] dkgs@[j].dealers@[i])@.polynomial.len()
                == t,
    ensures
        shares@.len() == inner_n,
        commitments@.len() == dkgs@.len(),
        shares@[k].holder_index == k + 1,
        ({
            let f = polynomial_sum(dealer_views(dkgs@[j].dealers@), t);
            &&& f.len() == t
            &&& shares@[k].coefficient_shares@[j].val() == poly(f, k + 1) % ord::<P>()
            &&& commitments@[j].log() == poly(f, 0) % ord::<P>()
        }),
{
    let ds = dealer_views(dkgs@[j].dealers@);
    assert forall|i: int| 0 <= i < ds.len() implies (#[trigger] ds[i]).polynomial.len() == t by {
        assert(dkgs@[j].dealers@[i]@.polynomial.len() == t);
    }
    lemma_polynomial_sum(ds, t, (k + 1) as u32);
    lemma_poly_zero(polynomial_sum(ds, t));
    assert(is_inner_share::<P>(shares@[k], k, dkgs@));
    assert(shares@[k].coefficient_shares@[j].val() == dealt_sum(ds, (k + 1) as u32) % ord::<P>());
}

/// The domain of the round-0 hash, as text.
pub proof fn law_domain_text()
    ensures
        PRECOMMIT_DOMAIN@ == ascii("frostito-inner-precommit-v2"@),
{
    reveal_strlit("frostito-inner-precommit-v2");
    assert(PRECOMMIT_DOMAIN@ =~= ascii("frostito-inner-precommit-v2"@));
}

/// A store in memory knows what it recorded: a pair is spent exactly where it was recorded,
/// and as many are counted as were.
pub proof fn law_store_knows_its_record(
    store: MemorySpentSessions,
    session_id: [u8; 32],
    holder: u32,
    spent: bool,
    count: usize,
    empty: bool,
    fresh: MemorySpentSessions,
)
    requires
        call_ensures(
            <MemorySpentSessions as SpentSessions>::is_spent,
            (&store, &session_id, holder),
            spent,
        ),
        call_ensures(MemorySpentSessions::len, (&store,), count),
        call_ensures(MemorySpentSessions::is_empty, (&store,), empty),
        call_ensures(MemorySpentSessions::new, (), fresh),
    ensures
        spent <==> exists|i: int|
            0 <= i < store.entries().len() && #[trigger] store.entries()[i] == (
                session_id@,
                holder,
            ),
        count == store.entries().len(),
        empty <==> count == 0,
        fresh.entries().len() == 0,
{
    let e = store.entries();
    if spent {
        assert(e.contains((session_id@, holder)));
        let i = choose|i: int| 0 <= i < e.len() && e[i] == (session_id@, holder);
        assert(e[i] == (session_id@, holder));
    }
    if exists|i: int| 0 <= i < e.len() && #[trigger] e[i] == (session_id@, holder) {
        assert(e.contains((session_id@, holder)));
    }
}

} // verus!
