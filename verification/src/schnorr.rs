//! The Schnorr equation that the proofs and signatures share.
use vstd::prelude::*;

use crate::curve::{ord, OsstPoint, OsstScalar};
use crate::math::{
    eqm, is_field, lemma_cancel, lemma_eqm_mod, lemma_eqm_small, lemma_eqm_sub, lemma_mod_add,
};
use crate::shamir::base_mul;

verus! {

/// The response `k + e x`.
pub open spec fn schnorr_response(k: int, e: int, x: int, n: int) -> int {
    (k + e * x) % n
}

/// Computes the response `k + e x`.
pub fn respond<S: OsstScalar>(k: &S, e: &S, x: &S) -> (r: S)
    ensures
        r.val() == schnorr_response(k.val(), e.val(), x.val(), S::order()),
{
    let r = k.add(&e.mul(x));
    proof {
        S::lemma_order();
        lemma_mod_add(k.val(), e.val() * x.val(), S::order());
    }
    r
}

/// Checks `z G = R + e Y`.
pub fn check<P: OsstPoint>(z: &P::Scalar, r: &P, e: &P::Scalar, y: &P) -> (ok: bool)
    ensures
        ok == (z.val() == schnorr_response(r.log(), e.val(), y.log(), ord::<P>())),
{
    let lhs = base_mul::<P>(z);
    let rhs = r.add(&y.mul_scalar(e));
    proof {
        <P::Scalar as OsstScalar>::lemma_order();
        assert(y.log() * e.val() == e.val() * y.log()) by (nonlinear_arith);
        lemma_mod_add(r.log(), e.val() * y.log(), ord::<P>());
    }
    lhs.equals(&rhs)
}

/// What a response is for: it is a residue, it is the nonce where the challenge is zero,
/// and it grows by the secret with every step of the challenge, so that two responses of
/// one nonce differ by the secret times the difference of their challenges.
pub proof fn law_responses_differ_by_secret(k: int, e: int, f: int, x: int, n: int)
    requires
        n > 0,
    ensures
        0 <= schnorr_response(k, e, x, n) < n,
        eqm(schnorr_response(k, 0, x, n), k, n),
        eqm(schnorr_response(k, e, x, n) - schnorr_response(k, f, x, n), (e - f) * x, n),
{
    let (a, b) = (k + e * x, k + f * x);
    lemma_eqm_mod(a, n);
    lemma_eqm_mod(b, n);
    assert(0 * x == 0) by (nonlinear_arith);
    lemma_eqm_mod(k, n);
    lemma_eqm_sub(a % n, a, b % n, b, n);
    assert(a - b == (e - f) * x) by (nonlinear_arith)
        requires
            a == k + e * x,
            b == k + f * x,
    ;
}

/// A response answers one challenge: where the secret is not zero, responses of one nonce
/// are equal only for equal challenges.
pub proof fn law_response_binds_challenge(k: int, e: int, f: int, x: int, n: int)
    requires
        is_field(n),
        0 <= e < n,
        0 <= f < n,
        0 < x < n,
        schnorr_response(k, e, x, n) == schnorr_response(k, f, x, n),
    ensures
        e == f,
{
    law_responses_differ_by_secret(k, e, f, x, n);
    vstd::arithmetic::div_mod::lemma_small_mod(x as nat, n as nat);
    vstd::arithmetic::div_mod::lemma_small_mod(0, n as nat);
    assert(!eqm(x, 0, n));
    assert(x * (e - f) == (e - f) * x) by (nonlinear_arith);
    assert(x * 0 == 0) by (nonlinear_arith);
    lemma_cancel(x, e - f, 0, n);
    crate::math::lemma_eqm_add(e - f, 0, f, f, n);
    lemma_eqm_small(e, f, n);
}

/// The holder of a secret answers every challenge, and of all responses no other passes: the
/// check accepts exactly what the holder of nonce and secret responds.
pub proof fn law_check_accepts_response<P: OsstPoint>(
    k: P::Scalar,
    e: P::Scalar,
    x: P::Scalar,
    response: P::Scalar,
    r: P,
    y: P,
    candidate: P::Scalar,
    accepted: bool,
)
    requires
        call_ensures(respond::<P::Scalar>, (&k, &e, &x), response),
        r.log() == k.val(),
        y.log() == x.val(),
        call_ensures(check::<P>, (&candidate, &r, &e, &y), accepted),
    ensures
        accepted <==> candidate.val() == response.val(),
        eqm(response.val(), k.val() + e.val() * x.val(), ord::<P>()),
{
    <P::Scalar as OsstScalar>::lemma_order();
    lemma_eqm_mod(k.val() + e.val() * x.val(), ord::<P>());
}

} // verus!
