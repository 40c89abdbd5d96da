//! Lagrange coefficients for interpolation at zero.
use vstd::prelude::*;

use crate::curve::OsstScalar;
use crate::error::OsstError;
use crate::math::{
    distinct_nodes, dot, eqm, inv, is_field, lagrange, lagrange_factor, lemma_cancel,
    lemma_dot_eqm, lemma_eqm_diff, lemma_eqm_mod, lemma_eqm_mul, lemma_field_inverse,
    lemma_interpolation, lemma_mod_mul, lemma_weighted_dot, poly,
};

verus! {

/// Share indices as integers.
pub open spec fn nodes(indices: Seq<u32>) -> Seq<int> {
    Seq::new(indices.len(), |i: int| indices[i] as int)
}

/// The coefficients for a set of share indices, in its order.
pub open spec fn coefficients(indices: Seq<u32>, n: int) -> Seq<int> {
    Seq::new(indices.len(), |i: int| lagrange(nodes(indices), indices[i] as int, n) % n)
}

/// Distinct share indices are distinct residues.
pub proof fn lemma_distinct(indices: Seq<u32>, n: int)
    requires
        n > 0x1_0000_0000,
        indices.no_duplicates(),
    ensures
        distinct_nodes(nodes(indices), n),
{
    let xs = nodes(indices);
    assert forall|i: int, j: int|
        0 <= i < xs.len() && 0 <= j < xs.len() && i != j implies !eqm(
        #[trigger] xs[i] - #[trigger] xs[j],
        0,
        n,
    ) by {
        assert(indices[i] != indices[j]);
        lemma_difference(indices[i], indices[j], n);
    }
}

/// The difference of two distinct share indices is no multiple of the order.
pub proof fn lemma_difference(a: u32, b: u32, n: int)
    requires
        n > 0x1_0000_0000,
        a != b,
    ensures
        !eqm(a as int - b as int, 0, n),
{
    let d = a as int - b as int;
    if eqm(d, 0, n) {
        let k = lemma_eqm_diff(d, 0, n);
        assert(k == 0) by (nonlinear_arith)
            requires
                d == n * k,
                n > 0x1_0000_0000,
                -0x1_0000_0000 < d < 0x1_0000_0000,
        ;
    }
}

/// One factor of a coefficient: the inverse of the running denominator gains
/// the inverse of the next difference.
proof fn lemma_factor(num: int, den: int, w: int, x: int, d: int, l: int, n: int)
    requires
        is_field(n),
        !eqm(d, 0, n),
        eqm(den * w, 1, n),
        eqm(num * w, l, n),
    ensures
        eqm((num * x) * (w * inv(d, n)), l * (x * inv(d, n)), n),
        eqm((den * d) * (w * inv(d, n)), 1, n),
{
    let u = inv(d, n);
    lemma_field_inverse(d, n);
    lemma_eqm_mul(num * w, l, x * u, x * u, n);
    assert((num * x) * (w * u) == (num * w) * (x * u)) by (nonlinear_arith);
    lemma_eqm_mul(den * w, 1, d * u, 1, n);
    assert((den * d) * (w * u) == (den * w) * (d * u)) by (nonlinear_arith);
}

/// Lagrange coefficients for interpolation at zero over `indices`, in their
/// order: for each index the product of `x / (x - i)` over the others.
///
/// # Errors
///
/// [`OsstError::LagrangeError`] if an index occurs twice.
pub fn compute_lagrange_coefficients<S: OsstScalar>(indices: &[u32]) -> (r: Result<
    Vec<S>,
    OsstError,
>)
    ensures
        r is Ok <==> indices@.no_duplicates(),
        r matches Err(e) ==> e == OsstError::LagrangeError,
        r matches Ok(v) ==> v@.len() == indices@.len() && crate::curve::vals(v@) == coefficients(
            indices@,
            S::order(),
        ),
{
    let ghost n = S::order();
    let ghost xs = nodes(indices@);
    proof {
        S::lemma_order();
    }
    let one = S::one();
    let mut out: Vec<S> = Vec::new();
    let mut i: usize = 0;
    while i < indices.len()
        invariant
            i <= indices@.len(),
            n == S::order(),
            n > 0x1_0000_0000,
            is_field(n),
            xs == nodes(indices@),
            one.val() == 1,
            out@.len() == i,
            forall|k: int|
                0 <= k < i ==> (#[trigger] out@[k]).val() == coefficients(indices@, n)[k],
            forall|a: int, b: int|
                0 <= a < i && 0 <= b < indices@.len() && a != b ==> indices@[a] != indices@[b],
        decreases indices@.len() - i,
    {
        let x_i = S::from_u32(indices[i]);
        let mut num = one;
        let mut den = one;
        let ghost mut w: int = 1;
        let ghost p = indices@[i as int] as int;
        let mut j: usize = 0;
        assert(xs.subrange(0, 0).len() == 0);
        while j < indices.len()
            invariant
                i < indices@.len(),
                j <= indices@.len(),
                n == S::order(),
                n > 0x1_0000_0000,
                is_field(n),
                xs == nodes(indices@),
                p == indices@[i as int] as int,
                x_i.val() == p,
                eqm(den.val() * w, 1, n),
                eqm(num.val() * w, lagrange(xs.subrange(0, j as int), p, n), n),
                forall|b: int| 0 <= b < j && b != i ==> indices@[b] != indices@[i as int],
            decreases indices@.len() - j,
        {
            let ghost before = xs.subrange(0, j as int);
            let ghost after = xs.subrange(0, j as int + 1);
            proof {
                assert(after.drop_last() =~= before);
                assert(after.last() == indices@[j as int] as int);
                assert(lagrange(after, p, n) == lagrange(before, p, n) * lagrange_factor(
                    indices@[j as int] as int,
                    p,
                    n,
                ));
            }
            if i != j {
                if indices[j] == indices[i] {
                    assert(!indices@.no_duplicates());
                    return Err(OsstError::LagrangeError);
                }
                let x_j = S::from_u32(indices[j]);
                let diff = x_j.sub(&x_i);
                let ghost num0 = num.val();
                let ghost den0 = den.val();
                num = num.mul(&x_j);
                den = den.mul(&diff);
                proof {
                    let x = indices@[j as int] as int;
                    let d = x - p;
                    lemma_difference(indices@[j as int], indices@[i as int], n);
                    lemma_factor(num0, den0, w, x, d, lagrange(before, p, n), n);
                    let w2 = w * inv(d, n);
                    lemma_mod_mul(den0, d, n);
                    lemma_eqm_mod(num0 * x, n);
                    lemma_eqm_mod(den0 * d, n);
                    lemma_eqm_mul(num.val(), num0 * x, w2, w2, n);
                    lemma_eqm_mul(den.val(), den0 * d, w2, w2, n);
                    w = w2;
                }
            } else {
                assert(lagrange(before, p, n) * 1 == lagrange(before, p, n));
            }
            j += 1;
        }
        assert(xs.subrange(0, j as int) =~= xs);
        let inverse = den.invert();
        let coefficient = num.mul(&inverse);
        proof {
            // the denominator has an inverse, and `w` is congruent to it
            assert(den.val() != 0) by {
                if den.val() == 0 {
                    assert(0 * w == 0);
                    vstd::arithmetic::div_mod::lemma_small_mod(1, n as nat);
                    vstd::arithmetic::div_mod::lemma_small_mod(0, n as nat);
                }
            }
            lemma_cancel(den.val(), inverse.val(), w, n);
            lemma_eqm_mul(num.val(), num.val(), inverse.val(), w, n);
            assert(coefficient.val() == lagrange(xs, p, n) % n);
        }
        out.push(coefficient);
        i += 1;
    }
    proof {
        assert(crate::curve::vals(out@) =~= coefficients(indices@, n));
        assert(indices@.no_duplicates());
    }
    Ok(out)
}

/// Interpolation at zero over share indices: with at least as many distinct
/// shares as the polynomial has coefficients, the coefficients of the indices
/// recover its value at zero from its values at them.
pub proof fn lemma_reconstruct(indices: Seq<u32>, shares: Seq<int>, c: Seq<int>, n: int)
    requires
        is_field(n),
        n > 0x1_0000_0000,
        indices.no_duplicates(),
        c.len() <= indices.len(),
        shares.len() == indices.len(),
        forall|i: int|
            0 <= i < indices.len() ==> eqm(#[trigger] shares[i], poly(c, indices[i] as int), n),
    ensures
        eqm(dot(coefficients(indices, n), shares), poly(c, 0), n),
{
    let xs = nodes(indices);
    lemma_distinct(indices, n);
    lemma_interpolation(xs, c, n);
    lemma_weighted_dot(xs, xs, c, n);
    let a = Seq::new(xs.len(), |i: int| lagrange(xs, xs[i], n));
    let b = Seq::new(xs.len(), |i: int| poly(c, xs[i]));
    assert forall|i: int| 0 <= i < xs.len() implies eqm(
        #[trigger] coefficients(indices, n)[i],
        a[i],
        n,
    ) by {
        lemma_eqm_mod(lagrange(xs, xs[i], n), n);
    }
    lemma_dot_eqm(coefficients(indices, n), shares, a, b, n);
}

/// The coefficients interpolate: for any distinct indices and any polynomial with no more
/// coefficients than there are indices, the polynomial's values at the indices, weighted
/// with what is computed for them, add up to its value at zero. Indices that are not
/// distinct have none.
pub proof fn law_coefficients_interpolate<S: OsstScalar>(
    indices: &[u32],
    r: Result<Vec<S>, OsstError>,
    polynomial: Seq<int>,
)
    requires
        is_field(S::order()),
        call_ensures(compute_lagrange_coefficients::<S>, (indices,), r),
        polynomial.len() <= indices@.len(),
    ensures
        r is Ok <==> indices@.no_duplicates(),
        r matches Ok(v) ==> v@.len() == indices@.len() && eqm(
            dot(
                crate::curve::vals(v@),
                Seq::new(indices@.len(), |i: int| poly(polynomial, indices@[i] as int)),
            ),
            poly(polynomial, 0),
            S::order(),
        ),
        r matches Err(e) ==> e == OsstError::LagrangeError,
{
    S::lemma_order();
    if r is Ok {
        let shares = Seq::new(indices@.len(), |i: int| poly(polynomial, indices@[i] as int));
        lemma_reconstruct(indices@, shares, polynomial, S::order());
    }
}

} // verus!
