//! Arithmetic modulo the group order: congruences, polynomials, sums and the
//! interpolation theorem the threshold protocols rest on.
//!
//! Scalars and points are modelled by integers, a scalar by its residue and a
//! point by the multiple of the generator it is. Everything here is stated over
//! plain integers and reduced modulo `n` only where two values are compared.
use vstd::arithmetic::div_mod::{
    lemma_fundamental_div_mod, lemma_fundamental_div_mod_converse, lemma_mod_twice,
    lemma_small_mod,
};
use vstd::prelude::*;

verus! {

// ---------------------------------------------------------------------------
// Congruences
// ---------------------------------------------------------------------------

/// `a` and `b` leave the same remainder modulo `n`.
pub open spec fn eqm(a: int, b: int, n: int) -> bool {
    a % n == b % n
}

/// Congruent integers differ by a multiple of the modulus.
pub proof fn lemma_eqm_diff(a: int, b: int, n: int) -> (k: int)
    requires
        n > 0,
        eqm(a, b, n),
    ensures
        a - b == n * k,
{
    lemma_fundamental_div_mod(a, n);
    lemma_fundamental_div_mod(b, n);
    let k = a / n - b / n;
    assert(n * (a / n) - n * (b / n) == n * k) by (nonlinear_arith)
        requires
            k == a / n - b / n,
    ;
    k
}

/// Integers that differ by a multiple of the modulus are congruent.
pub proof fn lemma_diff_eqm(a: int, b: int, k: int, n: int)
    requires
        n > 0,
        a - b == n * k,
    ensures
        eqm(a, b, n),
{
    lemma_fundamental_div_mod(b, n);
    let q = b / n + k;
    assert(n * (b / n) + n * k == n * q) by (nonlinear_arith)
        requires
            q == b / n + k,
    ;
    assert(q * n == n * q) by (nonlinear_arith);
    lemma_fundamental_div_mod_converse(a, n, q, b % n);
}

/// A value is congruent to its remainder.
pub proof fn lemma_eqm_mod(a: int, n: int)
    requires
        n > 0,
    ensures
        eqm(a % n, a, n),
        0 <= a % n < n,
{
    lemma_mod_twice(a, n);
}

/// Congruence is preserved by addition.
pub proof fn lemma_eqm_add(a: int, a2: int, b: int, b2: int, n: int)
    requires
        n > 0,
        eqm(a, a2, n),
        eqm(b, b2, n),
    ensures
        eqm(a + b, a2 + b2, n),
{
    let j = lemma_eqm_diff(a, a2, n);
    let k = lemma_eqm_diff(b, b2, n);
    assert(n * j + n * k == n * (j + k)) by (nonlinear_arith);
    lemma_diff_eqm(a + b, a2 + b2, j + k, n);
}

/// Congruence is preserved by subtraction.
pub proof fn lemma_eqm_sub(a: int, a2: int, b: int, b2: int, n: int)
    requires
        n > 0,
        eqm(a, a2, n),
        eqm(b, b2, n),
    ensures
        eqm(a - b, a2 - b2, n),
{
    let j = lemma_eqm_diff(a, a2, n);
    let k = lemma_eqm_diff(b, b2, n);
    assert(n * j - n * k == n * (j - k)) by (nonlinear_arith);
    lemma_diff_eqm(a - b, a2 - b2, j - k, n);
}

/// Congruence is preserved by multiplication.
pub proof fn lemma_eqm_mul(a: int, a2: int, b: int, b2: int, n: int)
    requires
        n > 0,
        eqm(a, a2, n),
        eqm(b, b2, n),
    ensures
        eqm(a * b, a2 * b2, n),
{
    let j = lemma_eqm_diff(a, a2, n);
    let k = lemma_eqm_diff(b, b2, n);
    let m = j * b + a2 * k;
    assert(a * b - a2 * b2 == n * m) by (nonlinear_arith)
        requires
            a - a2 == n * j,
            b - b2 == n * k,
            m == j * b + a2 * k,
    ;
    lemma_diff_eqm(a * b, a2 * b2, m, n);
}

/// Two congruent values in range are equal.
pub proof fn lemma_eqm_small(a: int, b: int, n: int)
    requires
        0 <= a < n,
        0 <= b < n,
        eqm(a, b, n),
    ensures
        a == b,
{
    lemma_small_mod(a as nat, n as nat);
    lemma_small_mod(b as nat, n as nat);
}

/// A sum of two reduced values, reduced, is the sum.
pub proof fn lemma_mod_add(a: int, b: int, n: int)
    requires
        n > 0,
    ensures
        (a % n + b % n) % n == (a + b) % n,
        (a % n + b) % n == (a + b) % n,
        (a + b % n) % n == (a + b) % n,
{
    lemma_eqm_mod(a, n);
    lemma_eqm_mod(b, n);
    lemma_eqm_add(a % n, a, b % n, b, n);
    lemma_eqm_add(a % n, a, b, b, n);
    lemma_eqm_add(a, a, b % n, b, n);
}

/// A product of two reduced values, reduced, is the product.
pub proof fn lemma_mod_mul(a: int, b: int, n: int)
    requires
        n > 0,
    ensures
        ((a % n) * (b % n)) % n == (a * b) % n,
        ((a % n) * b) % n == (a * b) % n,
        (a * (b % n)) % n == (a * b) % n,
{
    lemma_eqm_mod(a, n);
    lemma_eqm_mod(b, n);
    lemma_eqm_mul(a % n, a, b % n, b, n);
    lemma_eqm_mul(a % n, a, b, b, n);
    lemma_eqm_mul(a, a, b % n, b, n);
}

// ---------------------------------------------------------------------------
// Inverses
// ---------------------------------------------------------------------------

/// `b` is a residue that `a` carries to `t` modulo `n`.
pub open spec fn is_quotient(a: int, b: int, t: int, n: int) -> bool {
    0 <= b < n && eqm(a * b, t, n)
}

/// `b` is an inverse of `a` modulo `n`.
pub open spec fn is_inverse(a: int, b: int, n: int) -> bool {
    is_quotient(a, b, 1, n)
}

/// The inverse of `a` modulo `n`, and zero where there is none.
pub open spec fn inv(a: int, n: int) -> int {
    if exists|b: int| is_inverse(a, b, n) {
        choose|b: int| is_inverse(a, b, n)
    } else {
        0
    }
}

/// Residues modulo `n` form a field: every residue but zero has an inverse.
pub open spec fn is_field(n: int) -> bool {
    n > 1 && forall|a: int| !eqm(a, 0, n) ==> exists|b: int| #[trigger] is_inverse(a, b, n)
}

/// An inverse is unique.
pub proof fn lemma_inverse_unique(a: int, b: int, n: int)
    requires
        n > 1,
        is_inverse(a, b, n),
    ensures
        inv(a, n) == b,
{
    let c = inv(a, n);
    assert(is_inverse(a, c, n));
    // b == b * (a * c) == (b * a) * c == c
    lemma_eqm_mul(b, b, a * c, 1, n);
    lemma_eqm_mul(a * b, 1, c, c, n);
    assert(b * (a * c) == (a * b) * c) by (nonlinear_arith);
    lemma_eqm_small(b, c, n);
}

/// In a field, `inv` is an inverse of every residue but zero.
pub proof fn lemma_field_inverse(a: int, n: int)
    requires
        is_field(n),
        !eqm(a, 0, n),
    ensures
        is_inverse(a, inv(a, n), n),
{
    assert(exists|b: int| is_inverse(a, b, n));
}

/// A factor with an inverse cancels.
pub proof fn lemma_cancel(a: int, x: int, y: int, n: int)
    requires
        n > 1,
        exists|b: int| is_inverse(a, b, n),
        eqm(a * x, a * y, n),
    ensures
        eqm(x, y, n),
{
    let b = choose|b: int| is_inverse(a, b, n);
    lemma_eqm_mul(b, b, a * x, a * y, n);
    assert(b * (a * x) == (a * b) * x) by (nonlinear_arith);
    assert(b * (a * y) == (a * b) * y) by (nonlinear_arith);
    lemma_eqm_mul(a * b, 1, x, x, n);
    lemma_eqm_mul(a * b, 1, y, y, n);
}

// ---------------------------------------------------------------------------
// Polynomials and sums
// ---------------------------------------------------------------------------

/// The polynomial `c[0] + c[1] x + c[2] x^2 + ..` at `x`.
pub open spec fn poly(c: Seq<int>, x: int) -> int
    decreases c.len(),
{
    if c.len() == 0 {
        0
    } else {
        c[0] + x * poly(c.drop_first(), x)
    }
}

/// The sum of a sequence.
pub open spec fn sum(s: Seq<int>) -> int
    decreases s.len(),
{
    if s.len() == 0 {
        0
    } else {
        sum(s.drop_last()) + s.last()
    }
}

/// The inner product of two sequences of one length.
pub open spec fn dot(a: Seq<int>, b: Seq<int>) -> int
    decreases a.len(),
{
    if a.len() == 0 {
        0
    } else {
        dot(a.drop_last(), b.drop_last()) + a.last() * b.last()
    }
}

/// A polynomial at zero is its constant term.
pub proof fn lemma_poly_zero(c: Seq<int>)
    ensures
        poly(c, 0) == (if c.len() == 0 {
            0
        } else {
            c[0]
        }),
{
}

/// Evaluation depends on the coefficients only up to congruence.
pub proof fn lemma_poly_eqm(c: Seq<int>, d: Seq<int>, x: int, n: int)
    requires
        n > 0,
        c.len() == d.len(),
        forall|i: int| 0 <= i < c.len() ==> eqm(#[trigger] c[i], d[i], n),
    ensures
        eqm(poly(c, x), poly(d, x), n),
    decreases c.len(),
{
    if c.len() > 0 {
        assert(forall|i: int|
            0 <= i < c.drop_first().len() ==> eqm(
                #[trigger] c.drop_first()[i],
                d.drop_first()[i],
                n,
            )) by {
            assert forall|i: int| 0 <= i < c.drop_first().len() implies eqm(
                #[trigger] c.drop_first()[i],
                d.drop_first()[i],
                n,
            ) by {
                assert(eqm(c[i + 1], d[i + 1], n));
            }
        }
        lemma_poly_eqm(c.drop_first(), d.drop_first(), x, n);
        lemma_eqm_mul(x, x, poly(c.drop_first(), x), poly(d.drop_first(), x), n);
        lemma_eqm_add(
            c[0],
            d[0],
            x * poly(c.drop_first(), x),
            x * poly(d.drop_first(), x),
            n,
        );
    }
}

/// The coefficients of `(f(x) - f(p)) / (x - p)`.
pub open spec fn quotient(c: Seq<int>, p: int) -> Seq<int>
    decreases c.len(),
{
    if c.len() <= 1 {
        Seq::empty()
    } else {
        seq![poly(c.drop_first(), p)] + quotient(c.drop_first(), p)
    }
}

/// Division with remainder by `x - p`.
pub proof fn lemma_quotient(c: Seq<int>, p: int, x: int)
    ensures
        c.len() > 0 ==> quotient(c, p).len() == c.len() - 1,
        poly(c, x) == poly(c, p) + (x - p) * poly(quotient(c, p), x),
    decreases c.len(),
{
    if c.len() == 0 {
    } else if c.len() == 1 {
        assert(c.drop_first().len() == 0);
        assert(x * poly(c.drop_first(), x) == 0) by (nonlinear_arith)
            requires
                poly(c.drop_first(), x) == 0,
        ;
        assert(p * poly(c.drop_first(), p) == 0) by (nonlinear_arith)
            requires
                poly(c.drop_first(), p) == 0,
        ;
    } else {
        let d = c.drop_first();
        lemma_quotient(d, p, x);
        let q = quotient(c, p);
        assert(q.drop_first() =~= quotient(d, p));
        assert(q[0] == poly(d, p));
        let g = poly(quotient(d, p), x);
        assert(poly(q, x) == poly(d, p) + x * g);
        assert(c[0] + x * poly(d, x) == c[0] + p * poly(d, p) + (x - p) * (poly(d, p) + x * g))
            by (nonlinear_arith)
            requires
                poly(d, x) == poly(d, p) + (x - p) * g,
        ;
    }
}

// ---------------------------------------------------------------------------
// Lagrange coefficients at zero
// ---------------------------------------------------------------------------

/// What the node `x` contributes to the coefficient of the node `p`.
pub open spec fn lagrange_factor(x: int, p: int, n: int) -> int {
    if x == p {
        1
    } else {
        x * inv(x - p, n)
    }
}

/// The coefficient of the node `p` for interpolation at zero over `nodes`: the
/// product of `x / (x - p)` over the other nodes.
pub open spec fn lagrange(nodes: Seq<int>, p: int, n: int) -> int
    decreases nodes.len(),
{
    if nodes.len() == 0 {
        1
    } else {
        lagrange(nodes.drop_last(), p, n) * lagrange_factor(nodes.last(), p, n)
    }
}

/// No two nodes are congruent.
pub open spec fn distinct_nodes(nodes: Seq<int>, n: int) -> bool {
    forall|i: int, j: int|
        0 <= i < nodes.len() && 0 <= j < nodes.len() && i != j ==> !eqm(
            #[trigger] nodes[i] - #[trigger] nodes[j],
            0,
            n,
        )
}

/// The weighted sum of `f` over `points`, with the coefficients for `nodes`.
pub open spec fn weighted(nodes: Seq<int>, points: Seq<int>, c: Seq<int>, n: int) -> int
    decreases points.len(),
{
    if points.len() == 0 {
        0
    } else {
        weighted(nodes, points.drop_last(), c, n) + lagrange(nodes, points.last(), n) * poly(
            c,
            points.last(),
        )
    }
}

proof fn lemma_lagrange_push(nodes: Seq<int>, x: int, p: int, n: int)
    ensures
        lagrange(nodes.push(x), p, n) == lagrange(nodes, p, n) * lagrange_factor(x, p, n),
{
    assert(nodes.push(x).drop_last() =~= nodes);
}

/// The sum of the coefficients over some of the nodes.
pub open spec fn unity(nodes: Seq<int>, points: Seq<int>, n: int) -> int
    decreases points.len(),
{
    if points.len() == 0 {
        0
    } else {
        unity(nodes, points.drop_last(), n) + lagrange(nodes, points.last(), n)
    }
}

proof fn lemma_unity_push(nodes: Seq<int>, points: Seq<int>, x: int, n: int)
    ensures
        unity(nodes, points.push(x), n) == unity(nodes, points, n) + lagrange(nodes, x, n),
{
    assert(points.push(x).drop_last() =~= points);
}

/// The three-term recurrence, for a point that is neither `a` nor `b`.
proof fn lemma_recurrence(core: Seq<int>, a: int, b: int, p: int, n: int)
    requires
        is_field(n),
        !eqm(a - p, 0, n),
        !eqm(b - p, 0, n),
    ensures
        eqm(
            (b - a) * lagrange(core.push(a).push(b), p, n),
            b * lagrange(core.push(a), p, n) - a * lagrange(core.push(b), p, n),
            n,
        ),
{
    lemma_lagrange_push(core.push(a), b, p, n);
    lemma_lagrange_push(core, a, p, n);
    lemma_lagrange_push(core, b, p, n);
    lemma_field_inverse(a - p, n);
    lemma_field_inverse(b - p, n);
    let l = lagrange(core, p, n);
    let u = inv(a - p, n);
    let v = inv(b - p, n);
    let s = l * a * b;
    // u - v is congruent to u v ((b - p) - (a - p))
    lemma_eqm_mul(u, u, (b - p) * v, 1, n);
    lemma_eqm_mul(v, v, (a - p) * u, 1, n);
    lemma_eqm_sub(u * ((b - p) * v), u, v * ((a - p) * u), v, n);
    let left = u * ((b - p) * v) - v * ((a - p) * u);
    lemma_eqm_mul(s, s, left, u - v, n);
    assert(a - p != 0 && b - p != 0);
    let w = u * v;
    assert(l * (a * u) * (b * v) == (l * a * b) * (u * v)) by (nonlinear_arith);
    assert(u * ((b - p) * v) == (b - p) * (u * v)) by (nonlinear_arith);
    assert(v * ((a - p) * u) == (a - p) * (u * v)) by (nonlinear_arith);
    assert((b - p) * w - (a - p) * w == (b - a) * w) by (nonlinear_arith);
    assert((b - a) * (s * w) == s * ((b - a) * w)) by (nonlinear_arith);
    assert(b * (l * (a * u)) == (l * a * b) * u) by (nonlinear_arith);
    assert(a * (l * (b * v)) == (l * a * b) * v) by (nonlinear_arith);
    assert(s * u - s * v == s * (u - v)) by (nonlinear_arith);
}

proof fn lemma_unity_core(core: Seq<int>, points: Seq<int>, a: int, b: int, n: int)
    requires
        is_field(n),
        forall|i: int|
            0 <= i < points.len() ==> !eqm(a - #[trigger] points[i], 0, n) && !eqm(
                b - points[i],
                0,
                n,
            ),
    ensures
        eqm(
            (b - a) * unity(core.push(a).push(b), points, n),
            b * unity(core.push(a), points, n) - a * unity(core.push(b), points, n),
            n,
        ),
    decreases points.len(),
{
    let all = core.push(a).push(b);
    if points.len() == 0 {
        assert((b - a) * 0 == 0) by (nonlinear_arith);
        assert(b * 0 - a * 0 == 0) by (nonlinear_arith);
    } else {
        let rest = points.drop_last();
        let p = points.last();
        assert forall|i: int| 0 <= i < rest.len() implies !eqm(a - #[trigger] rest[i], 0, n)
            && !eqm(b - rest[i], 0, n) by {
            assert(rest[i] == points[i]);
        }
        lemma_unity_core(core, rest, a, b, n);
        assert(p == points[points.len() - 1]);
        lemma_recurrence(core, a, b, p, n);
        let t = unity(all, rest, n);
        let l = lagrange(all, p, n);
        let ta = unity(core.push(a), rest, n);
        let la = lagrange(core.push(a), p, n);
        let tb = unity(core.push(b), rest, n);
        let lb = lagrange(core.push(b), p, n);
        lemma_eqm_add((b - a) * t, b * ta - a * tb, (b - a) * l, b * la - a * lb, n);
        assert((b - a) * t + (b - a) * l == (b - a) * (t + l)) by (nonlinear_arith);
        assert(b * ta - a * tb + (b * la - a * lb) == b * (ta + la) - a * (tb + lb))
            by (nonlinear_arith);
    }
}

/// The coefficients over a set of distinct nodes add up to one.
pub proof fn lemma_unity(nodes: Seq<int>, n: int)
    requires
        is_field(n),
        distinct_nodes(nodes, n),
        nodes.len() > 0,
    ensures
        eqm(unity(nodes, nodes, n), 1, n),
    decreases nodes.len(),
{
    if nodes.len() == 1 {
        let a = nodes[0];
        assert(nodes =~= Seq::<int>::empty().push(a));
        lemma_unity_push(nodes, Seq::empty(), a, n);
        lemma_lagrange_push(Seq::empty(), a, a, n);
    } else {
        let b = nodes.last();
        let a = nodes[nodes.len() - 2];
        let core = nodes.drop_last().drop_last();
        let with_a = core.push(a);
        let with_b = core.push(b);
        assert(nodes =~= with_a.push(b));
        assert(!eqm(nodes[nodes.len() - 1] - nodes[nodes.len() - 2], 0, n));
        assert(!eqm(nodes[nodes.len() - 2] - nodes[nodes.len() - 1], 0, n));
        assert(distinct_nodes(with_a, n)) by {
            assert forall|i: int, j: int|
                0 <= i < with_a.len() && 0 <= j < with_a.len() && i != j implies !eqm(
                #[trigger] with_a[i] - #[trigger] with_a[j],
                0,
                n,
            ) by {
                assert(with_a[i] == nodes[i] && with_a[j] == nodes[j]);
            }
        }
        assert(distinct_nodes(with_b, n)) by {
            assert forall|i: int, j: int|
                0 <= i < with_b.len() && 0 <= j < with_b.len() && i != j implies !eqm(
                #[trigger] with_b[i] - #[trigger] with_b[j],
                0,
                n,
            ) by {
                let i2 = if i == core.len() { i + 1 } else { i };
                let j2 = if j == core.len() { j + 1 } else { j };
                assert(with_b[i] == nodes[i2] && with_b[j] == nodes[j2]);
            }
        }
        lemma_unity(with_a, n);
        lemma_unity(with_b, n);
        assert forall|i: int| 0 <= i < core.len() implies !eqm(a - #[trigger] core[i], 0, n)
            && !eqm(b - core[i], 0, n) by {
            assert(core[i] == nodes[i]);
            assert(a == nodes[nodes.len() - 2]);
            assert(b == nodes[nodes.len() - 1]);
        }
        lemma_unity_core(core, core, a, b, n);
        // the two remaining points
        lemma_unity_push(nodes, with_a, b, n);
        lemma_unity_push(nodes, core, a, n);
        lemma_unity_push(with_a, core, a, n);
        lemma_unity_push(with_b, core, b, n);
        lemma_lagrange_push(with_a, b, a, n);
        lemma_lagrange_push(with_a, b, b, n);
        lemma_lagrange_push(core, a, a, n);
        lemma_lagrange_push(core, a, b, n);
        lemma_lagrange_push(core, b, b, n);
        let la = lagrange(core, a, n);
        let lb = lagrange(core, b, n);
        let u = inv(b - a, n);
        let v = inv(a - b, n);
        lemma_field_inverse(b - a, n);
        lemma_field_inverse(a - b, n);
        assert(a != b);
        assert(lagrange(nodes, a, n) == la * 1 * (b * u));
        assert(lagrange(nodes, b, n) == lb * (a * v) * 1);
        assert(lagrange(with_a, a, n) == la * 1);
        assert(lagrange(with_b, b, n) == lb * 1);
        // (b - a) times the whole sum
        lemma_eqm_mul(la * b, la * b, (b - a) * u, 1, n);
        lemma_eqm_mul(-(lb * a), -(lb * a), (a - b) * v, 1, n);
        let t = unity(nodes, core, n);
        let ta = unity(with_a, core, n);
        let tb = unity(with_b, core, n);
        lemma_eqm_add(
            (b - a) * t,
            b * ta - a * tb,
            la * b * ((b - a) * u),
            la * b,
            n,
        );
        lemma_eqm_add(
            (b - a) * t + la * b * ((b - a) * u),
            b * ta - a * tb + la * b,
            -(lb * a) * ((a - b) * v),
            -(lb * a),
            n,
        );
        let whole = unity(nodes, nodes, n);
        let ra = la * 1 * (b * u);
        let rb = lb * (a * v) * 1;
        assert((b - a) * (t + ra + rb) == (b - a) * t + (b - a) * ra + (b - a) * rb)
            by (nonlinear_arith);
        assert((b - a) * (la * 1 * (b * u)) == la * b * ((b - a) * u)) by (nonlinear_arith);
        assert((b - a) * (lb * (a * v) * 1) == -(lb * a) * ((a - b) * v)) by (nonlinear_arith);
        let wa = unity(with_a, with_a, n);
        let wb = unity(with_b, with_b, n);
        assert(b * ta - a * tb + la * b + -(lb * a) == b * wa - a * wb) by (nonlinear_arith)
            requires
                wa == ta + la * 1,
                wb == tb + lb * 1,
        ;
        lemma_eqm_mul(b, b, wa, 1, n);
        lemma_eqm_mul(a, a, wb, 1, n);
        lemma_eqm_sub(b * wa, b * 1, a * wb, a * 1, n);
        assert(b * 1 - a * 1 == (b - a) * 1);
        lemma_cancel(b - a, whole, 1, n);
    }
}

/// Splitting `f(x)` as `f(p) + (x - p) g(x)` under the weighted sum over the
/// nodes other than `p`.
proof fn lemma_weighted_split(core: Seq<int>, points: Seq<int>, p: int, c: Seq<int>, n: int)
    requires
        is_field(n),
        forall|i: int| 0 <= i < points.len() ==> !eqm(p - #[trigger] points[i], 0, n),
    ensures
        eqm(
            weighted(core.push(p), points, c, n),
            poly(c, p) * unity(core.push(p), points, n) - p * weighted(
                core,
                points,
                quotient(c, p),
                n,
            ),
            n,
        ),
    decreases points.len(),
{
    let nodes = core.push(p);
    let g = quotient(c, p);
    if points.len() == 0 {
        assert(poly(c, p) * 0 - p * 0 == 0) by (nonlinear_arith);
    } else {
        let rest = points.drop_last();
        let x = points.last();
        assert forall|i: int| 0 <= i < rest.len() implies !eqm(p - #[trigger] rest[i], 0, n) by {
            assert(rest[i] == points[i]);
        }
        lemma_weighted_split(core, rest, p, c, n);
        assert(x == points[points.len() - 1]);
        lemma_quotient(c, p, x);
        lemma_lagrange_push(core, p, x, n);
        lemma_field_inverse(p - x, n);
        let l = lagrange(core, x, n);
        let u = inv(p - x, n);
        let fp = poly(c, p);
        let gx = poly(g, x);
        let lam = lagrange(nodes, x, n);
        assert(p != x);
        assert(lam == l * (p * u));
        // lam (x - p) is congruent to -(p l)
        let m = -(l * p * gx);
        lemma_eqm_mul(m, m, (p - x) * u, 1, n);
        lemma_eqm_add(lam * fp, lam * fp, m * ((p - x) * u), m, n);
        assert(lam * (fp + (x - p) * gx) == lam * fp + m * ((p - x) * u)) by (nonlinear_arith)
            requires
                lam == l * (p * u),
                m == -(l * p * gx),
        ;
        let w = weighted(nodes, rest, c, n);
        let t = unity(nodes, rest, n);
        let wg = weighted(core, rest, g, n);
        lemma_eqm_add(w, fp * t - p * wg, lam * poly(c, x), lam * fp + m, n);
        assert(fp * t - p * wg + (lam * fp + m) == fp * (t + lam) - p * (wg + l * gx))
            by (nonlinear_arith)
            requires
                m == -(l * p * gx),
        ;
    }
}

/// Interpolation at zero: over distinct nodes, at least as many as `f` has
/// coefficients, the weighted sum of the values of `f` is `f(0)`.
pub proof fn lemma_interpolation(nodes: Seq<int>, c: Seq<int>, n: int)
    requires
        is_field(n),
        distinct_nodes(nodes, n),
        c.len() <= nodes.len(),
    ensures
        eqm(weighted(nodes, nodes, c, n), poly(c, 0), n),
    decreases nodes.len(),
{
    if nodes.len() > 0 {
        let p = nodes.last();
        let core = nodes.drop_last();
        let g = quotient(c, p);
        assert(nodes =~= core.push(p));
        assert forall|i: int| 0 <= i < core.len() implies !eqm(p - #[trigger] core[i], 0, n) by {
            assert(core[i] == nodes[i]);
            assert(p == nodes[nodes.len() - 1]);
        }
        assert(distinct_nodes(core, n)) by {
            assert forall|i: int, j: int|
                0 <= i < core.len() && 0 <= j < core.len() && i != j implies !eqm(
                #[trigger] core[i] - #[trigger] core[j],
                0,
                n,
            ) by {
                assert(core[i] == nodes[i] && core[j] == nodes[j]);
            }
        }
        lemma_quotient(c, p, 0);
        lemma_weighted_split(core, core, p, c, n);
        lemma_interpolation(core, g, n);
        lemma_unity(nodes, n);
        lemma_unity_push(nodes, core, p, n);
        let fp = poly(c, p);
        let t = unity(nodes, core, n);
        let lam = lagrange(nodes, p, n);
        let wg = weighted(core, core, g, n);
        let w = weighted(nodes, core, c, n);
        lemma_eqm_add(w, fp * t - p * wg, lam * fp, lam * fp, n);
        assert(fp * t - p * wg + lam * fp == fp * (t + lam) - p * wg) by (nonlinear_arith);
        lemma_eqm_mul(fp, fp, t + lam, 1, n);
        lemma_eqm_mul(p, p, wg, poly(g, 0), n);
        lemma_eqm_sub(fp * (t + lam), fp * 1, p * wg, p * poly(g, 0), n);
        assert(fp * 1 - p * poly(g, 0) == fp + (0 - p) * poly(g, 0)) by (nonlinear_arith);
    }
}

// ---------------------------------------------------------------------------
// Linear combinations of polynomials
// ---------------------------------------------------------------------------

/// The coefficients of the combination of the polynomials `rows`, each weighted
/// by its entry of `weights`, all of `t` coefficients.
pub open spec fn combine(weights: Seq<int>, rows: Seq<Seq<int>>, t: nat) -> Seq<int>
    decreases rows.len(),
{
    if rows.len() == 0 {
        Seq::new(t, |k: int| 0int)
    } else {
        let rest = combine(weights.drop_last(), rows.drop_last(), t);
        Seq::new(t, |k: int| rest[k] + weights.last() * rows.last()[k])
    }
}

/// The values of several polynomials at one point.
pub open spec fn evaluations(rows: Seq<Seq<int>>, x: int) -> Seq<int> {
    Seq::new(rows.len(), |i: int| poly(rows[i], x))
}

/// Reduction modulo `n`, entry by entry.
pub open spec fn reduced(c: Seq<int>, n: int) -> Seq<int> {
    Seq::new(c.len(), |k: int| c[k] % n)
}

proof fn lemma_poly_scaled(a: Seq<int>, s: int, b: Seq<int>, x: int)
    requires
        a.len() == b.len(),
    ensures
        poly(Seq::new(a.len(), |k: int| a[k] + s * b[k]), x) == poly(a, x) + s * poly(b, x),
    decreases a.len(),
{
    let c = Seq::new(a.len(), |k: int| a[k] + s * b[k]);
    if a.len() == 0 {
        assert(s * 0 == 0) by (nonlinear_arith);
    } else {
        let a1 = a.drop_first();
        let b1 = b.drop_first();
        lemma_poly_scaled(a1, s, b1, x);
        assert(c.drop_first() =~= Seq::new(a1.len(), |k: int| a1[k] + s * b1[k]));
        let pa = poly(a1, x);
        let pb = poly(b1, x);
        assert(a[0] + s * b[0] + x * (pa + s * pb) == a[0] + x * pa + s * (b[0] + x * pb))
            by (nonlinear_arith);
    }
}

proof fn lemma_poly_zeros(t: nat, x: int)
    ensures
        poly(Seq::new(t, |k: int| 0int), x) == 0,
    decreases t,
{
    if t > 0 {
        let c = Seq::new(t, |k: int| 0int);
        assert(c.drop_first() =~= Seq::new((t - 1) as nat, |k: int| 0int));
        lemma_poly_zeros((t - 1) as nat, x);
        assert(x * 0 == 0) by (nonlinear_arith);
    }
}

/// A combination of polynomials has the combination of their values.
pub proof fn lemma_combine(weights: Seq<int>, rows: Seq<Seq<int>>, t: nat, x: int)
    requires
        weights.len() == rows.len(),
        forall|i: int| 0 <= i < rows.len() ==> (#[trigger] rows[i]).len() == t,
    ensures
        combine(weights, rows, t).len() == t,
        poly(combine(weights, rows, t), x) == dot(weights, evaluations(rows, x)),
    decreases rows.len(),
{
    if rows.len() == 0 {
        lemma_poly_zeros(t, x);
    } else {
        let w1 = weights.drop_last();
        let r1 = rows.drop_last();
        assert forall|i: int| 0 <= i < r1.len() implies (#[trigger] r1[i]).len() == t by {
            assert(r1[i] == rows[i]);
        }
        lemma_combine(w1, r1, t, x);
        let rest = combine(w1, r1, t);
        assert(rows.last() == rows[rows.len() - 1]);
        lemma_poly_scaled(rest, weights.last(), rows.last(), x);
        assert(combine(weights, rows, t) =~= Seq::new(
            rest.len(),
            |k: int| rest[k] + weights.last() * rows.last()[k],
        ));
        assert(evaluations(rows, x).drop_last() =~= evaluations(r1, x));
        assert(evaluations(rows, x).last() == poly(rows.last(), x));
    }
}

/// One more polynomial in a combination.
pub proof fn lemma_combine_push(weights: Seq<int>, rows: Seq<Seq<int>>, w: int, row: Seq<int>, t: nat)
    requires
        weights.len() == rows.len(),
    ensures
        combine(weights, rows, t).len() == t,
        combine(weights.push(w), rows.push(row), t) == Seq::new(
            t,
            |k: int| combine(weights, rows, t)[k] + w * row[k],
        ),
{
    assert(weights.push(w).drop_last() =~= weights);
    assert(rows.push(row).drop_last() =~= rows);
}

/// The inner product of one more pair.
pub proof fn lemma_dot_push(a: Seq<int>, b: Seq<int>, x: int, y: int)
    requires
        a.len() == b.len(),
    ensures
        dot(a.push(x), b.push(y)) == dot(a, b) + x * y,
{
    assert(a.push(x).drop_last() =~= a);
    assert(b.push(y).drop_last() =~= b);
}

/// An inner product depends on its factors only up to congruence.
pub proof fn lemma_dot_eqm(a: Seq<int>, b: Seq<int>, c: Seq<int>, d: Seq<int>, n: int)
    requires
        n > 0,
        a.len() == b.len() == c.len() == d.len(),
        forall|i: int| 0 <= i < a.len() ==> eqm(#[trigger] a[i], c[i], n),
        forall|i: int| 0 <= i < b.len() ==> eqm(#[trigger] b[i], d[i], n),
    ensures
        eqm(dot(a, b), dot(c, d), n),
    decreases a.len(),
{
    if a.len() > 0 {
        let m = a.len() - 1;
        let (a1, b1, c1, d1) = (a.drop_last(), b.drop_last(), c.drop_last(), d.drop_last());
        assert forall|i: int| 0 <= i < a1.len() implies eqm(#[trigger] a1[i], c1[i], n) by {
            assert(eqm(a[i], c[i], n));
        }
        assert forall|i: int| 0 <= i < b1.len() implies eqm(#[trigger] b1[i], d1[i], n) by {
            assert(eqm(b[i], d[i], n));
        }
        lemma_dot_eqm(a1, b1, c1, d1, n);
        assert(eqm(a[m], c[m], n));
        assert(eqm(b[m], d[m], n));
        lemma_eqm_mul(a[m], c[m], b[m], d[m], n);
        lemma_eqm_add(dot(a1, b1), dot(c1, d1), a[m] * b[m], c[m] * d[m], n);
    }
}

/// The weighted sum over all the nodes is an inner product.
pub proof fn lemma_weighted_dot(ns: Seq<int>, points: Seq<int>, c: Seq<int>, n: int)
    ensures
        weighted(ns, points, c, n) == dot(
            Seq::new(points.len(), |i: int| lagrange(ns, points[i], n)),
            Seq::new(points.len(), |i: int| poly(c, points[i])),
        ),
    decreases points.len(),
{
    let a = Seq::new(points.len(), |i: int| lagrange(ns, points[i], n));
    let b = Seq::new(points.len(), |i: int| poly(c, points[i]));
    if points.len() > 0 {
        let rest = points.drop_last();
        lemma_weighted_dot(ns, rest, c, n);
        assert(a.drop_last() =~= Seq::new(rest.len(), |i: int| lagrange(ns, rest[i], n)));
        assert(b.drop_last() =~= Seq::new(rest.len(), |i: int| poly(c, rest[i])));
    }
}

/// Changing one weight of an inner product moves it by that multiple.
pub proof fn lemma_dot_update(a: Seq<int>, b: Seq<int>, k: int, x: int)
    requires
        a.len() == b.len(),
        0 <= k < a.len(),
    ensures
        dot(a.update(k, x), b) == dot(a, b) + (x - a[k]) * b[k],
    decreases a.len(),
{
    let u = a.update(k, x);
    if k == a.len() - 1 {
        assert(u.drop_last() =~= a.drop_last());
        assert(x * b[k] == a[k] * b[k] + (x - a[k]) * b[k]) by (nonlinear_arith);
    } else {
        assert(u.drop_last() =~= a.drop_last().update(k, x));
        lemma_dot_update(a.drop_last(), b.drop_last(), k, x);
    }
}

/// An inner product with ones is a sum.
pub proof fn lemma_dot_ones(b: Seq<int>)
    ensures
        dot(Seq::new(b.len(), |i: int| 1int), b) == sum(b),
    decreases b.len(),
{
    let a = Seq::new(b.len(), |i: int| 1int);
    if b.len() > 0 {
        let rest = b.drop_last();
        lemma_dot_ones(rest);
        assert(a.drop_last() =~= Seq::new(rest.len(), |i: int| 1int));
        assert(a.last() == 1);
        assert(1 * b.last() == b.last());
    }
}

} // verus!
