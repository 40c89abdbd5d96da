//! Pallas, over `pasta_curves`: under the curve generator, and under the Orchard
//! spend-authorization basepoint.
use pasta_curves::group::ff::{Field, FromUniformBytes, PrimeField};
use pasta_curves::group::{Group, GroupEncoding};
use pasta_curves::pallas::{Point, Scalar};
use rand_core::OsRng;
use vstd::arithmetic::div_mod::lemma_small_mod;
use vstd::prelude::*;

use crate::bytes::{copy_vec, get_array32, le_bytes, le_value};
use crate::math::{
    dot, eqm, inv, is_field, is_inverse, is_quotient, lemma_cancel, lemma_dot_push, lemma_eqm_mod,
    lemma_eqm_mul, lemma_eqm_small, lemma_field_inverse, lemma_mod_add, lemma_mod_mul,
};

use super::{random64, vals, OsstCurve, OsstPoint, OsstScalar};

verus! {

/// `pasta_curves::Fq`: a residue modulo the group order.
#[verifier::external_type_specification]
#[verifier::external_body]
pub struct ExPallasScalar(pasta_curves::Fq);

/// `pasta_curves::Ep`: an element of the group.
#[verifier::external_type_specification]
#[verifier::external_body]
pub struct ExPallasPoint(pasta_curves::Ep);

/// The order of the group.
pub open spec fn pallas_order() -> int {
    0x40000000000000000000000000000000224698fc0994a8dd8c46eb2100000001int
}

/// What `Scalar::to_repr` returns.
pub uninterp spec fn pallas_scalar_bytes(s: Scalar) -> Seq<u8>;

/// What `Point::to_bytes` returns.
pub uninterp spec fn pallas_point_bytes(p: Point) -> Seq<u8>;

/// What `Point::to_bytes` returns for a multiple of the generator.
pub uninterp spec fn pallas_multiple_bytes(k: int) -> Seq<u8>;

/// The residue a scalar stands for.
pub open spec fn scalar_val(s: Scalar) -> int {
    le_value(pallas_scalar_bytes(s)) % pallas_order()
}

/// `b` is the encoding of the `k`-th multiple of the generator.
pub open spec fn is_multiple(k: int, b: Seq<u8>) -> bool {
    0 <= k < pallas_order() && pallas_multiple_bytes(k) == b && b.len() == 32
}

/// The multiple of the generator that a point is.
pub open spec fn point_log(p: Point) -> int {
    (choose|k: int| is_multiple(k, pallas_point_bytes(p))) % pallas_order()
}


/// Overwrites a scalar with `Scalar::ZERO`, behind `core::hint::black_box`, so that
/// the store is not taken for dead.
#[verifier::external_body]
fn scalar_zeroize(s: &mut Scalar)
    ensures
        scalar_val(*final(s)) == 0,
{
    *s = core::hint::black_box(Scalar::ZERO);
    core::hint::black_box(s);
}

/// `Scalar::ZERO`.
#[verifier::external_body]
fn scalar_zero() -> (r: Scalar)
    ensures
        scalar_val(r) == 0,
{
    Scalar::ZERO
}

/// `Scalar::ONE`. The order is a prime, so every residue but zero divides one.
#[verifier::external_body]
fn scalar_one() -> (r: Scalar)
    ensures
        scalar_val(r) == 1,
        forall|a: int|
            !#[trigger] eqm(a, 0, pallas_order()) ==> exists|b: int|
                #[trigger] is_quotient(a, b, scalar_val(r), pallas_order()),
{
    Scalar::ONE
}

/// `Scalar::from(u64)` is the scalar of that integer, for one below the order.
#[verifier::external_body]
fn scalar_from_u64(v: u64) -> (r: Scalar)
    ensures
        scalar_val(r) == v,
{
    Scalar::from(v)
}

/// `Scalar + Scalar` adds modulo the order.
#[verifier::external_body]
fn scalar_add(a: &Scalar, b: &Scalar) -> (r: Scalar)
    ensures
        scalar_val(r) == (scalar_val(*a) + scalar_val(*b)) % pallas_order(),
{
    *a + *b
}

/// `Scalar - Scalar` subtracts modulo the order.
#[verifier::external_body]
fn scalar_sub(a: &Scalar, b: &Scalar) -> (r: Scalar)
    ensures
        scalar_val(r) == (scalar_val(*a) - scalar_val(*b)) % pallas_order(),
{
    *a - *b
}

/// `Scalar * Scalar` multiplies modulo the order.
#[verifier::external_body]
fn scalar_mul(a: &Scalar, b: &Scalar) -> (r: Scalar)
    ensures
        scalar_val(r) == (scalar_val(*a) * scalar_val(*b)) % pallas_order(),
{
    *a * *b
}

/// `-Scalar` negates modulo the order.
#[verifier::external_body]
fn scalar_neg(a: &Scalar) -> (r: Scalar)
    ensures
        scalar_val(r) == (-scalar_val(*a)) % pallas_order(),
{
    -*a
}

/// `Field::invert` gives the inverse of a nonzero scalar, and none of zero.
#[verifier::external_body]
fn scalar_invert(a: &Scalar) -> (r: Option<Scalar>)
    ensures
        r is Some <==> scalar_val(*a) != 0,
        r matches Some(b) ==> is_inverse(scalar_val(*a), scalar_val(b), pallas_order()),
{
    Field::invert(a).into_option()
}

/// `==` on scalars compares the residues.
#[verifier::external_body]
fn scalar_equals(a: &Scalar, b: &Scalar) -> (r: bool)
    ensures
        r == (scalar_val(*a) == scalar_val(*b)),
{
    a == b
}

/// `FromUniformBytes::from_uniform_bytes` reads a little-endian integer and
/// reduces it.
#[verifier::external_body]
fn scalar_from_wide(bytes: &[u8; 64]) -> (r: Scalar)
    ensures
        scalar_val(r) == le_value(bytes@) % pallas_order(),
{
    <Scalar as FromUniformBytes<64>>::from_uniform_bytes(bytes)
}

/// `Scalar::to_repr` is the little-endian encoding of the residue.
#[verifier::external_body]
fn scalar_to_bytes(s: &Scalar) -> (r: [u8; 32])
    ensures
        r@ == pallas_scalar_bytes(*s),
        r@ == le_bytes(scalar_val(*s), 32),
{
    s.to_repr()
}

/// `Scalar::from_repr` takes the encodings of residues, and those alone.
#[verifier::external_body]
fn scalar_from_canonical(bytes: &[u8; 32]) -> (r: Option<Scalar>)
    ensures
        r is Some <==> le_value(bytes@) < pallas_order(),
        r matches Some(s) ==> scalar_val(s) == le_value(bytes@),
{
    Scalar::from_repr(*bytes).into_option()
}

impl OsstScalar for Scalar {
    open spec fn order() -> int {
        pallas_order()
    }

    open spec fn val(&self) -> int {
        scalar_val(*self)
    }

    open spec fn repr(v: int) -> Seq<u8> {
        le_bytes(v, 32)
    }

    open spec fn unrepr(b: Seq<u8>) -> int {
        le_value(b)
    }

    open spec fn wide(b: Seq<u8>) -> int {
        le_value(b)
    }

    proof fn lemma_order() {
    }

    proof fn lemma_val(&self) {
    }

    proof fn lemma_repr(v: int) {
        super::lemma_le_repr(v);
    }

    proof fn lemma_unrepr(b: Seq<u8>) {
        crate::bytes::lemma_le_value(b);
    }

    fn zeroize(&mut self) {
        scalar_zeroize(self)
    }

    fn zero() -> (r: Self) {
        scalar_zero()
    }

    fn one() -> (r: Self) {
        let r = scalar_one();
        assert(is_field(pallas_order())) by {
            assert forall|a: int| !eqm(a, 0, pallas_order()) implies exists|b: int|
                #[trigger] is_inverse(a, b, pallas_order()) by {
                let b = choose|b: int| is_quotient(a, b, scalar_val(r), pallas_order());
                assert(is_inverse(a, b, pallas_order()));
            }
        }
        r
    }

    fn from_u32(v: u32) -> (r: Self) {
        scalar_from_u64(v as u64)
    }

    fn add(&self, other: &Self) -> (r: Self) {
        scalar_add(self, other)
    }

    fn sub(&self, other: &Self) -> (r: Self) {
        scalar_sub(self, other)
    }

    fn mul(&self, other: &Self) -> (r: Self) {
        scalar_mul(self, other)
    }

    fn neg(&self) -> (r: Self) {
        scalar_neg(self)
    }

    fn invert(&self) -> (r: Self) {
        let r = match scalar_invert(self) {
            Some(b) => b,
            None => scalar_zero(),
        };
        proof {
            super::lemma_invert(scalar_val(*self), scalar_val(r), pallas_order());
        }
        r
    }

    fn equals(&self, other: &Self) -> (r: bool) {
        scalar_equals(self, other)
    }

    fn random(rng: &mut OsRng) -> (r: Self) {
        let bytes = random64(rng);
        scalar_from_wide(&bytes)
    }

    fn from_bytes_wide(bytes: &[u8; 64]) -> (r: Self) {
        scalar_from_wide(bytes)
    }

    fn to_bytes(&self) -> (r: [u8; 32]) {
        scalar_to_bytes(self)
    }

    fn from_canonical_bytes(bytes: &[u8; 32]) -> (r: Option<Self>) {
        scalar_from_canonical(bytes)
    }
}

/// `Group::identity`.
#[verifier::external_body]
fn point_identity() -> (r: Point)
    ensures
        point_log(r) == 0,
{
    <Point as Group>::identity()
}

/// `Group::generator`.
#[verifier::external_body]
fn point_generator() -> (r: Point)
    ensures
        point_log(r) == 1,
{
    <Point as Group>::generator()
}

/// `Point * Scalar` is scalar multiplication.
#[verifier::external_body]
fn point_mul(p: &Point, s: &Scalar) -> (r: Point)
    ensures
        point_log(r) == (point_log(*p) * scalar_val(*s)) % pallas_order(),
{
    *p * *s
}

/// `Point + Point` is the group operation.
#[verifier::external_body]
fn point_add(p: &Point, q: &Point) -> (r: Point)
    ensures
        point_log(r) == (point_log(*p) + point_log(*q)) % pallas_order(),
{
    *p + *q
}

/// `==` on points compares the group elements.
#[verifier::external_body]
fn point_equals(p: &Point, q: &Point) -> (r: bool)
    ensures
        r == (point_log(*p) == point_log(*q)),
{
    p == q
}

/// `Point::to_bytes` encodes the group element in thirty-two bytes, one encoding to
/// an element.
#[verifier::external_body]
fn point_compress(p: &Point) -> (r: [u8; 32])
    ensures
        r@ == pallas_point_bytes(*p),
        r@ == pallas_multiple_bytes(point_log(*p)),
        forall|k: int| #[trigger] is_multiple(k, r@) ==> k == point_log(*p),
{
    p.to_bytes()
}

/// `Point::from_bytes` takes the encodings of group elements, and
/// those alone.
#[verifier::external_body]
fn point_decompress(bytes: &[u8; 32]) -> (r: Option<Point>)
    ensures
        r is None ==> forall|k: int| !#[trigger] is_multiple(k, bytes@),
        r matches Some(p) ==> is_multiple(point_log(p), bytes@) && forall|k: int|
            #[trigger] is_multiple(k, bytes@) ==> k == point_log(p),
{
    Point::from_bytes(bytes).into_option()
}


impl OsstPoint for Point {
    type Scalar = Scalar;

    const COMPRESSED_SIZE: usize = 32;

    type Compressed = [u8; 32];

    open spec fn log(&self) -> int {
        point_log(*self)
    }

    open spec fn encoding(k: int) -> Seq<u8> {
        pallas_multiple_bytes(k)
    }

    open spec fn decode(b: Seq<u8>) -> Option<int> {
        if exists|k: int| is_multiple(k, b) {
            Some(choose|k: int| is_multiple(k, b))
        } else {
            None
        }
    }

    open spec fn compressed_bytes(c: [u8; 32]) -> Seq<u8> {
        c@
    }

    proof fn lemma_log(&self) {
    }

    proof fn lemma_decode(b: Seq<u8>) {
        if Self::decode(b) is None && b.len() == 32 {
            assert forall|k: int| 0 <= k < pallas_order() implies #[trigger] Self::encoding(k)
                != b by {
                assert(!is_multiple(k, b));
            }
        }
    }

    proof fn lemma_size() {
    }

    fn identity() -> (r: Self) {
        point_identity()
    }

    fn generator() -> (r: Self) {
        point_generator()
    }

    fn mul_scalar(&self, scalar: &Scalar) -> (r: Self) {
        point_mul(self, scalar)
    }

    fn add(&self, other: &Self) -> (r: Self) {
        point_add(self, other)
    }

    fn multiscalar_mul(scalars: &[Scalar], points: &[Self]) -> (r: Self) {
        let ghost n = pallas_order();
        let ghost vs = vals(scalars@);
        let ghost ls = Seq::new(points@.len(), |i: int| points@[i].log());
        let mut acc = point_identity();
        let mut i: usize = 0;
        assert(vs.subrange(0, 0).len() == 0);
        while i < points.len()
            invariant
                i <= points@.len(),
                scalars@.len() == points@.len(),
                n == pallas_order(),
                vs == vals(scalars@),
                ls == Seq::new(points@.len(), |i: int| points@[i].log()),
                point_log(acc) == dot(vs.subrange(0, i as int), ls.subrange(0, i as int)) % n,
            decreases points@.len() - i,
        {
            acc = point_add(&acc, &point_mul(&points[i], &scalars[i]));
            proof {
                let (a, b) = (vs.subrange(0, i as int), ls.subrange(0, i as int));
                assert(vs.subrange(0, i as int + 1) =~= a.push(vs[i as int]));
                assert(ls.subrange(0, i as int + 1) =~= b.push(ls[i as int]));
                lemma_dot_push(a, b, vs[i as int], ls[i as int]);
                let (v, l) = (vs[i as int], ls[i as int]);
                assert(l * v == v * l) by (nonlinear_arith);
                lemma_mod_add(dot(a, b), v * l, n);
            }
            i += 1;
        }
        assert(vs.subrange(0, i as int) =~= vs);
        assert(ls.subrange(0, i as int) =~= ls);
        acc
    }

    fn equals(&self, other: &Self) -> (r: bool) {
        point_equals(self, other)
    }

    fn compress(&self) -> (r: [u8; 32]) {
        let r = point_compress(self);
        assert(is_multiple(point_log(*self), r@));
        r
    }

    fn decompress(bytes: &[u8]) -> (r: Option<Self>) {
        if bytes.len() != 32 {
            None
        } else {
            let arr = get_array32(bytes, 0);
            assert(arr@ =~= bytes@);
            point_decompress(&arr)
        }
    }

    fn compress_vec(&self) -> (r: Vec<u8>) {
        let c = OsstPoint::compress(self);
        copy_vec(&c)
    }
}

/// Pallas curve backend under the curve generator.
///
/// Orchard spend authorization uses another basepoint: see
/// [`OrchardSpendAuthCurve`] for what must agree with its key material.
#[derive(Clone, Copy, Debug, Default)]
pub struct PallasCurve;

impl OsstCurve for PallasCurve {
    type Scalar = Scalar;

    type Point = Point;
}

/// Byte encoding of the Orchard `SpendAuthSig` basepoint.
pub const ORCHARD_SPENDAUTHSIG_BASEPOINT_BYTES: [u8; 32] = [
    99u8, 201u8, 117u8, 184u8, 132u8, 114u8, 26u8, 141u8, 12u8, 161u8, 112u8, 123u8, 227u8, 12u8,
    127u8, 12u8, 95u8, 68u8, 95u8, 62u8, 124u8, 24u8, 141u8, 59u8, 6u8, 214u8, 241u8, 40u8, 179u8,
    35u8, 85u8, 183u8,
];

/// The multiple of the curve generator that the spend-auth basepoint is.
pub open spec fn spend_base_log() -> int {
    choose|k: int| is_multiple(k, ORCHARD_SPENDAUTHSIG_BASEPOINT_BYTES@)
}

/// The multiple of the spend-auth basepoint that a multiple of the curve
/// generator is.
pub open spec fn spend_log(j: int) -> int {
    (j * inv(spend_base_log(), pallas_order())) % pallas_order()
}

/// `b` is the encoding of the `k`-th multiple of the spend-auth basepoint.
pub open spec fn is_spend_multiple(k: int, b: Seq<u8>) -> bool {
    0 <= k < pallas_order() && pallas_multiple_bytes((k * spend_base_log()) % pallas_order()) == b
        && b.len() == 32
}

/// The basepoint generates the group: both ways between the logarithms.
proof fn lemma_spend_log(j: int)
    requires
        is_field(pallas_order()),
        0 < spend_base_log() < pallas_order(),
        0 <= j < pallas_order(),
    ensures
        0 <= spend_log(j) < pallas_order(),
        (spend_log(j) * spend_base_log()) % pallas_order() == j,
        forall|k: int|
            0 <= k < pallas_order() && #[trigger] (k * spend_base_log()) % pallas_order() == j
                ==> k == spend_log(j),
{
    let n = pallas_order();
    let b = spend_base_log();
    let i = inv(b, n);
    lemma_small_mod(b as nat, n as nat);
    lemma_small_mod(0, n as nat);
    lemma_field_inverse(b, n);
    lemma_eqm_mod(j * i, n);
    // (j i) b = j (b i) = j
    lemma_eqm_mul((j * i) % n, j * i, b, b, n);
    assert(j * i * b == j * (b * i)) by (nonlinear_arith);
    lemma_eqm_mul(j, j, b * i, 1, n);
    assert(j * 1 == j);
    lemma_small_mod(j as nat, n as nat);
    assert forall|k: int| 0 <= k < n && #[trigger] (k * b) % n == j implies k == spend_log(j) by {
        let l = spend_log(j);
        assert(k * b == b * k) by (nonlinear_arith);
        assert(l * b == b * l) by (nonlinear_arith);
        assert(is_inverse(b, i, n));
        lemma_cancel(b, k, l, n);
        lemma_eqm_small(k, l, n);
    }
}

/// `Point::from_bytes` of the basepoint's encoding, which is that of a point
/// other than the identity.
#[verifier::external_body]
fn spend_base() -> (r: Point)
    ensures
        point_log(r) == spend_base_log(),
        0 < point_log(r) < pallas_order(),
{
    Point::from_bytes(&ORCHARD_SPENDAUTHSIG_BASEPOINT_BYTES).expect("a valid Pallas point")
}

/// A Pallas point whose group generator is the Orchard spend-auth basepoint.
///
/// The byte encoding is the plain Pallas point encoding, so values convert to
/// and from the [`PallasCurve`] backend losslessly.
#[derive(Clone, Copy, Debug, PartialEq, Eq)]
pub struct SpendAuthPoint(pub Point);

impl SpendAuthPoint {
    /// The spend-auth basepoint.
    pub fn basepoint() -> (r: Self)
        ensures
            r.log() == 1,
            point_log(r.0) == spend_base_log(),
    {
        let base = spend_base();
        let _ = <Scalar as OsstScalar>::one();
        proof {
            let n = pallas_order();
            let b = spend_base_log();
            lemma_small_mod(b as nat, n as nat);
            lemma_small_mod(0, n as nat);
            lemma_small_mod(1, n as nat);
            lemma_field_inverse(b, n);
        }
        SpendAuthPoint(base)
    }

    /// The point.
    pub fn inner(&self) -> (r: &Point)
        ensures
            *r == self.0,
    {
        &self.0
    }
}

impl OsstPoint for SpendAuthPoint {
    type Scalar = Scalar;

    const COMPRESSED_SIZE: usize = 32;

    type Compressed = [u8; 32];

    open spec fn log(&self) -> int {
        spend_log(point_log(self.0))
    }

    open spec fn encoding(k: int) -> Seq<u8> {
        pallas_multiple_bytes((k * spend_base_log()) % pallas_order())
    }

    open spec fn decode(b: Seq<u8>) -> Option<int> {
        if exists|k: int| is_spend_multiple(k, b) {
            Some(choose|k: int| is_spend_multiple(k, b))
        } else {
            None
        }
    }

    open spec fn compressed_bytes(c: [u8; 32]) -> Seq<u8> {
        c@
    }

    proof fn lemma_log(&self) {
    }

    proof fn lemma_decode(b: Seq<u8>) {
        if Self::decode(b) is None && b.len() == 32 {
            assert forall|k: int| 0 <= k < pallas_order() implies #[trigger] Self::encoding(k)
                != b by {
                assert(!is_spend_multiple(k, b));
            }
        }
    }

    proof fn lemma_size() {
    }

    fn identity() -> (r: Self) {
        let r = SpendAuthPoint(point_identity());
        assert(0 * inv(spend_base_log(), pallas_order()) == 0);
        r
    }

    fn generator() -> (r: Self) {
        Self::basepoint()
    }

    fn mul_scalar(&self, scalar: &Scalar) -> (r: Self) {
        let r = SpendAuthPoint(point_mul(&self.0, scalar));
        proof {
            let n = pallas_order();
            let i = inv(spend_base_log(), n);
            let (j, s) = (point_log(self.0), scalar_val(*scalar));
            lemma_mod_mul(j * s, i, n);
            lemma_mod_mul(j * i, s, n);
            assert(j * s * i == j * i * s) by (nonlinear_arith);
        }
        r
    }

    fn add(&self, other: &Self) -> (r: Self) {
        let r = SpendAuthPoint(point_add(&self.0, &other.0));
        proof {
            let n = pallas_order();
            let i = inv(spend_base_log(), n);
            let (j, k) = (point_log(self.0), point_log(other.0));
            lemma_mod_mul(j + k, i, n);
            lemma_mod_add(j * i, k * i, n);
            assert((j + k) * i == j * i + k * i) by (nonlinear_arith);
        }
        r
    }

    fn multiscalar_mul(scalars: &[Scalar], points: &[Self]) -> (r: Self) {
        let ghost n = pallas_order();
        let ghost vs = vals(scalars@);
        let ghost ls = Seq::new(points@.len(), |i: int| points@[i].log());
        let mut acc = Self::identity();
        let mut i: usize = 0;
        assert(vs.subrange(0, 0).len() == 0);
        while i < points.len()
            invariant
                i <= points@.len(),
                scalars@.len() == points@.len(),
                n == pallas_order(),
                vs == vals(scalars@),
                ls == Seq::new(points@.len(), |i: int| points@[i].log()),
                acc.log() == dot(vs.subrange(0, i as int), ls.subrange(0, i as int)) % n,
            decreases points@.len() - i,
        {
            let term = points[i].mul_scalar(&scalars[i]);
            acc = OsstPoint::add(&acc, &term);
            proof {
                let (a, b) = (vs.subrange(0, i as int), ls.subrange(0, i as int));
                assert(vs.subrange(0, i as int + 1) =~= a.push(vs[i as int]));
                assert(ls.subrange(0, i as int + 1) =~= b.push(ls[i as int]));
                lemma_dot_push(a, b, vs[i as int], ls[i as int]);
                let (v, l) = (vs[i as int], ls[i as int]);
                assert(l * v == v * l) by (nonlinear_arith);
                lemma_mod_add(dot(a, b), v * l, n);
            }
            i += 1;
        }
        assert(vs.subrange(0, i as int) =~= vs);
        assert(ls.subrange(0, i as int) =~= ls);
        acc
    }

    fn equals(&self, other: &Self) -> (r: bool) {
        // the basepoint generates the group, so that equal multiples of it are
        // equal points
        let _ = spend_base();
        let _ = <Scalar as OsstScalar>::one();
        proof {
            lemma_spend_log(point_log(self.0));
            lemma_spend_log(point_log(other.0));
        }
        point_equals(&self.0, &other.0)
    }

    fn compress(&self) -> (r: [u8; 32]) {
        let _ = spend_base();
        let _ = <Scalar as OsstScalar>::one();
        let r = point_compress(&self.0);
        proof {
            let n = pallas_order();
            let j = point_log(self.0);
            lemma_spend_log(j);
            assert(is_spend_multiple(self.log(), r@));
            let k = choose|k: int| is_spend_multiple(k, r@);
            lemma_eqm_mod(k * spend_base_log(), n);
            assert(is_multiple((k * spend_base_log()) % n, r@));
        }
        r
    }

    fn decompress(bytes: &[u8]) -> (r: Option<Self>) {
        if bytes.len() != 32 {
            return None;
        }
        let arr = get_array32(bytes, 0);
        assert(arr@ =~= bytes@);
        let _ = spend_base();
        let _ = <Scalar as OsstScalar>::one();
        match point_decompress(&arr) {
            None => {
                proof {
                    assert forall|k: int| !is_spend_multiple(k, bytes@) by {
                        lemma_eqm_mod(k * spend_base_log(), pallas_order());
                        assert(!is_multiple((k * spend_base_log()) % pallas_order(), bytes@));
                    }
                }
                None
            },
            Some(p) => {
                let r = SpendAuthPoint(p);
                proof {
                    let n = pallas_order();
                    lemma_spend_log(point_log(p));
                    assert(is_spend_multiple(r.log(), bytes@));
                    let k = choose|k: int| is_spend_multiple(k, bytes@);
                    lemma_eqm_mod(k * spend_base_log(), n);
                    assert(is_multiple((k * spend_base_log()) % n, bytes@));
                }
                Some(r)
            },
        }
    }

    fn compress_vec(&self) -> (r: Vec<u8>) {
        let c = OsstPoint::compress(self);
        copy_vec(&c)
    }
}

/// Pallas backend in the Orchard spend-auth group.
#[derive(Clone, Copy, Debug, Default)]
pub struct OrchardSpendAuthCurve;

impl OsstCurve for OrchardSpendAuthCurve {
    type Scalar = Scalar;

    type Point = SpendAuthPoint;
}

} // verus!
