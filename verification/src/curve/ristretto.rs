//! Ristretto255, over `curve25519-dalek`.
use curve25519_dalek::constants::RISTRETTO_BASEPOINT_POINT;
use curve25519_dalek::ristretto::{CompressedRistretto, RistrettoPoint};
use curve25519_dalek::scalar::Scalar;
use curve25519_dalek::traits::MultiscalarMul;
use rand_core::OsRng;
use vstd::prelude::*;

use crate::bytes::{copy_vec, get_array32, le_bytes, le_value};
use crate::math::{dot, eqm, is_field, is_inverse, is_quotient};

use super::{vals, OsstCurve, OsstPoint, OsstScalar};

verus! {

/// `curve25519_dalek::scalar::Scalar`: a residue modulo the group order.
#[verifier::external_type_specification]
#[verifier::external_body]
pub struct ExScalar(curve25519_dalek::scalar::Scalar);

/// `curve25519_dalek::ristretto::RistrettoPoint`: an element of the group.
#[verifier::external_type_specification]
#[verifier::external_body]
pub struct ExRistrettoPoint(curve25519_dalek::ristretto::RistrettoPoint);

/// The order of the group, `2^252 + 27742317777372353535851937790883648493`.
pub open spec fn ristretto_order() -> int {
    0x1000000000000000000000000000000014def9dea2f79cd65812631a5cf5d3edint
}

/// What `Scalar::to_bytes` returns.
pub uninterp spec fn ristretto_scalar_bytes(s: Scalar) -> Seq<u8>;

/// What `RistrettoPoint::compress` returns.
pub uninterp spec fn ristretto_point_bytes(p: RistrettoPoint) -> Seq<u8>;

/// What `RistrettoPoint::compress` returns for a multiple of the basepoint.
pub uninterp spec fn ristretto_multiple_bytes(k: int) -> Seq<u8>;

/// The residue a scalar stands for.
pub open spec fn scalar_val(s: Scalar) -> int {
    le_value(ristretto_scalar_bytes(s)) % ristretto_order()
}

/// `b` is the encoding of the `k`-th multiple of the basepoint.
pub open spec fn is_multiple(k: int, b: Seq<u8>) -> bool {
    0 <= k < ristretto_order() && ristretto_multiple_bytes(k) == b && b.len() == 32
}

/// The multiple of the basepoint that a point is.
pub open spec fn point_log(p: RistrettoPoint) -> int {
    (choose|k: int| is_multiple(k, ristretto_point_bytes(p))) % ristretto_order()
}

/// `Zeroize::zeroize` on a scalar leaves zero.
#[verifier::external_body]
fn scalar_zeroize(s: &mut Scalar)
    ensures
        scalar_val(*final(s)) == 0,
{
    zeroize::Zeroize::zeroize(s)
}

/// `Scalar::ZERO`.
#[verifier::external_body]
fn scalar_zero() -> (r: Scalar)
    ensures
        scalar_val(r) == 0,
{
    Scalar::ZERO
}

/// `Scalar::ONE`. The order is a prime, so every residue but zero divides one.
#[verifier::external_body]
fn scalar_one() -> (r: Scalar)
    ensures
        scalar_val(r) == 1,
        forall|a: int|
            !#[trigger] eqm(a, 0, ristretto_order()) ==> exists|b: int|
                #[trigger] is_quotient(a, b, scalar_val(r), ristretto_order()),
{
    Scalar::ONE
}

/// `Scalar::from(u32)` is the scalar of that integer.
#[verifier::external_body]
fn scalar_from_u32(v: u32) -> (r: Scalar)
    ensures
        scalar_val(r) == v,
{
    Scalar::from(v)
}

/// `&Scalar + &Scalar` adds modulo the order.
#[verifier::external_body]
fn scalar_add(a: &Scalar, b: &Scalar) -> (r: Scalar)
    ensures
        scalar_val(r) == (scalar_val(*a) + scalar_val(*b)) % ristretto_order(),
{
    a + b
}

/// `&Scalar - &Scalar` subtracts modulo the order.
#[verifier::external_body]
fn scalar_sub(a: &Scalar, b: &Scalar) -> (r: Scalar)
    ensures
        scalar_val(r) == (scalar_val(*a) - scalar_val(*b)) % ristretto_order(),
{
    a - b
}

/// `&Scalar * &Scalar` multiplies modulo the order.
#[verifier::external_body]
fn scalar_mul(a: &Scalar, b: &Scalar) -> (r: Scalar)
    ensures
        scalar_val(r) == (scalar_val(*a) * scalar_val(*b)) % ristretto_order(),
{
    a * b
}

/// `-&Scalar` negates modulo the order.
#[verifier::external_body]
fn scalar_neg(a: &Scalar) -> (r: Scalar)
    ensures
        scalar_val(r) == (-scalar_val(*a)) % ristretto_order(),
{
    -a
}

/// `Scalar::invert` gives the inverse of a nonzero scalar. It raises to a fixed
/// power, so zero stays zero.
#[verifier::external_body]
fn scalar_invert(a: &Scalar) -> (r: Scalar)
    ensures
        scalar_val(*a) != 0 ==> is_inverse(scalar_val(*a), scalar_val(r), ristretto_order()),
        scalar_val(*a) == 0 ==> scalar_val(r) == 0,
{
    a.invert()
}

/// `==` on scalars compares the residues.
#[verifier::external_body]
fn scalar_equals(a: &Scalar, b: &Scalar) -> (r: bool)
    ensures
        r == (scalar_val(*a) == scalar_val(*b)),
{
    a == b
}

/// `Scalar::random`. Nothing is said of the result: it is chance.
#[verifier::external_body]
fn scalar_random(rng: &mut OsRng) -> (r: Scalar) {
    Scalar::random(rng)
}

/// `Scalar::from_bytes_mod_order_wide` reads a little-endian integer and
/// reduces it.
#[verifier::external_body]
fn scalar_from_wide(bytes: &[u8; 64]) -> (r: Scalar)
    ensures
        scalar_val(r) == le_value(bytes@) % ristretto_order(),
{
    Scalar::from_bytes_mod_order_wide(bytes)
}

/// `Scalar::to_bytes` is the little-endian encoding of the residue.
#[verifier::external_body]
fn scalar_to_bytes(s: &Scalar) -> (r: [u8; 32])
    ensures
        r@ == ristretto_scalar_bytes(*s),
        r@ == le_bytes(scalar_val(*s), 32),
{
    s.to_bytes()
}

/// `Scalar::from_canonical_bytes` takes the encodings of residues, and those
/// alone.
#[verifier::external_body]
fn scalar_from_canonical(bytes: &[u8; 32]) -> (r: Option<Scalar>)
    ensures
        r is Some <==> le_value(bytes@) < ristretto_order(),
        r matches Some(s) ==> scalar_val(s) == le_value(bytes@),
{
    Scalar::from_canonical_bytes(*bytes).into_option()
}

impl OsstScalar for Scalar {
    open spec fn order() -> int {
        ristretto_order()
    }

    open spec fn val(&self) -> int {
        scalar_val(*self)
    }

    open spec fn repr(v: int) -> Seq<u8> {
        le_bytes(v, 32)
    }

    open spec fn unrepr(b: Seq<u8>) -> int {
        le_value(b)
    }

    open spec fn wide(b: Seq<u8>) -> int {
        le_value(b)
    }

    proof fn lemma_order() {
    }

    proof fn lemma_val(&self) {
    }

    proof fn lemma_repr(v: int) {
        super::lemma_le_repr(v);
    }

    proof fn lemma_unrepr(b: Seq<u8>) {
        crate::bytes::lemma_le_value(b);
    }

    fn zeroize(&mut self) {
        scalar_zeroize(self)
    }

    fn zero() -> (r: Self) {
        scalar_zero()
    }

    fn one() -> (r: Self) {
        let r = scalar_one();
        assert(is_field(ristretto_order())) by {
            assert forall|a: int| !eqm(a, 0, ristretto_order()) implies exists|b: int|
                #[trigger] is_inverse(a, b, ristretto_order()) by {
                let b = choose|b: int| is_quotient(a, b, scalar_val(r), ristretto_order());
                assert(is_inverse(a, b, ristretto_order()));
            }
        }
        r
    }

    fn from_u32(v: u32) -> (r: Self) {
        scalar_from_u32(v)
    }

    fn add(&self, other: &Self) -> (r: Self) {
        scalar_add(self, other)
    }

    fn sub(&self, other: &Self) -> (r: Self) {
        scalar_sub(self, other)
    }

    fn mul(&self, other: &Self) -> (r: Self) {
        scalar_mul(self, other)
    }

    fn neg(&self) -> (r: Self) {
        scalar_neg(self)
    }

    fn invert(&self) -> (r: Self) {
        let r = scalar_invert(self);
        proof {
            super::lemma_invert(scalar_val(*self), scalar_val(r), ristretto_order());
        }
        r
    }

    fn equals(&self, other: &Self) -> (r: bool) {
        scalar_equals(self, other)
    }

    fn random(rng: &mut OsRng) -> (r: Self) {
        scalar_random(rng)
    }

    fn from_bytes_wide(bytes: &[u8; 64]) -> (r: Self) {
        scalar_from_wide(bytes)
    }

    fn to_bytes(&self) -> (r: [u8; 32]) {
        scalar_to_bytes(self)
    }

    fn from_canonical_bytes(bytes: &[u8; 32]) -> (r: Option<Self>) {
        scalar_from_canonical(bytes)
    }
}

/// `RistrettoPoint::identity`.
#[verifier::external_body]
fn point_identity() -> (r: RistrettoPoint)
    ensures
        point_log(r) == 0,
{
    curve25519_dalek::traits::Identity::identity()
}

/// `RISTRETTO_BASEPOINT_POINT`.
#[verifier::external_body]
fn point_generator() -> (r: RistrettoPoint)
    ensures
        point_log(r) == 1,
{
    RISTRETTO_BASEPOINT_POINT
}

/// `&RistrettoPoint * &Scalar` is scalar multiplication.
#[verifier::external_body]
fn point_mul(p: &RistrettoPoint, s: &Scalar) -> (r: RistrettoPoint)
    ensures
        point_log(r) == (point_log(*p) * scalar_val(*s)) % ristretto_order(),
{
    p * s
}

/// `&RistrettoPoint + &RistrettoPoint` is the group operation.
#[verifier::external_body]
fn point_add(p: &RistrettoPoint, q: &RistrettoPoint) -> (r: RistrettoPoint)
    ensures
        point_log(r) == (point_log(*p) + point_log(*q)) % ristretto_order(),
{
    p + q
}

/// `MultiscalarMul::multiscalar_mul` sums the points, each times its scalar. It
/// panics on slices of different lengths.
#[verifier::external_body]
fn point_multiscalar_mul(scalars: &[Scalar], points: &[RistrettoPoint]) -> (r: RistrettoPoint)
    requires
        scalars@.len() == points@.len(),
    ensures
        point_log(r) == dot(
            vals(scalars@),
            Seq::new(points@.len(), |i: int| point_log(points@[i])),
        ) % ristretto_order(),
{
    <RistrettoPoint as MultiscalarMul>::multiscalar_mul(scalars, points)
}

/// `==` on points compares the group elements.
#[verifier::external_body]
fn point_equals(p: &RistrettoPoint, q: &RistrettoPoint) -> (r: bool)
    ensures
        r == (point_log(*p) == point_log(*q)),
{
    p == q
}

/// `RistrettoPoint::compress` encodes the group element in thirty-two bytes,
/// one encoding to an element.
#[verifier::external_body]
fn point_compress(p: &RistrettoPoint) -> (r: [u8; 32])
    ensures
        r@ == ristretto_point_bytes(*p),
        r@ == ristretto_multiple_bytes(point_log(*p)),
        forall|k: int| #[trigger] is_multiple(k, r@) ==> k == point_log(*p),
{
    p.compress().to_bytes()
}

/// `CompressedRistretto::decompress` takes the encodings of group elements, and
/// those alone.
#[verifier::external_body]
fn point_decompress(bytes: &[u8; 32]) -> (r: Option<RistrettoPoint>)
    ensures
        r is None ==> forall|k: int| !#[trigger] is_multiple(k, bytes@),
        r matches Some(p) ==> is_multiple(point_log(p), bytes@) && forall|k: int|
            #[trigger] is_multiple(k, bytes@) ==> k == point_log(p),
{
    CompressedRistretto(*bytes).decompress()
}

impl OsstPoint for RistrettoPoint {
    type Scalar = Scalar;

    const COMPRESSED_SIZE: usize = 32;

    type Compressed = [u8; 32];

    open spec fn log(&self) -> int {
        point_log(*self)
    }

    open spec fn encoding(k: int) -> Seq<u8> {
        ristretto_multiple_bytes(k)
    }

    open spec fn decode(b: Seq<u8>) -> Option<int> {
        if exists|k: int| is_multiple(k, b) {
            Some(choose|k: int| is_multiple(k, b))
        } else {
            None
        }
    }

    open spec fn compressed_bytes(c: [u8; 32]) -> Seq<u8> {
        c@
    }

    proof fn lemma_log(&self) {
    }

    proof fn lemma_decode(b: Seq<u8>) {
        if Self::decode(b) is None && b.len() == 32 {
            assert forall|k: int| 0 <= k < ristretto_order() implies #[trigger] Self::encoding(k)
                != b by {
                assert(!is_multiple(k, b));
            }
        }
    }

    proof fn lemma_size() {
    }

    fn identity() -> (r: Self) {
        point_identity()
    }

    fn generator() -> (r: Self) {
        point_generator()
    }

    fn mul_scalar(&self, scalar: &Scalar) -> (r: Self) {
        point_mul(self, scalar)
    }

    fn add(&self, other: &Self) -> (r: Self) {
        point_add(self, other)
    }

    fn multiscalar_mul(scalars: &[Scalar], points: &[Self]) -> (r: Self) {
        assert(Seq::new(points@.len(), |i: int| point_log(points@[i])) =~= Seq::new(
            points@.len(),
            |i: int| points@[i].log(),
        ));
        point_multiscalar_mul(scalars, points)
    }

    fn equals(&self, other: &Self) -> (r: bool) {
        point_equals(self, other)
    }

    fn compress(&self) -> (r: [u8; 32]) {
        let r = point_compress(self);
        assert(is_multiple(point_log(*self), r@));
        r
    }

    fn decompress(bytes: &[u8]) -> (r: Option<Self>) {
        if bytes.len() != 32 {
            None
        } else {
            let arr = get_array32(bytes, 0);
            assert(arr@ =~= bytes@);
            point_decompress(&arr)
        }
    }

    fn compress_vec(&self) -> (r: Vec<u8>) {
        let c = OsstPoint::compress(self);
        copy_vec(&c)
    }
}

/// Ristretto255 curve backend.
#[derive(Clone, Copy, Debug, Default)]
pub struct Ristretto255;

impl OsstCurve for Ristretto255 {
    type Scalar = Scalar;

    type Point = RistrettoPoint;
}

} // verus!
