//! secp256k1, over `k256`.
use k256::elliptic_curve::bigint::U512;
use k256::elliptic_curve::ops::Reduce;
use k256::elliptic_curve::sec1::{FromEncodedPoint, ToEncodedPoint};
use k256::elliptic_curve::{Field, PrimeField};
use k256::{AffinePoint, EncodedPoint, ProjectivePoint, Scalar};
use rand_core::OsRng;
use vstd::prelude::*;

use crate::bytes::{be_bytes, be_value, bytes_eq, copy_vec};
use crate::math::{
    dot, eqm, is_field, is_inverse, is_quotient, lemma_dot_push, lemma_mod_add,
};

use super::{vals, OsstCurve, OsstPoint, OsstScalar};

verus! {

/// `k256::Scalar`: a residue modulo the group order.
#[verifier::external_type_specification]
#[verifier::external_body]
pub struct ExSecp256k1Scalar(k256::Scalar);

/// `k256::ProjectivePoint`: an element of the group.
#[verifier::external_type_specification]
#[verifier::external_body]
pub struct ExSecp256k1Point(k256::ProjectivePoint);

/// The order of the group.
pub open spec fn secp256k1_order() -> int {
    0xfffffffffffffffffffffffffffffffebaaedce6af48a03bbfd25e8cd0364141int
}

/// What `Scalar::to_bytes` returns.
pub uninterp spec fn secp256k1_scalar_bytes(s: Scalar) -> Seq<u8>;

/// What `AffinePoint::to_encoded_point` returns.
pub uninterp spec fn secp256k1_point_bytes(p: ProjectivePoint) -> Seq<u8>;

/// What `AffinePoint::to_encoded_point` returns for a multiple of the generator.
pub uninterp spec fn secp256k1_multiple_bytes(k: int) -> Seq<u8>;

/// The residue a scalar stands for.
pub open spec fn scalar_val(s: Scalar) -> int {
    be_value(secp256k1_scalar_bytes(s)) % secp256k1_order()
}

/// A SEC1 compressed point: a parity byte and the x-coordinate.
pub open spec fn is_sec1(b: Seq<u8>) -> bool {
    b.len() == 33 && (b[0] == 2 || b[0] == 3)
}

/// The encoding of a multiple of the generator: SEC1 compressed, and thirty-three
/// zeros for the identity, which SEC1 gives a single byte.
pub open spec fn multiple_encoding(k: int) -> Seq<u8> {
    if k == 0 {
        Seq::new(33, |i: int| 0u8)
    } else if is_sec1(secp256k1_multiple_bytes(k)) {
        secp256k1_multiple_bytes(k)
    } else {
        Seq::empty()
    }
}

/// `b` is the encoding of the `k`-th multiple of the generator.
pub open spec fn is_multiple(k: int, b: Seq<u8>) -> bool {
    0 <= k < secp256k1_order() && multiple_encoding(k) == b && b.len() == 33
}

/// `b` is what SEC1 encoding gives for the `k`-th multiple of the generator.
pub open spec fn is_sec1_multiple(k: int, b: Seq<u8>) -> bool {
    0 <= k < secp256k1_order() && secp256k1_multiple_bytes(k) == b
}

/// The multiple of the generator that a point is.
pub open spec fn point_log(p: ProjectivePoint) -> int {
    (choose|k: int| is_sec1_multiple(k, secp256k1_point_bytes(p))) % secp256k1_order()
}


/// `Zeroize::zeroize` on a scalar leaves zero.
#[verifier::external_body]
fn scalar_zeroize(s: &mut Scalar)
    ensures
        scalar_val(*final(s)) == 0,
{
    zeroize::Zeroize::zeroize(s)
}

/// `Scalar::ZERO`.
#[verifier::external_body]
fn scalar_zero() -> (r: Scalar)
    ensures
        scalar_val(r) == 0,
{
    Scalar::ZERO
}

/// `Scalar::ONE`. The order is a prime, so every residue but zero divides one.
#[verifier::external_body]
fn scalar_one() -> (r: Scalar)
    ensures
        scalar_val(r) == 1,
        forall|a: int|
            !#[trigger] eqm(a, 0, secp256k1_order()) ==> exists|b: int|
                #[trigger] is_quotient(a, b, scalar_val(r), secp256k1_order()),
{
    Scalar::ONE
}

/// `Scalar::from(u64)` is the scalar of that integer, for one below the order.
#[verifier::external_body]
fn scalar_from_u64(v: u64) -> (r: Scalar)
    ensures
        scalar_val(r) == v,
{
    Scalar::from(v)
}

/// `Scalar + Scalar` adds modulo the order.
#[verifier::external_body]
fn scalar_add(a: &Scalar, b: &Scalar) -> (r: Scalar)
    ensures
        scalar_val(r) == (scalar_val(*a) + scalar_val(*b)) % secp256k1_order(),
{
    *a + *b
}

/// `Scalar - Scalar` subtracts modulo the order.
#[verifier::external_body]
fn scalar_sub(a: &Scalar, b: &Scalar) -> (r: Scalar)
    ensures
        scalar_val(r) == (scalar_val(*a) - scalar_val(*b)) % secp256k1_order(),
{
    *a - *b
}

/// `Scalar * Scalar` multiplies modulo the order.
#[verifier::external_body]
fn scalar_mul(a: &Scalar, b: &Scalar) -> (r: Scalar)
    ensures
        scalar_val(r) == (scalar_val(*a) * scalar_val(*b)) % secp256k1_order(),
{
    *a * *b
}

/// `-Scalar` negates modulo the order.
#[verifier::external_body]
fn scalar_neg(a: &Scalar) -> (r: Scalar)
    ensures
        scalar_val(r) == (-scalar_val(*a)) % secp256k1_order(),
{
    -*a
}

/// `Field::invert` gives the inverse of a nonzero scalar, and none of zero.
#[verifier::external_body]
fn scalar_invert(a: &Scalar) -> (r: Option<Scalar>)
    ensures
        r is Some <==> scalar_val(*a) != 0,
        r matches Some(b) ==> is_inverse(scalar_val(*a), scalar_val(b), secp256k1_order()),
{
    <Scalar as Field>::invert(a).into_option()
}

/// `==` on scalars compares the residues.
#[verifier::external_body]
fn scalar_equals(a: &Scalar, b: &Scalar) -> (r: bool)
    ensures
        r == (scalar_val(*a) == scalar_val(*b)),
{
    a == b
}

/// `Field::random`. Nothing is said of the result: it is chance.
#[verifier::external_body]
fn scalar_random(rng: &mut OsRng) -> (r: Scalar) {
    <Scalar as Field>::random(rng)
}

/// `Reduce::reduce` of `U512::from_be_slice` reads a big-endian integer and
/// reduces it.
#[verifier::external_body]
fn scalar_from_wide(bytes: &[u8; 64]) -> (r: Scalar)
    ensures
        scalar_val(r) == be_value(bytes@) % secp256k1_order(),
{
    <Scalar as Reduce<U512>>::reduce(U512::from_be_slice(bytes))
}

/// `Scalar::to_bytes` is the big-endian encoding of the residue.
#[verifier::external_body]
fn scalar_to_bytes(s: &Scalar) -> (r: [u8; 32])
    ensures
        r@ == secp256k1_scalar_bytes(*s),
        r@ == be_bytes(scalar_val(*s), 32),
{
    s.to_bytes().into()
}

/// `Scalar::from_repr` takes the encodings of residues, and those alone.
#[verifier::external_body]
fn scalar_from_canonical(bytes: &[u8; 32]) -> (r: Option<Scalar>)
    ensures
        r is Some <==> be_value(bytes@) < secp256k1_order(),
        r matches Some(s) ==> scalar_val(s) == be_value(bytes@),
{
    Scalar::from_repr((*bytes).into()).into_option()
}

impl OsstScalar for Scalar {
    open spec fn order() -> int {
        secp256k1_order()
    }

    open spec fn val(&self) -> int {
        scalar_val(*self)
    }

    open spec fn repr(v: int) -> Seq<u8> {
        be_bytes(v, 32)
    }

    open spec fn unrepr(b: Seq<u8>) -> int {
        be_value(b)
    }

    open spec fn wide(b: Seq<u8>) -> int {
        be_value(b)
    }

    proof fn lemma_order() {
    }

    proof fn lemma_val(&self) {
    }

    proof fn lemma_repr(v: int) {
        super::lemma_be_repr(v);
    }

    proof fn lemma_unrepr(b: Seq<u8>) {
        crate::bytes::lemma_be_value(b);
    }

    fn zeroize(&mut self) {
        scalar_zeroize(self)
    }

    fn zero() -> (r: Self) {
        scalar_zero()
    }

    fn one() -> (r: Self) {
        let r = scalar_one();
        assert(is_field(secp256k1_order())) by {
            assert forall|a: int| !eqm(a, 0, secp256k1_order()) implies exists|b: int|
                #[trigger] is_inverse(a, b, secp256k1_order()) by {
                let b = choose|b: int| is_quotient(a, b, scalar_val(r), secp256k1_order());
                assert(is_inverse(a, b, secp256k1_order()));
            }
        }
        r
    }

    fn from_u32(v: u32) -> (r: Self) {
        scalar_from_u64(v as u64)
    }

    fn add(&self, other: &Self) -> (r: Self) {
        scalar_add(self, other)
    }

    fn sub(&self, other: &Self) -> (r: Self) {
        scalar_sub(self, other)
    }

    fn mul(&self, other: &Self) -> (r: Self) {
        scalar_mul(self, other)
    }

    fn neg(&self) -> (r: Self) {
        scalar_neg(self)
    }

    fn invert(&self) -> (r: Self) {
        let r = match scalar_invert(self) {
            Some(b) => b,
            None => scalar_zero(),
        };
        proof {
            super::lemma_invert(scalar_val(*self), scalar_val(r), secp256k1_order());
        }
        r
    }

    fn equals(&self, other: &Self) -> (r: bool) {
        scalar_equals(self, other)
    }

    fn random(rng: &mut OsRng) -> (r: Self) {
        scalar_random(rng)
    }

    fn from_bytes_wide(bytes: &[u8; 64]) -> (r: Self) {
        scalar_from_wide(bytes)
    }

    fn to_bytes(&self) -> (r: [u8; 32]) {
        scalar_to_bytes(self)
    }

    fn from_canonical_bytes(bytes: &[u8; 32]) -> (r: Option<Self>) {
        scalar_from_canonical(bytes)
    }
}

/// `ProjectivePoint::IDENTITY`.
#[verifier::external_body]
fn point_identity() -> (r: ProjectivePoint)
    ensures
        point_log(r) == 0,
{
    ProjectivePoint::IDENTITY
}

/// `ProjectivePoint::GENERATOR`.
#[verifier::external_body]
fn point_generator() -> (r: ProjectivePoint)
    ensures
        point_log(r) == 1,
{
    ProjectivePoint::GENERATOR
}

/// `ProjectivePoint * Scalar` is scalar multiplication.
#[verifier::external_body]
fn point_mul(p: &ProjectivePoint, s: &Scalar) -> (r: ProjectivePoint)
    ensures
        point_log(r) == (point_log(*p) * scalar_val(*s)) % secp256k1_order(),
{
    *p * *s
}

/// `ProjectivePoint + ProjectivePoint` is the group operation.
#[verifier::external_body]
fn point_add(p: &ProjectivePoint, q: &ProjectivePoint) -> (r: ProjectivePoint)
    ensures
        point_log(r) == (point_log(*p) + point_log(*q)) % secp256k1_order(),
{
    *p + *q
}

/// `==` on points compares the group elements.
#[verifier::external_body]
fn point_equals(p: &ProjectivePoint, q: &ProjectivePoint) -> (r: bool)
    ensures
        r == (point_log(*p) == point_log(*q)),
{
    p == q
}

/// `AffinePoint::to_encoded_point`, compressed: a single zero byte for the
/// identity, and otherwise a parity byte, two or three, and the x-coordinate in
/// thirty-two bytes. One encoding to an element.
#[verifier::external_body]
fn point_sec1(p: &ProjectivePoint) -> (r: Vec<u8>)
    ensures
        r@ == secp256k1_point_bytes(*p),
        r@ == secp256k1_multiple_bytes(point_log(*p)),
        point_log(*p) == 0 ==> r@ == seq![0u8],
        point_log(*p) != 0 ==> is_sec1(r@),
        forall|k: int| #[trigger] is_sec1_multiple(k, r@) ==> k == point_log(*p),
{
    p.to_affine().to_encoded_point(true).as_bytes().to_vec()
}

/// `EncodedPoint::from_bytes` and `AffinePoint::from_encoded_point`: of a parity
/// byte and thirty-two more, they take the encodings of group elements, and
/// those alone.
#[verifier::external_body]
fn point_from_sec1(bytes: &[u8]) -> (r: Option<ProjectivePoint>)
    requires
        is_sec1(bytes@),
    ensures
        r is None ==> forall|k: int| !#[trigger] is_sec1_multiple(k, bytes@),
        r matches Some(p) ==> is_sec1_multiple(point_log(p), bytes@) && point_log(p) != 0
            && forall|k: int| #[trigger] is_sec1_multiple(k, bytes@) ==> k == point_log(p),
{
    let encoded = EncodedPoint::from_bytes(bytes).ok()?;
    AffinePoint::from_encoded_point(&encoded).into_option().map(ProjectivePoint::from)
}


impl OsstPoint for ProjectivePoint {
    type Scalar = Scalar;

    const COMPRESSED_SIZE: usize = 33;

    type Compressed = [u8; 33];

    open spec fn log(&self) -> int {
        point_log(*self)
    }

    open spec fn encoding(k: int) -> Seq<u8> {
        multiple_encoding(k)
    }

    open spec fn decode(b: Seq<u8>) -> Option<int> {
        if exists|k: int| is_multiple(k, b) {
            Some(choose|k: int| is_multiple(k, b))
        } else {
            None
        }
    }

    open spec fn compressed_bytes(c: [u8; 33]) -> Seq<u8> {
        c@
    }

    proof fn lemma_log(&self) {
    }

    proof fn lemma_decode(b: Seq<u8>) {
        if Self::decode(b) is None && b.len() == 33 {
            assert forall|k: int| 0 <= k < secp256k1_order() implies #[trigger] Self::encoding(k)
                != b by {
                assert(!is_multiple(k, b));
            }
        }
    }

    proof fn lemma_size() {
    }

    fn identity() -> (r: Self) {
        point_identity()
    }

    fn generator() -> (r: Self) {
        point_generator()
    }

    fn mul_scalar(&self, scalar: &Scalar) -> (r: Self) {
        point_mul(self, scalar)
    }

    fn add(&self, other: &Self) -> (r: Self) {
        point_add(self, other)
    }

    fn multiscalar_mul(scalars: &[Scalar], points: &[Self]) -> (r: Self) {
        let ghost n = secp256k1_order();
        let ghost vs = vals(scalars@);
        let ghost ls = Seq::new(points@.len(), |i: int| points@[i].log());
        let mut acc = point_identity();
        let mut i: usize = 0;
        assert(vs.subrange(0, 0).len() == 0);
        while i < points.len()
            invariant
                i <= points@.len(),
                scalars@.len() == points@.len(),
                n == secp256k1_order(),
                vs == vals(scalars@),
                ls == Seq::new(points@.len(), |i: int| points@[i].log()),
                point_log(acc) == dot(vs.subrange(0, i as int), ls.subrange(0, i as int)) % n,
            decreases points@.len() - i,
        {
            acc = point_add(&acc, &point_mul(&points[i], &scalars[i]));
            proof {
                let (a, b) = (vs.subrange(0, i as int), ls.subrange(0, i as int));
                assert(vs.subrange(0, i as int + 1) =~= a.push(vs[i as int]));
                assert(ls.subrange(0, i as int + 1) =~= b.push(ls[i as int]));
                lemma_dot_push(a, b, vs[i as int], ls[i as int]);
                let (v, l) = (vs[i as int], ls[i as int]);
                assert(l * v == v * l) by (nonlinear_arith);
                lemma_mod_add(dot(a, b), v * l, n);
            }
            i += 1;
        }
        assert(vs.subrange(0, i as int) =~= vs);
        assert(ls.subrange(0, i as int) =~= ls);
        acc
    }

    fn equals(&self, other: &Self) -> (r: bool) {
        point_equals(self, other)
    }

    fn compress(&self) -> (r: [u8; 33]) {
        let bytes = point_sec1(self);
        let mut out: [u8; 33] = [0u8; 33];
        if bytes.len() == 33 {
            let mut i: usize = 0;
            while i < 33
                invariant
                    i <= 33,
                    bytes@.len() == 33,
                    forall|j: int| 0 <= j < i ==> out@[j] == bytes@[j],
                decreases 33 - i,
            {
                out[i] = bytes[i];
                i += 1;
            }
            assert(out@ =~= bytes@);
        } else {
            assert(point_log(*self) == 0);
            assert(out@ =~= Seq::new(33, |i: int| 0u8));
        }
        proof {
            let n = point_log(*self);
            assert(is_multiple(n, out@));
            let k = choose|k: int| is_multiple(k, out@);
            if k == 0 {
                assert(out@[0] == 0);
            } else {
                assert(out@[0] != 0);
                assert(is_sec1_multiple(k, out@));
            }
        }
        out
    }

    fn decompress(bytes: &[u8]) -> (r: Option<Self>) {
        if bytes.len() != 33 {
            return None;
        }
        let zeros: [u8; 33] = [0u8; 33];
        if bytes_eq(bytes, &zeros) {
            let r = point_identity();
            proof {
                assert(bytes@ =~= Seq::new(33, |i: int| 0u8));
                assert(is_multiple(0, bytes@));
                let k = choose|k: int| is_multiple(k, bytes@);
                if k != 0 {
                    assert(bytes@[0] == 0);
                }
            }
            return Some(r);
        }
        proof {
            assert(!is_multiple(0, bytes@)) by {
                if bytes@ == multiple_encoding(0) {
                    assert(bytes@ =~= zeros@);
                }
            }
        }
        if bytes[0] != 2 && bytes[0] != 3 {
            proof {
                assert forall|k: int| !is_multiple(k, bytes@) by {
                    if is_multiple(k, bytes@) {
                        assert(k != 0);
                    }
                }
            }
            return None;
        }
        let r = point_from_sec1(bytes);
        proof {
            match r {
                None => {
                    assert forall|k: int| !is_multiple(k, bytes@) by {
                        if is_multiple(k, bytes@) {
                            assert(is_sec1_multiple(k, bytes@));
                        }
                    }
                },
                Some(p) => {
                    assert(is_multiple(point_log(p), bytes@));
                    let k = choose|k: int| is_multiple(k, bytes@);
                    assert(is_sec1_multiple(k, bytes@));
                },
            }
        }
        r
    }

    fn compress_vec(&self) -> (r: Vec<u8>) {
        let c = OsstPoint::compress(self);
        copy_vec(&c)
    }
}

/// secp256k1 curve backend.
#[derive(Clone, Copy, Debug, Default)]
pub struct Secp256k1Curve;

impl OsstCurve for Secp256k1Curve {
    type Scalar = Scalar;

    type Point = ProjectivePoint;
}

} // verus!
