//! decaf377, over `decaf377`.
use decaf377::{Element, Encoding, Fr};
use rand_core::OsRng;
use vstd::prelude::*;

use crate::bytes::{copy_vec, get_array32, le_bytes, le_value};
use crate::math::{
    dot, eqm, is_field, is_inverse, is_quotient, lemma_dot_push, lemma_mod_add,
};

use super::{random32, vals, OsstCurve, OsstPoint, OsstScalar};

verus! {

/// `decaf377::Fr`: a residue modulo the group order.
#[verifier::external_type_specification]
#[verifier::external_body]
pub struct ExDecaf377Scalar(decaf377::Fr);

/// `decaf377::Element`: an element of the group.
#[verifier::external_type_specification]
#[verifier::external_body]
pub struct ExDecaf377Point(decaf377::Element);

/// The order of the group.
pub open spec fn decaf377_order() -> int {
    0x4aad957a68b2955982d1347970dec005293a3afc43c8afeb95aee9ac33fd9ffint
}

/// What `Fr::to_bytes` returns.
pub uninterp spec fn decaf377_scalar_bytes(s: Fr) -> Seq<u8>;

/// What `Element::vartime_compress` returns.
pub uninterp spec fn decaf377_point_bytes(p: Element) -> Seq<u8>;

/// What `Element::vartime_compress` returns for a multiple of the generator.
pub uninterp spec fn decaf377_multiple_bytes(k: int) -> Seq<u8>;

/// The residue a scalar stands for.
pub open spec fn scalar_val(s: Fr) -> int {
    le_value(decaf377_scalar_bytes(s)) % decaf377_order()
}

/// `b` is the encoding of the `k`-th multiple of the generator.
pub open spec fn is_multiple(k: int, b: Seq<u8>) -> bool {
    0 <= k < decaf377_order() && decaf377_multiple_bytes(k) == b && b.len() == 32
}

/// The multiple of the generator that a point is.
pub open spec fn point_log(p: Element) -> int {
    (choose|k: int| is_multiple(k, decaf377_point_bytes(p))) % decaf377_order()
}


/// `Zeroize::zeroize` on a scalar leaves zero.
#[verifier::external_body]
fn scalar_zeroize(s: &mut Fr)
    ensures
        scalar_val(*final(s)) == 0,
{
    zeroize::Zeroize::zeroize(s)
}

/// `Fr::ZERO`.
#[verifier::external_body]
fn scalar_zero() -> (r: Fr)
    ensures
        scalar_val(r) == 0,
{
    Fr::ZERO
}

/// `Fr::ONE`. The order is a prime, so every residue but zero divides one.
#[verifier::external_body]
fn scalar_one() -> (r: Fr)
    ensures
        scalar_val(r) == 1,
        forall|a: int|
            !#[trigger] eqm(a, 0, decaf377_order()) ==> exists|b: int|
                #[trigger] is_quotient(a, b, scalar_val(r), decaf377_order()),
{
    Fr::ONE
}

/// `Fr::from(u64)` is the scalar of that integer, for one below the order.
#[verifier::external_body]
fn scalar_from_u64(v: u64) -> (r: Fr)
    ensures
        scalar_val(r) == v,
{
    Fr::from(v)
}

/// `Fr + Fr` adds modulo the order.
#[verifier::external_body]
fn scalar_add(a: &Fr, b: &Fr) -> (r: Fr)
    ensures
        scalar_val(r) == (scalar_val(*a) + scalar_val(*b)) % decaf377_order(),
{
    *a + *b
}

/// `Fr - Fr` subtracts modulo the order.
#[verifier::external_body]
fn scalar_sub(a: &Fr, b: &Fr) -> (r: Fr)
    ensures
        scalar_val(r) == (scalar_val(*a) - scalar_val(*b)) % decaf377_order(),
{
    *a - *b
}

/// `Fr * Fr` multiplies modulo the order.
#[verifier::external_body]
fn scalar_mul(a: &Fr, b: &Fr) -> (r: Fr)
    ensures
        scalar_val(r) == (scalar_val(*a) * scalar_val(*b)) % decaf377_order(),
{
    *a * *b
}

/// `-Fr` negates modulo the order.
#[verifier::external_body]
fn scalar_neg(a: &Fr) -> (r: Fr)
    ensures
        scalar_val(r) == (-scalar_val(*a)) % decaf377_order(),
{
    -*a
}

/// `Fr::inverse` gives the inverse of a nonzero scalar, and none of zero.
#[verifier::external_body]
fn scalar_invert(a: &Fr) -> (r: Option<Fr>)
    ensures
        r is Some <==> scalar_val(*a) != 0,
        r matches Some(b) ==> is_inverse(scalar_val(*a), scalar_val(b), decaf377_order()),
{
    a.inverse()
}

/// `==` on scalars compares the residues.
#[verifier::external_body]
fn scalar_equals(a: &Fr, b: &Fr) -> (r: bool)
    ensures
        r == (scalar_val(*a) == scalar_val(*b)),
{
    a == b
}

/// `Fr::from_le_bytes_mod_order` reads a little-endian integer and reduces it.
#[verifier::external_body]
fn scalar_from_le(bytes: &[u8]) -> (r: Fr)
    ensures
        scalar_val(r) == le_value(bytes@) % decaf377_order(),
{
    Fr::from_le_bytes_mod_order(bytes)
}

/// `Fr::to_bytes` is the little-endian encoding of the residue.
#[verifier::external_body]
fn scalar_to_bytes(s: &Fr) -> (r: [u8; 32])
    ensures
        r@ == decaf377_scalar_bytes(*s),
        r@ == le_bytes(scalar_val(*s), 32),
{
    s.to_bytes()
}

/// `Fr::from_bytes_checked` takes the encodings of residues, and those alone.
#[verifier::external_body]
fn scalar_from_canonical(bytes: &[u8; 32]) -> (r: Option<Fr>)
    ensures
        r is Some <==> le_value(bytes@) < decaf377_order(),
        r matches Some(s) ==> scalar_val(s) == le_value(bytes@),
{
    Fr::from_bytes_checked(bytes).ok()
}

impl OsstScalar for Fr {
    open spec fn order() -> int {
        decaf377_order()
    }

    open spec fn val(&self) -> int {
        scalar_val(*self)
    }

    open spec fn repr(v: int) -> Seq<u8> {
        le_bytes(v, 32)
    }

    open spec fn unrepr(b: Seq<u8>) -> int {
        le_value(b)
    }

    open spec fn wide(b: Seq<u8>) -> int {
        le_value(b)
    }

    proof fn lemma_order() {
    }

    proof fn lemma_val(&self) {
    }

    proof fn lemma_repr(v: int) {
        super::lemma_le_repr(v);
    }

    proof fn lemma_unrepr(b: Seq<u8>) {
        crate::bytes::lemma_le_value(b);
    }

    fn zeroize(&mut self) {
        scalar_zeroize(self)
    }

    fn zero() -> (r: Self) {
        scalar_zero()
    }

    fn one() -> (r: Self) {
        let r = scalar_one();
        assert(is_field(decaf377_order())) by {
            assert forall|a: int| !eqm(a, 0, decaf377_order()) implies exists|b: int|
                #[trigger] is_inverse(a, b, decaf377_order()) by {
                let b = choose|b: int| is_quotient(a, b, scalar_val(r), decaf377_order());
                assert(is_inverse(a, b, decaf377_order()));
            }
        }
        r
    }

    fn from_u32(v: u32) -> (r: Self) {
        scalar_from_u64(v as u64)
    }

    fn add(&self, other: &Self) -> (r: Self) {
        scalar_add(self, other)
    }

    fn sub(&self, other: &Self) -> (r: Self) {
        scalar_sub(self, other)
    }

    fn mul(&self, other: &Self) -> (r: Self) {
        scalar_mul(self, other)
    }

    fn neg(&self) -> (r: Self) {
        scalar_neg(self)
    }

    fn invert(&self) -> (r: Self) {
        let r = match scalar_invert(self) {
            Some(b) => b,
            None => scalar_zero(),
        };
        proof {
            super::lemma_invert(scalar_val(*self), scalar_val(r), decaf377_order());
        }
        r
    }

    fn equals(&self, other: &Self) -> (r: bool) {
        scalar_equals(self, other)
    }

    fn random(rng: &mut OsRng) -> (r: Self) {
        let bytes = random32(rng);
        scalar_from_le(&bytes)
    }

    fn from_bytes_wide(bytes: &[u8; 64]) -> (r: Self) {
        scalar_from_le(bytes)
    }

    fn to_bytes(&self) -> (r: [u8; 32]) {
        scalar_to_bytes(self)
    }

    fn from_canonical_bytes(bytes: &[u8; 32]) -> (r: Option<Self>) {
        scalar_from_canonical(bytes)
    }
}

/// `Element::IDENTITY`.
#[verifier::external_body]
fn point_identity() -> (r: Element)
    ensures
        point_log(r) == 0,
{
    Element::IDENTITY
}

/// `Element::GENERATOR`.
#[verifier::external_body]
fn point_generator() -> (r: Element)
    ensures
        point_log(r) == 1,
{
    Element::GENERATOR
}

/// `Element * Fr` is scalar multiplication.
#[verifier::external_body]
fn point_mul(p: &Element, s: &Fr) -> (r: Element)
    ensures
        point_log(r) == (point_log(*p) * scalar_val(*s)) % decaf377_order(),
{
    *p * *s
}

/// `Element + Element` is the group operation.
#[verifier::external_body]
fn point_add(p: &Element, q: &Element) -> (r: Element)
    ensures
        point_log(r) == (point_log(*p) + point_log(*q)) % decaf377_order(),
{
    *p + *q
}

/// `Element - Element` is the inverse of the group operation.
#[verifier::external_body]
pub(crate) fn point_sub(p: &Element, q: &Element) -> (r: Element)
    ensures
        point_log(r) == (point_log(*p) - point_log(*q)) % decaf377_order(),
{
    *p - *q
}

/// `==` on points compares the group elements.
#[verifier::external_body]
fn point_equals(p: &Element, q: &Element) -> (r: bool)
    ensures
        r == (point_log(*p) == point_log(*q)),
{
    p == q
}

/// `Element::vartime_compress` encodes the group element in thirty-two bytes, one encoding to
/// an element.
#[verifier::external_body]
fn point_compress(p: &Element) -> (r: [u8; 32])
    ensures
        r@ == decaf377_point_bytes(*p),
        r@ == decaf377_multiple_bytes(point_log(*p)),
        forall|k: int| #[trigger] is_multiple(k, r@) ==> k == point_log(*p),
{
    p.vartime_compress().0
}

/// `Encoding::vartime_decompress` takes the encodings of group elements, and
/// those alone.
#[verifier::external_body]
fn point_decompress(bytes: &[u8; 32]) -> (r: Option<Element>)
    ensures
        r is None ==> forall|k: int| !#[trigger] is_multiple(k, bytes@),
        r matches Some(p) ==> is_multiple(point_log(p), bytes@) && forall|k: int|
            #[trigger] is_multiple(k, bytes@) ==> k == point_log(p),
{
    Encoding(*bytes).vartime_decompress().ok()
}


impl OsstPoint for Element {
    type Scalar = Fr;

    const COMPRESSED_SIZE: usize = 32;

    type Compressed = [u8; 32];

    open spec fn log(&self) -> int {
        point_log(*self)
    }

    open spec fn encoding(k: int) -> Seq<u8> {
        decaf377_multiple_bytes(k)
    }

    open spec fn decode(b: Seq<u8>) -> Option<int> {
        if exists|k: int| is_multiple(k, b) {
            Some(choose|k: int| is_multiple(k, b))
        } else {
            None
        }
    }

    open spec fn compressed_bytes(c: [u8; 32]) -> Seq<u8> {
        c@
    }

    proof fn lemma_log(&self) {
    }

    proof fn lemma_decode(b: Seq<u8>) {
        if Self::decode(b) is None && b.len() == 32 {
            assert forall|k: int| 0 <= k < decaf377_order() implies #[trigger] Self::encoding(k)
                != b by {
                assert(!is_multiple(k, b));
            }
        }
    }

    proof fn lemma_size() {
    }

    fn identity() -> (r: Self) {
        point_identity()
    }

    fn generator() -> (r: Self) {
        point_generator()
    }

    fn mul_scalar(&self, scalar: &Fr) -> (r: Self) {
        point_mul(self, scalar)
    }

    fn add(&self, other: &Self) -> (r: Self) {
        point_add(self, other)
    }

    fn multiscalar_mul(scalars: &[Fr], points: &[Self]) -> (r: Self) {
        let ghost n = decaf377_order();
        let ghost vs = vals(scalars@);
        let ghost ls = Seq::new(points@.len(), |i: int| points@[i].log());
        let mut acc = point_identity();
        let mut i: usize = 0;
        assert(vs.subrange(0, 0).len() == 0);
        while i < points.len()
            invariant
                i <= points@.len(),
                scalars@.len() == points@.len(),
                n == decaf377_order(),
                vs == vals(scalars@),
                ls == Seq::new(points@.len(), |i: int| points@[i].log()),
                point_log(acc) == dot(vs.subrange(0, i as int), ls.subrange(0, i as int)) % n,
            decreases points@.len() - i,
        {
            acc = point_add(&acc, &point_mul(&points[i], &scalars[i]));
            proof {
                let (a, b) = (vs.subrange(0, i as int), ls.subrange(0, i as int));
                assert(vs.subrange(0, i as int + 1) =~= a.push(vs[i as int]));
                assert(ls.subrange(0, i as int + 1) =~= b.push(ls[i as int]));
                lemma_dot_push(a, b, vs[i as int], ls[i as int]);
                let (v, l) = (vs[i as int], ls[i as int]);
                assert(l * v == v * l) by (nonlinear_arith);
                lemma_mod_add(dot(a, b), v * l, n);
            }
            i += 1;
        }
        assert(vs.subrange(0, i as int) =~= vs);
        assert(ls.subrange(0, i as int) =~= ls);
        acc
    }

    fn equals(&self, other: &Self) -> (r: bool) {
        point_equals(self, other)
    }

    fn compress(&self) -> (r: [u8; 32]) {
        let r = point_compress(self);
        assert(is_multiple(point_log(*self), r@));
        r
    }

    fn decompress(bytes: &[u8]) -> (r: Option<Self>) {
        if bytes.len() != 32 {
            None
        } else {
            let arr = get_array32(bytes, 0);
            assert(arr@ =~= bytes@);
            point_decompress(&arr)
        }
    }

    fn compress_vec(&self) -> (r: Vec<u8>) {
        let c = OsstPoint::compress(self);
        copy_vec(&c)
    }
}

/// decaf377 curve backend.
#[derive(Clone, Copy, Debug, Default)]
pub struct Decaf377Curve;

impl OsstCurve for Decaf377Curve {
    type Scalar = Fr;

    type Point = Element;
}

} // verus!
