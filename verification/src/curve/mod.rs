//! Curve abstraction: a prime-order group and its scalar field, with one
//! module per backend.
//!
//! - [`ristretto`]: ristretto255, compatible with Polkadot and sr25519
//! - [`pallas`]: Pallas, also in the Zcash Orchard spend-auth group
//! - [`secp256k1`]: secp256k1, of Bitcoin
//! - [`decaf`]: decaf377, of Penumbra
//!
//! A scalar is modelled by its residue modulo the group order and a point by
//! the multiple of the generator it is, so that every group operation is an
//! arithmetic statement about integers.
use rand_core::OsRng;
use vstd::arithmetic::div_mod::lemma_small_mod;
use vstd::prelude::*;

use crate::bytes::{
    be_bytes, be_value, byte_bound, le_bytes, le_value, lemma_be_bytes, lemma_le_bytes,
};
use crate::math::{dot, inv, is_field, is_inverse, lemma_eqm_mod, lemma_inverse_unique};

pub mod decaf;
pub mod pallas;
pub mod ristretto;
pub mod secp256k1;

pub use self::{OsstCurve as Curve, OsstPoint as CurvePoint, OsstScalar as CurveScalar};

verus! {

/// The operating system's random number generator.
#[verifier::external_type_specification]
#[verifier::external_body]
pub struct ExOsRng(rand_core::OsRng);

/// Scalar field element.
///
/// Implementors must ensure that `zeroize` overwrites the scalar's memory
/// representation with zeros: it is what keeps secret key material from
/// outliving its use.
pub trait OsstScalar: Copy + PartialEq + core::fmt::Debug + Send + Sync {
    /// The order of the field.
    spec fn order() -> int;

    /// The residue this scalar stands for.
    spec fn val(&self) -> int;

    /// The canonical encoding of a residue.
    spec fn repr(v: int) -> Seq<u8>;

    /// The integer that thirty-two bytes denote.
    spec fn unrepr(b: Seq<u8>) -> int;

    /// The integer that sixty-four bytes denote.
    spec fn wide(b: Seq<u8>) -> int;

    /// Every share index is a residue of its own.
    proof fn lemma_order()
        ensures
            Self::order() > 0x1_0000_0000,
    ;

    /// The value of a scalar is a residue.
    proof fn lemma_val(&self)
        ensures
            0 <= self.val() < Self::order(),
    ;

    /// The encoding of a residue is thirty-two bytes and denotes it.
    proof fn lemma_repr(v: int)
        requires
            0 <= v < Self::order(),
        ensures
            Self::repr(v).len() == 32,
            Self::unrepr(Self::repr(v)) == v,
    ;

    /// Thirty-two bytes that denote a residue are its encoding.
    proof fn lemma_unrepr(b: Seq<u8>)
        requires
            b.len() == 32,
            Self::unrepr(b) < Self::order(),
        ensures
            0 <= Self::unrepr(b),
            Self::repr(Self::unrepr(b)) == b,
    ;

    /// Overwrites this scalar's memory with zeros.
    fn zeroize(&mut self)
        ensures
            final(self).val() == 0,
    ;

    /// The zero element.
    fn zero() -> (r: Self)
        ensures
            r.val() == 0,
    ;

    /// The one element.
    fn one() -> (r: Self)
        ensures
            r.val() == 1,
            is_field(Self::order()),
    ;

    /// The scalar of a share index.
    fn from_u32(v: u32) -> (r: Self)
        ensures
            r.val() == v,
    ;

    /// Addition.
    fn add(&self, other: &Self) -> (r: Self)
        ensures
            r.val() == (self.val() + other.val()) % Self::order(),
    ;

    /// Subtraction.
    fn sub(&self, other: &Self) -> (r: Self)
        ensures
            r.val() == (self.val() - other.val()) % Self::order(),
    ;

    /// Multiplication.
    fn mul(&self, other: &Self) -> (r: Self)
        ensures
            r.val() == (self.val() * other.val()) % Self::order(),
    ;

    /// Negation.
    fn neg(&self) -> (r: Self)
        ensures
            r.val() == (-self.val()) % Self::order(),
    ;

    /// The multiplicative inverse, and zero for zero.
    fn invert(&self) -> (r: Self)
        ensures
            r.val() == inv(self.val(), Self::order()),
            self.val() != 0 ==> is_inverse(self.val(), r.val(), Self::order()),
    ;

    /// Whether two scalars are the same residue.
    fn equals(&self, other: &Self) -> (r: bool)
        ensures
            r == (self.val() == other.val()),
    ;

    /// A uniform scalar from the operating system's generator.
    fn random(rng: &mut OsRng) -> (r: Self);

    /// Sixty-four bytes of hash output, reduced modulo the order.
    fn from_bytes_wide(bytes: &[u8; 64]) -> (r: Self)
        ensures
            r.val() == Self::wide(bytes@) % Self::order(),
    ;

    /// The canonical encoding.
    fn to_bytes(&self) -> (r: [u8; 32])
        ensures
            r@ == Self::repr(self.val()),
    ;

    /// The scalar a canonical encoding stands for; `None` where the bytes are
    /// not the encoding of a residue.
    fn from_canonical_bytes(bytes: &[u8; 32]) -> (r: Option<Self>)
        ensures
            r is Some <==> Self::unrepr(bytes@) < Self::order(),
            r matches Some(s) ==> s.val() == Self::unrepr(bytes@),
    ;
}

/// Curve point of a group of prime order.
pub trait OsstPoint: Copy + PartialEq + core::fmt::Debug + Send + Sync {
    /// The scalar field of the group.
    type Scalar: OsstScalar;

    /// Compressed point size in bytes: 32 for every backend but secp256k1,
    /// which has 33.
    const COMPRESSED_SIZE: usize;

    /// The canonical compressed encoding of a point, always exactly
    /// [`COMPRESSED_SIZE`](Self::COMPRESSED_SIZE) bytes.
    ///
    /// The encoding is injective: everything the protocols bind is a hash over
    /// these bytes, so points with one encoding are one point.
    type Compressed: Copy + PartialEq + core::fmt::Debug + Send + Sync;

    /// The multiple of the generator this point is.
    spec fn log(&self) -> int;

    /// The canonical encoding of a multiple of the generator.
    spec fn encoding(k: int) -> Seq<u8>;

    /// The multiple of the generator that a byte string encodes, if it encodes
    /// one.
    spec fn decode(b: Seq<u8>) -> Option<int>;

    /// The bytes of a compressed point.
    spec fn compressed_bytes(c: Self::Compressed) -> Seq<u8>;

    /// The discrete logarithm of a point is a residue.
    proof fn lemma_log(&self)
        ensures
            0 <= self.log() < <Self::Scalar as OsstScalar>::order(),
    ;

    /// Decoding finds the multiple with that encoding wherever there is one.
    proof fn lemma_decode(b: Seq<u8>)
        ensures
            Self::decode(b) matches Some(k) ==> 0 <= k < <Self::Scalar as OsstScalar>::order()
                && Self::encoding(k) == b && b.len() == Self::COMPRESSED_SIZE,
            Self::decode(b) is None && b.len() == Self::COMPRESSED_SIZE ==> forall|k: int|
                0 <= k < <Self::Scalar as OsstScalar>::order() ==> #[trigger] Self::encoding(k)
                    != b,
    ;

    /// An encoding has at least one byte.
    proof fn lemma_size()
        ensures
            0 < Self::COMPRESSED_SIZE <= 64,
    ;

    /// The identity element.
    fn identity() -> (r: Self)
        ensures
            r.log() == 0,
    ;

    /// The generator.
    fn generator() -> (r: Self)
        ensures
            r.log() == 1,
    ;

    /// Scalar multiplication.
    fn mul_scalar(&self, scalar: &Self::Scalar) -> (r: Self)
        ensures
            r.log() == (self.log() * scalar.val()) % <Self::Scalar as OsstScalar>::order(),
    ;

    /// Point addition.
    fn add(&self, other: &Self) -> (r: Self)
        ensures
            r.log() == (self.log() + other.log()) % <Self::Scalar as OsstScalar>::order(),
    ;

    /// The sum of the points, each times its scalar.
    fn multiscalar_mul(scalars: &[Self::Scalar], points: &[Self]) -> (r: Self)
        requires
            scalars@.len() == points@.len(),
        ensures
            r.log() == dot(vals(scalars@), Seq::new(points@.len(), |i: int| points@[i].log())) % <Self::Scalar as OsstScalar>::order(),
    ;

    /// Whether two points are the same element of the group.
    fn equals(&self, other: &Self) -> (r: bool)
        ensures
            r == (self.log() == other.log()),
    ;

    /// Compress to this curve's canonical encoding.
    fn compress(&self) -> (r: Self::Compressed)
        ensures
            Self::compressed_bytes(r) == Self::encoding(self.log()),
            Self::compressed_bytes(r).len() == Self::COMPRESSED_SIZE,
            Self::decode(Self::compressed_bytes(r)) == Some(self.log()),
    ;

    /// Decompress from a canonical encoding.
    ///
    /// `None` for any input that is not exactly
    /// [`COMPRESSED_SIZE`](Self::COMPRESSED_SIZE) bytes of the canonical
    /// encoding of a point in the group.
    fn decompress(bytes: &[u8]) -> (r: Option<Self>)
        ensures
            r is Some <==> Self::decode(bytes@) is Some,
            r matches Some(p) ==> Some(p.log()) == Self::decode(bytes@),
            r is Some ==> bytes@.len() == Self::COMPRESSED_SIZE,
    ;

    /// Compress to an owned byte vector.
    fn compress_vec(&self) -> (r: Vec<u8>)
        ensures
            r@ == Self::encoding(self.log()),
            r@.len() == Self::COMPRESSED_SIZE,
            Self::decode(r@) == Some(self.log()),
    ;
}

/// Complete curve backend.
pub trait OsstCurve: Clone + core::fmt::Debug + Default {
    /// The scalar field.
    type Scalar: OsstScalar;

    /// The group.
    type Point: OsstPoint<Scalar = Self::Scalar>;
}

/// The order of the group of `P`.
pub open spec fn ord<P: OsstPoint>() -> int {
    <P::Scalar as OsstScalar>::order()
}

/// The values of a sequence of scalars.
pub open spec fn vals<S: OsstScalar>(s: Seq<S>) -> Seq<int> {
    Seq::new(s.len(), |i: int| s[i].val())
}

/// The discrete logarithms of a sequence of points.
pub open spec fn logs<P: OsstPoint>(s: Seq<P>) -> Seq<int> {
    Seq::new(s.len(), |i: int| s[i].log())
}

/// A multiple of the generator has an encoding, from which it is read back. Every point
/// is such a multiple: what is compressed decompresses.
pub open spec fn has_encoding<P: OsstPoint>(k: int) -> bool {
    P::decode(P::encoding(k)) == Some(k)
}

/// Multiples with encodings are residues, their encodings have one length, and they are
/// equal exactly where their encodings are.
pub proof fn lemma_encodings<P: OsstPoint>(a: int, b: int)
    requires
        has_encoding::<P>(a),
        has_encoding::<P>(b),
    ensures
        0 <= a < ord::<P>(),
        0 <= b < ord::<P>(),
        P::encoding(a).len() == P::COMPRESSED_SIZE,
        P::encoding(b).len() == P::COMPRESSED_SIZE,
        P::encoding(a) == P::encoding(b) <==> a == b,
{
    P::lemma_decode(P::encoding(a));
    P::lemma_decode(P::encoding(b));
}

/// SHA-512, reduced to the field, does not collide on two inputs.
pub open spec fn told_apart<S: OsstScalar>(a: Seq<u8>, b: Seq<u8>) -> bool {
    S::wide(crate::hash::sha512_digest(a)) % S::order() == S::wide(
        crate::hash::sha512_digest(b),
    ) % S::order() ==> a == b
}

/// The residue that thirty-two bytes encode, if they encode one.
pub open spec fn decode_scalar<S: OsstScalar>(b: Seq<u8>) -> Option<int> {
    if S::unrepr(b) < S::order() {
        Some(S::unrepr(b))
    } else {
        None
    }
}

/// The residue a SHA-512 digest of `data` reduces to.
pub open spec fn hash_value<S: OsstScalar>(data: Seq<u8>) -> int {
    S::wide(crate::hash::sha512_digest(data)) % S::order()
}

/// A hash to the field is a residue, and tells apart whatever SHA-512 does: every byte
/// of the input counts.
pub proof fn law_hash_binds_input<S: OsstScalar>(a: Seq<u8>, b: Seq<u8>)
    requires
        told_apart::<S>(a, b),
    ensures
        0 <= hash_value::<S>(a) < S::order(),
        hash_value::<S>(a) == hash_value::<S>(b) <==> a == b,
{
    S::lemma_order();
    lemma_eqm_mod(S::wide(crate::hash::sha512_digest(a)), S::order());
}

/// A residue below `2^256` has a little-endian encoding of thirty-two bytes that
/// denotes it.
pub(crate) proof fn lemma_le_repr(v: int)
    requires
        0 <= v < 0x1_0000000000000000000000000000000000000000000000000000000000000000int,
    ensures
        le_bytes(v, 32).len() == 32,
        le_value(le_bytes(v, 32)) == v,
{
    reveal_with_fuel(byte_bound, 33);
    lemma_le_bytes(v, 32);
}

/// A residue below `2^256` has a big-endian encoding of thirty-two bytes that
/// denotes it.
pub(crate) proof fn lemma_be_repr(v: int)
    requires
        0 <= v < 0x1_0000000000000000000000000000000000000000000000000000000000000000int,
    ensures
        be_bytes(v, 32).len() == 32,
        be_value(be_bytes(v, 32)) == v,
{
    reveal_with_fuel(byte_bound, 33);
    lemma_be_bytes(v, 32);
}

/// `rand_core::RngCore::fill_bytes` on sixty-four bytes. Nothing is said of
/// them: they are chance.
#[verifier::external_body]
pub(crate) fn random64(rng: &mut OsRng) -> (r: [u8; 64]) {
    let mut bytes = [0u8; 64];
    rand_core::RngCore::fill_bytes(rng, &mut bytes);
    bytes
}

/// `rand_core::RngCore::fill_bytes` on thirty-two bytes. Nothing is said of
/// them: they are chance.
#[verifier::external_body]
pub(crate) fn random32(rng: &mut OsRng) -> (r: [u8; 32]) {
    let mut bytes = [0u8; 32];
    rand_core::RngCore::fill_bytes(rng, &mut bytes);
    bytes
}

/// An inverse, with zero for zero, is what `inv` names.
pub(crate) proof fn lemma_invert(a: int, r: int, n: int)
    requires
        n > 1,
        0 <= a < n,
        a != 0 ==> is_inverse(a, r, n),
        a == 0 ==> r == 0,
    ensures
        r == inv(a, n),
{
    if a != 0 {
        lemma_inverse_unique(a, r, n);
    } else {
        assert forall|b: int| !is_inverse(0, b, n) by {
            assert(0 * b == 0);
            lemma_small_mod(1, n as nat);
            lemma_small_mod(0, n as nat);
        }
    }
}

/// SHA-512 of `data`, reduced modulo the order.
pub(crate) fn hash_to_scalar<S: OsstScalar>(data: &[u8]) -> (r: S)
    ensures
        r.val() == hash_value::<S>(data@),
{
    let digest = crate::hash::sha512(data);
    S::from_bytes_wide(&digest)
}

} // verus!
