//! `frost-core` integration.
//!
//! A nested position can sit inside a group that signs with `frost-core`:
//! [`inner_params_from_zf`] recomputes the outer context of the position from a
//! `frost-core` signing package, so that a coordinator still asserts none of it.
//! Packages, keys and identifiers enter as the bytes that `frost-core`
//! serializes them to.
//!
//! The hashes of FROST(decaf377, SHA-512) are here too. It is not a registered
//! ciphersuite and nothing else interoperates with it: it follows
//! FROST(ristretto255, SHA-512), with the group swapped and a context string of
//! its own, so that a signature under it can never be reinterpreted under
//! another.
use decaf377::{Element, Fr};
use frost_core::{Field, Group};
use frost_ristretto255::{Ristretto255Sha512, RistrettoGroup, RistrettoScalarField};
use frost_secp256k1::Secp256K1Sha256;
use frost_secp256k1_tr::Secp256K1Sha256TR;
use vstd::prelude::*;

use crate::bytes::{
    get_u32, le_bytes, le_value, lemma_byte_bounds, lemma_le_value, put_slice,
};
use crate::curve::decaf::point_sub;
use crate::curve::{
    decode_scalar, hash_value, law_hash_binds_input, told_apart, OsstPoint, OsstScalar,
};
use crate::frost::PackageView;
use crate::error::OsstError;
use crate::hash::{sha512, sha512_digest};
use crate::lagrange::{coefficients, compute_lagrange_coefficients, lemma_reconstruct};
use crate::math::{dot, eqm, is_field, is_inverse, poly};
use crate::nested::{coefficient_of, lemma_dot_by, InnerSigningParamsV2, ParamsView};
use crate::sets::{
    ascending, ascending_of, ascending_set, contains_index, index_position, index_set,
    lemma_ascending_of, lemma_ascending_set, lemma_same_multiset, lemma_sum_permutation,
};
use crate::text::ascii;

verus! {

// ---------------------------------------------------------------------------
// FROST(decaf377, SHA-512)
// ---------------------------------------------------------------------------

/// Context string of the suite: `FROST-decaf377-SHA512-v1`.
pub const CONTEXT_STRING: [u8; 24] = [
    70u8, 82u8, 79u8, 83u8, 84u8, 45u8, 100u8, 101u8, 99u8, 97u8, 102u8, 51u8, 55u8, 55u8, 45u8,
    83u8, 72u8, 65u8, 53u8, 49u8, 50u8, 45u8, 118u8, 49u8,
];

/// Tag of the binding factor hash: `rho`.
pub const TAG_RHO: [u8; 3] = [
    114u8, 104u8, 111u8,
];

/// Tag of the challenge hash: `chal`.
pub const TAG_CHAL: [u8; 4] = [
    99u8, 104u8, 97u8, 108u8,
];

/// Tag of the nonce generation hash: `nonce`.
pub const TAG_NONCE: [u8; 5] = [
    110u8, 111u8, 110u8, 99u8, 101u8,
];

/// Tag of the message hash: `msg`.
pub const TAG_MSG: [u8; 3] = [
    109u8, 115u8, 103u8,
];

/// Tag of the commitment hash: `com`.
pub const TAG_COM: [u8; 3] = [
    99u8, 111u8, 109u8,
];

/// Tag of the proof-of-knowledge hash: `dkg`.
pub const TAG_DKG: [u8; 3] = [
    100u8, 107u8, 103u8,
];

/// Tag of the identifier derivation hash: `id`.
pub const TAG_ID: [u8; 2] = [
    105u8, 100u8,
];

/// Byte strings, one behind the other.
pub open spec fn concatenation(inputs: Seq<&[u8]>) -> Seq<u8>
    decreases inputs.len(),
{
    if inputs.len() == 0 {
        Seq::empty()
    } else {
        concatenation(inputs.drop_last()) + inputs.last()@
    }
}

/// SHA-512 of several byte strings, one behind the other.
pub fn hash_to_array(inputs: &[&[u8]]) -> (r: [u8; 64])
    ensures
        r@ == sha512_digest(concatenation(inputs@)),
{
    let mut h: Vec<u8> = Vec::new();
    let mut i: usize = 0;
    assert(h@ =~= concatenation(inputs@.subrange(0, 0)));
    while i < inputs.len()
        invariant
            i <= inputs@.len(),
            h@ == concatenation(inputs@.subrange(0, i as int)),
        decreases inputs@.len() - i,
    {
        put_slice(&mut h, inputs[i]);
        assert(inputs@.subrange(0, i as int + 1).drop_last() =~= inputs@.subrange(0, i as int));
        i += 1;
    }
    assert(inputs@.subrange(0, i as int) =~= inputs@);
    sha512(&h)
}

/// SHA-512 of several byte strings, one behind the other, as a scalar.
pub fn hash_to_scalar(inputs: &[&[u8]]) -> (r: Fr)
    ensures
        r.val() == hash_value::<Fr>(concatenation(inputs@)),
{
    let digest = hash_to_array(inputs);
    <Fr as OsstScalar>::from_bytes_wide(&digest)
}

/// The input of a hash of the suite: the context, the hash's tag and the bytes.
pub open spec fn suite_input(tag: Seq<u8>, m: Seq<u8>) -> Seq<u8> {
    CONTEXT_STRING@ + (tag + m)
}

fn suite_scalar(tag: &[u8], m: &[u8]) -> (r: Fr)
    ensures
        r.val() == hash_value::<Fr>(suite_input(tag@, m@)),
{
    let inputs: [&[u8]; 3] = [&CONTEXT_STRING, tag, m];
    proof {
        lemma_three(inputs@);
    }
    hash_to_scalar(&inputs)
}

fn suite_array(tag: &[u8], m: &[u8]) -> (r: [u8; 64])
    ensures
        r@ == sha512_digest(suite_input(tag@, m@)),
{
    let inputs: [&[u8]; 3] = [&CONTEXT_STRING, tag, m];
    proof {
        lemma_three(inputs@);
    }
    hash_to_array(&inputs)
}

proof fn lemma_three(s: Seq<&[u8]>)
    requires
        s.len() == 3,
    ensures
        concatenation(s) == s[0]@ + (s[1]@ + s[2]@),
{
    reveal_with_fuel(concatenation, 4);
    assert(concatenation(s) =~= s[0]@ + (s[1]@ + s[2]@));
}

/// Why a scalar of the suite is refused.
#[derive(Clone, Copy, Debug, PartialEq, Eq, Structural)]
pub enum FieldError {
    /// The bytes are not the encoding of a residue.
    MalformedScalar,
    /// Zero has no inverse.
    InvalidZeroScalar,
}

/// The decaf377 scalar field.
#[derive(Clone, Copy)]
pub struct Decaf377ScalarField;

impl Decaf377ScalarField {
    /// The zero of the field.
    pub fn zero() -> (r: Fr)
        ensures
            r.val() == 0,
    {
        <Fr as OsstScalar>::zero()
    }

    /// The one of the field.
    pub fn one() -> (r: Fr)
        ensures
            r.val() == 1,
    {
        <Fr as OsstScalar>::one()
    }

    /// The multiplicative inverse, which zero alone has not.
    pub fn invert(scalar: &Fr) -> (r: Result<Fr, FieldError>)
        ensures
            r is Ok <==> scalar.val() != 0,
            r matches Ok(b) ==> is_inverse(scalar.val(), b.val(), Fr::order()),
            r matches Err(e) ==> e == FieldError::InvalidZeroScalar,
    {
        let zero = <Fr as OsstScalar>::zero();
        if OsstScalar::equals(scalar, &zero) {
            return Err(FieldError::InvalidZeroScalar);
        }
        Ok(OsstScalar::invert(scalar))
    }

    /// A scalar from sixty-four random bytes, reduced so that it is uniform rather
    /// than biased by a truncation.
    pub fn from_random_bytes(bytes: &[u8; 64]) -> (r: Fr)
        ensures
            r.val() == le_value(bytes@) % Fr::order(),
    {
        <Fr as OsstScalar>::from_bytes_wide(bytes)
    }

    /// The canonical encoding, which is little-endian.
    pub fn serialize(scalar: &Fr) -> (r: [u8; 32])
        ensures
            r@ == le_bytes(scalar.val(), 32),
    {
        OsstScalar::to_bytes(scalar)
    }

    /// The scalar of a canonical encoding.
    pub fn deserialize(buf: &[u8; 32]) -> (r: Result<Fr, FieldError>)
        ensures
            r is Ok <==> le_value(buf@) < Fr::order(),
            r matches Ok(s) ==> s.val() == le_value(buf@),
            r matches Err(e) ==> e == FieldError::MalformedScalar,
    {
        match <Fr as OsstScalar>::from_canonical_bytes(buf) {
            Some(s) => Ok(s),
            None => Err(FieldError::MalformedScalar),
        }
    }

    /// The little-endian encoding: the canonical one.
    pub fn little_endian_serialize(scalar: &Fr) -> (r: [u8; 32])
        ensures
            r@ == le_bytes(scalar.val(), 32),
    {
        Self::serialize(scalar)
    }
}

/// An element of the decaf377 group.
#[derive(Clone, Copy, Debug)]
pub struct Decaf377Element(pub Element);

impl Decaf377Element {
    /// The wrapped element.
    pub fn into_inner(self) -> (r: Element)
        ensures
            r == self.0,
    {
        self.0
    }

    /// The group operation.
    pub fn add(self, rhs: Self) -> (r: Self)
        ensures
            r.0.log() == (self.0.log() + rhs.0.log()) % Fr::order(),
    {
        Self(OsstPoint::add(&self.0, &rhs.0))
    }

    /// The inverse of the group operation.
    pub fn sub(self, rhs: Self) -> (r: Self)
        ensures
            r.0.log() == (self.0.log() - rhs.0.log()) % Fr::order(),
    {
        Self(point_sub(&self.0, &rhs.0))
    }

    /// Scalar multiplication.
    pub fn mul(self, rhs: Fr) -> (r: Self)
        ensures
            r.0.log() == (self.0.log() * rhs.val()) % Fr::order(),
    {
        Self(OsstPoint::mul_scalar(&self.0, &rhs))
    }

    /// Whether two elements are the same in the prime-order group.
    pub fn equals(&self, other: &Self) -> (r: bool)
        ensures
            r == (self.0.log() == other.0.log()),
    {
        OsstPoint::equals(&self.0, &other.0)
    }
}

impl From<Element> for Decaf377Element {
    fn from(e: Element) -> (r: Self) {
        Self(e)
    }
}

impl vstd::std_specs::convert::FromSpecImpl<Element> for Decaf377Element {
    open spec fn obeys_from_spec() -> bool {
        true
    }

    open spec fn from_spec(e: Element) -> Self {
        Decaf377Element(e)
    }
}

/// Why an element of the suite is refused.
#[derive(Clone, Copy, Debug, PartialEq, Eq, Structural)]
pub enum GroupError {
    /// The bytes are not the encoding of an element.
    MalformedElement,
    /// The identity is never sent or received.
    InvalidIdentityElement,
}

/// The decaf377 group.
#[derive(Clone, Copy, PartialEq, Eq)]
pub struct Decaf377Group;

impl Decaf377Group {
    /// One: the group has prime order.
    pub fn cofactor() -> (r: Fr)
        ensures
            r.val() == 1,
    {
        <Fr as OsstScalar>::one()
    }

    /// The identity.
    pub fn identity() -> (r: Decaf377Element)
        ensures
            r.0.log() == 0,
    {
        Decaf377Element(<Element as OsstPoint>::identity())
    }

    /// The generator.
    pub fn generator() -> (r: Decaf377Element)
        ensures
            r.0.log() == 1,
    {
        Decaf377Element(<Element as OsstPoint>::generator())
    }

    /// The encoding of an element, which the identity is refused.
    pub fn serialize(element: &Decaf377Element) -> (r: Result<[u8; 32], GroupError>)
        ensures
            r is Ok <==> element.0.log() != 0,
            r matches Ok(b) ==> b@ == <Element as OsstPoint>::encoding(element.0.log()),
            r matches Err(e) ==> e == GroupError::InvalidIdentityElement,
    {
        if element.equals(&Self::identity()) {
            return Err(GroupError::InvalidIdentityElement);
        }
        Ok(OsstPoint::compress(&element.0))
    }

    /// The element of an encoding. The encoding of the identity is refused.
    pub fn deserialize(buf: &[u8; 32]) -> (r: Result<Decaf377Element, GroupError>)
        ensures
            r is Ok <==> (<Element as OsstPoint>::decode(buf@) matches Some(k) && k != 0),
            r matches Ok(p) ==> <Element as OsstPoint>::decode(buf@) == Some(p.0.log()),
            r matches Err(GroupError::MalformedElement) ==> <Element as OsstPoint>::decode(buf@) is None,
            r matches Err(GroupError::InvalidIdentityElement) ==> <Element as OsstPoint>::decode(
                buf@,
            ) == Some(0int),
    {
        match <Element as OsstPoint>::decompress(buf) {
            None => Err(GroupError::MalformedElement),
            Some(p) => {
                let element = Decaf377Element(p);
                if element.equals(&Self::identity()) {
                    Err(GroupError::InvalidIdentityElement)
                } else {
                    Ok(element)
                }
            },
        }
    }
}

/// FROST(decaf377, SHA-512).
#[derive(Clone, Copy, Debug, PartialEq, Eq)]
pub struct Decaf377Sha512;

#[allow(non_snake_case)]
impl Decaf377Sha512 {
    /// H1, the binding factor hash.
    pub fn H1(m: &[u8]) -> (r: Fr)
        ensures
            r.val() == hash_value::<Fr>(suite_input(TAG_RHO@, m@)),
    {
        suite_scalar(&TAG_RHO, m)
    }

    /// H2, the challenge hash.
    pub fn H2(m: &[u8]) -> (r: Fr)
        ensures
            r.val() == hash_value::<Fr>(suite_input(TAG_CHAL@, m@)),
    {
        suite_scalar(&TAG_CHAL, m)
    }

    /// H3, the nonce generation hash.
    pub fn H3(m: &[u8]) -> (r: Fr)
        ensures
            r.val() == hash_value::<Fr>(suite_input(TAG_NONCE@, m@)),
    {
        suite_scalar(&TAG_NONCE, m)
    }

    /// H4, the message hash.
    pub fn H4(m: &[u8]) -> (r: [u8; 64])
        ensures
            r@ == sha512_digest(suite_input(TAG_MSG@, m@)),
    {
        suite_array(&TAG_MSG, m)
    }

    /// H5, the commitment hash.
    pub fn H5(m: &[u8]) -> (r: [u8; 64])
        ensures
            r@ == sha512_digest(suite_input(TAG_COM@, m@)),
    {
        suite_array(&TAG_COM, m)
    }

    /// HDKG, the proof-of-knowledge hash of key generation, which the suite has.
    pub fn HDKG(m: &[u8]) -> (r: Option<Fr>)
        ensures
            r matches Some(s) && s.val() == hash_value::<Fr>(suite_input(TAG_DKG@, m@)),
    {
        Some(suite_scalar(&TAG_DKG, m))
    }

    /// HID, the identifier derivation hash, which the suite has.
    pub fn HID(m: &[u8]) -> (r: Option<Fr>)
        ensures
            r matches Some(s) && s.val() == hash_value::<Fr>(suite_input(TAG_ID@, m@)),
    {
        Some(suite_scalar(&TAG_ID, m))
    }
}

/// No two hashes of the suite can be confused: where two inputs are the same, they
/// are inputs of one hash, on the same bytes.
pub proof fn law_suite_inputs_separated(
    tag: Seq<u8>,
    m: Seq<u8>,
    other_tag: Seq<u8>,
    other: Seq<u8>,
)
    requires
        suite_tags().contains(tag),
        suite_tags().contains(other_tag),
        suite_input(tag, m) == suite_input(other_tag, other),
    ensures
        tag == other_tag,
        m == other,
{
    let a = suite_input(tag, m);
    let b = suite_input(other_tag, other);
    assert(CONTEXT_STRING@.len() == 24);
    assert(a.subrange(24, a.len() as int) =~= tag + m);
    assert(b.subrange(24, b.len() as int) =~= other_tag + other);
    let s = tag + m;
    let t = other_tag + other;
    assert(s == t);
    assert(tag.len() >= 2 && other_tag.len() >= 2);
    assert(s[0] == tag[0] && t[0] == other_tag[0]);
    assert(s[1] == tag[1] && t[1] == other_tag[1]);
    assert(tag =~= other_tag);
    assert(m =~= s.subrange(tag.len() as int, s.len() as int));
    assert(other =~= t.subrange(tag.len() as int, t.len() as int));
}

/// The tags of the suite's hashes.
pub open spec fn suite_tags() -> Set<Seq<u8>> {
    set![TAG_RHO@, TAG_CHAL@, TAG_NONCE@, TAG_MSG@, TAG_COM@, TAG_DKG@, TAG_ID@]
}

// ---------------------------------------------------------------------------
// Identifiers
// ---------------------------------------------------------------------------

/// The share index of an identifier: the integer that its little-endian bytes
/// denote, where it is neither zero nor too large.
pub open spec fn identifier_index(bytes: Seq<u8>) -> Option<u32> {
    if bytes.len() >= 4 && 0 < le_value(bytes) <= u32::MAX {
        Some(le_value(bytes) as u32)
    } else {
        None
    }
}

/// The first four bytes and the others.
proof fn lemma_low_word(b: Seq<u8>)
    requires
        b.len() >= 4,
    ensures
        le_value(b) == le_value(b.subrange(0, 4)) + 0x1_0000_0000 * le_value(
            b.subrange(4, b.len() as int),
        ),
{
    reveal_with_fuel(le_value, 5);
    let t = b.subrange(4, b.len() as int);
    let w = b.subrange(0, 4);
    assert(b.drop_first().drop_first().drop_first().drop_first() =~= t);
    assert(w.drop_first().drop_first().drop_first().drop_first() =~= Seq::empty());
    assert(le_value(w) == b[0] + 256 * (b[1] + 256 * (b[2] + 256 * (b[3] as int))));
    assert(le_value(b) == b[0] + 256 * (b[1] + 256 * (b[2] + 256 * (b[3] + 256 * le_value(t)))));
}

/// A value is zero exactly where every byte is.
proof fn lemma_zero_bytes(b: Seq<u8>)
    ensures
        le_value(b) >= 0,
        le_value(b) == 0 <==> forall|i: int| 0 <= i < b.len() ==> b[i] == 0,
    decreases b.len(),
{
    if b.len() > 0 {
        let t = b.drop_first();
        lemma_zero_bytes(t);
        if le_value(b) == 0 {
            assert forall|i: int| 0 <= i < b.len() implies b[i] == 0 by {
                if i > 0 {
                    assert(t[i - 1] == b[i]);
                }
            }
        }
        if forall|i: int| 0 <= i < b.len() ==> b[i] == 0 {
            assert forall|i: int| 0 <= i < t.len() implies t[i] == 0 by {
                assert(b[i + 1] == 0);
            }
        }
    }
}

/// The share index of an identifier, from its little-endian bytes.
///
/// Identifiers are field elements; shares are indexed by `u32`. For the
/// identifiers an implementation actually deals, small integers, the two agree,
/// and anything that does not fit is refused rather than truncated to a
/// different share.
///
/// # Errors
///
/// [`OsstError::InvalidIndex`] if the identifier is zero or does not fit.
pub fn identifier_to_index(bytes: &[u8]) -> (r: Result<u32, OsstError>)
    ensures
        r is Ok <==> identifier_index(bytes@) is Some,
        r matches Ok(i) ==> identifier_index(bytes@) == Some(i),
        r matches Err(e) ==> e == OsstError::InvalidIndex,
{
    if bytes.len() < 4 {
        return Err(OsstError::InvalidIndex);
    }
    let ghost tail = bytes@.subrange(4, bytes@.len() as int);
    proof {
        lemma_low_word(bytes@);
        lemma_zero_bytes(tail);
        lemma_byte_bounds();
        lemma_le_value(bytes@.subrange(0, 4));
    }
    let mut i: usize = 4;
    while i < bytes.len()
        invariant
            4 <= i <= bytes@.len(),
            tail == bytes@.subrange(4, bytes@.len() as int),
            forall|j: int| 0 <= j < i - 4 ==> tail[j] == 0,
            le_value(tail) == 0 <==> forall|i: int| 0 <= i < tail.len() ==> tail[i] == 0,
            le_value(tail) >= 0,
            le_value(bytes@) == le_value(bytes@.subrange(0, 4)) + 0x1_0000_0000 * le_value(tail),
            le_value(bytes@.subrange(0, 4)) >= 0,
        decreases bytes@.len() - i,
    {
        if bytes[i] != 0 {
            assert(tail[i - 4] != 0);
            return Err(OsstError::InvalidIndex);
        }
        i += 1;
    }
    assert(le_value(tail) == 0);
    let v = get_u32(bytes, 0);
    if v == 0 {
        return Err(OsstError::InvalidIndex);
    }
    Ok(v)
}

// ---------------------------------------------------------------------------
// The suites
// ---------------------------------------------------------------------------

/// `frost_ristretto255::Ristretto255Sha512`: a ciphersuite.
#[verifier::external_type_specification]
#[verifier::external_body]
pub struct ExRistretto255Sha512(frost_ristretto255::Ristretto255Sha512);

/// `frost_secp256k1::Secp256K1Sha256`: a ciphersuite.
#[verifier::external_type_specification]
#[verifier::external_body]
pub struct ExSecp256K1Sha256(frost_secp256k1::Secp256K1Sha256);

/// `frost_secp256k1_tr::Secp256K1Sha256TR`: a ciphersuite.
#[verifier::external_type_specification]
#[verifier::external_body]
pub struct ExSecp256K1Sha256TR(frost_secp256k1_tr::Secp256K1Sha256TR);

/// The bytes of some arrays.
pub open spec fn array_views(s: Seq<[u8; 32]>) -> Seq<Seq<u8>> {
    Seq::new(s.len(), |i: int| s[i]@)
}

/// The bytes of some pairs of arrays.
pub open spec fn pair_views(s: Seq<([u8; 32], [u8; 32])>) -> Seq<(Seq<u8>, Seq<u8>)> {
    Seq::new(s.len(), |i: int| (s[i].0@, s[i].1@))
}

/// The identifiers of some binding factors.
pub open spec fn factor_identifiers(factors: Seq<(Seq<u8>, Seq<u8>)>) -> Seq<Seq<u8>> {
    Seq::new(factors.len(), |i: int| factors[i].0)
}

/// Every factor is the encoding of a scalar.
pub open spec fn are_scalars<S: OsstScalar>(factors: Seq<(Seq<u8>, Seq<u8>)>) -> bool {
    forall|i: int| 0 <= i < factors.len() ==> decode_scalar::<S>(#[trigger] factors[i].1) is Some
}

/// A ciphersuite of `frost-core` whose scalars are those of a curve backend.
pub trait ZfSuite {
    /// The scalar field.
    type Scalar: OsstScalar;

    /// The identifiers of a serialized package.
    spec fn identifiers_of(package: Seq<u8>) -> Option<Seq<Seq<u8>>>;

    /// The message of a serialized package.
    spec fn message_of(package: Seq<u8>) -> Option<Seq<u8>>;

    /// The binding factors of a serialized package, each with its identifier.
    spec fn factors_of(package: Seq<u8>, verifying_key: Seq<u8>, prefix: Seq<u8>) -> Option<
        Seq<(Seq<u8>, Seq<u8>)>,
    >;

    /// The group commitment of a serialized package.
    spec fn commitment_of(package: Seq<u8>, verifying_key: Seq<u8>, prefix: Seq<u8>) -> Option<
        Seq<u8>,
    >;

    /// The challenge.
    spec fn challenge_of(commitment: Seq<u8>, verifying_key: Seq<u8>, message: Seq<u8>) -> Option<
        Seq<u8>,
    >;

    /// The identifiers of a serialized package, little-endian.
    fn identifiers(package: &[u8]) -> (r: Option<Vec<[u8; 32]>>)
        ensures
            r is Some <==> Self::identifiers_of(package@) is Some,
            r matches Some(v) ==> Self::identifiers_of(package@) == Some(array_views(v@)),
    ;

    /// The message of a serialized package.
    fn message(package: &[u8]) -> (r: Option<Vec<u8>>)
        ensures
            r is Some <==> Self::message_of(package@) is Some,
            r matches Some(v) ==> Self::message_of(package@) == Some(v@),
    ;

    /// The binding factors of a serialized package, each after its identifier,
    /// little-endian.
    fn binding_factors(package: &[u8], verifying_key: &[u8], prefix: &[u8]) -> (r: Option<
        Vec<([u8; 32], [u8; 32])>,
    >)
        ensures
            r is Some <==> Self::factors_of(package@, verifying_key@, prefix@) is Some,
            r matches Some(v) ==> Self::factors_of(package@, verifying_key@, prefix@) == Some(
                pair_views(v@),
            ),
            r matches Some(v) ==> Self::identifiers_of(package@) == Some(
                factor_identifiers(pair_views(v@)),
            ),
            r matches Some(v) ==> are_scalars::<Self::Scalar>(pair_views(v@)),
    ;

    /// The group commitment of a serialized package.
    fn group_commitment(package: &[u8], verifying_key: &[u8], prefix: &[u8]) -> (r: Option<Vec<u8>>)
        ensures
            r is Some <==> Self::commitment_of(package@, verifying_key@, prefix@) is Some,
            r matches Some(v) ==> Self::commitment_of(package@, verifying_key@, prefix@) == Some(
                v@,
            ),
    ;

    /// The challenge of a group commitment, a key and a message.
    fn challenge(commitment: &[u8], verifying_key: &[u8], message: &[u8]) -> (r: Option<[u8; 32]>)
        ensures
            r is Some <==> Self::challenge_of(commitment@, verifying_key@, message@) is Some,
            r matches Some(b) ==> Self::challenge_of(commitment@, verifying_key@, message@) == Some(
                b@,
            ),
            r matches Some(b) ==> decode_scalar::<Self::Scalar>(b@) is Some,
    ;
}

/// The identifiers of a ristretto255 package, little-endian, in ascending order.
pub uninterp spec fn ristretto_identifiers(package: Seq<u8>) -> Option<Seq<Seq<u8>>>;

/// The message of a ristretto255 package.
pub uninterp spec fn ristretto_message(package: Seq<u8>) -> Option<Seq<u8>>;

/// The binding factors of a ristretto255 package, each after its identifier.
pub uninterp spec fn ristretto_factors(
    package: Seq<u8>,
    verifying_key: Seq<u8>,
    prefix: Seq<u8>,
) -> Option<Seq<(Seq<u8>, Seq<u8>)>>;

/// The group commitment of a ristretto255 package.
pub uninterp spec fn ristretto_commitment(
    package: Seq<u8>,
    verifying_key: Seq<u8>,
    prefix: Seq<u8>,
) -> Option<Seq<u8>>;

/// The challenge of a ristretto255 group commitment, key and message.
pub uninterp spec fn ristretto_challenge(
    commitment: Seq<u8>,
    verifying_key: Seq<u8>,
    message: Seq<u8>,
) -> Option<Seq<u8>>;

/// `SigningPackage::signing_commitments` of `frost_core`, of the package that
/// `SigningPackage::deserialize` reads: its identifiers, by
/// `Field::little_endian_serialize`. A function of the package's bytes alone.
#[verifier::external_body]
fn read_ristretto_identifiers(package: &[u8]) -> (r: Option<Vec<[u8; 32]>>)
    ensures
        r is Some <==> ristretto_identifiers(package@) is Some,
        r matches Some(v) ==> ristretto_identifiers(package@) == Some(array_views(v@)),
{
    let package = frost_ristretto255::SigningPackage::deserialize(package).ok()?;
    let ids = package.signing_commitments().keys();
    Some(ids.map(|id| RistrettoScalarField::little_endian_serialize(&id.to_scalar())).collect())
}

/// `SigningPackage::message` of `frost_core`, of the package that
/// `SigningPackage::deserialize` reads: a function of the package's bytes alone.
#[verifier::external_body]
fn read_ristretto_message(package: &[u8]) -> (r: Option<Vec<u8>>)
    ensures
        r is Some <==> ristretto_message(package@) is Some,
        r matches Some(v) ==> ristretto_message(package@) == Some(v@),
{
    let package = frost_ristretto255::SigningPackage::deserialize(package).ok()?;
    Some(package.message().clone())
}

/// `frost_core::compute_binding_factor_list`, on the package and the key of some
/// bytes: the factor of each identifier of the package, both serialized, and each
/// factor a canonical scalar. A function of its arguments alone; there is none where
/// the package or the key cannot be read, or a commitment cannot be serialized.
#[verifier::external_body]
fn compute_ristretto_factors(package: &[u8], verifying_key: &[u8], prefix: &[u8]) -> (r: Option<
    Vec<([u8; 32], [u8; 32])>,
>)
    ensures
        r is Some <==> ristretto_factors(package@, verifying_key@, prefix@) is Some,
        r matches Some(v) ==> ristretto_factors(package@, verifying_key@, prefix@) == Some(
            pair_views(v@),
        ),
        r matches Some(v) ==> ristretto_identifiers(package@) == Some(
            factor_identifiers(pair_views(v@)),
        ),
        r matches Some(v) ==> are_scalars::<curve25519_dalek::scalar::Scalar>(pair_views(v@)),
{
    let package = frost_ristretto255::SigningPackage::deserialize(package).ok()?;
    let key = frost_ristretto255::VerifyingKey::deserialize(verifying_key).ok()?;
    let factors = frost_core::compute_binding_factor_list(&package, &key, prefix).ok()?;
    let mut out = Vec::new();
    for id in package.signing_commitments().keys() {
        let factor = factors.get(id)?.serialize().try_into().ok()?;
        out.push((RistrettoScalarField::little_endian_serialize(&id.to_scalar()), factor));
    }
    Some(out)
}

/// `frost_core::compute_group_commitment`, on the package of some bytes and its
/// list of binding factors, which has no encoding of its own and so is computed
/// from the key and the prefix: the serialized element. A function of its
/// arguments alone; there is none where the package or the key cannot be read, or
/// an element involved is the identity.
#[verifier::external_body]
fn compute_ristretto_commitment(package: &[u8], verifying_key: &[u8], prefix: &[u8]) -> (r: Option<
    Vec<u8>,
>)
    ensures
        r is Some <==> ristretto_commitment(package@, verifying_key@, prefix@) is Some,
        r matches Some(v) ==> ristretto_commitment(package@, verifying_key@, prefix@) == Some(v@),
{
    let package = frost_ristretto255::SigningPackage::deserialize(package).ok()?;
    let key = frost_ristretto255::VerifyingKey::deserialize(verifying_key).ok()?;
    let factors = frost_core::compute_binding_factor_list(&package, &key, prefix).ok()?;
    let r = frost_core::compute_group_commitment(&package, &factors).ok()?;
    Some(RistrettoGroup::serialize(&r.to_element()).ok()?.to_vec())
}

/// `frost_core::challenge`, on the element and the key of some bytes and a
/// message: the serialized scalar, which is canonical. A function of its arguments
/// alone; there is none where the element or the key cannot be read.
#[verifier::external_body]
fn compute_ristretto_challenge(commitment: &[u8], verifying_key: &[u8], message: &[u8]) -> (r: Option<
    [u8; 32],
>)
    ensures
        r is Some <==> ristretto_challenge(commitment@, verifying_key@, message@) is Some,
        r matches Some(b) ==> ristretto_challenge(commitment@, verifying_key@, message@) == Some(b@),
        r matches Some(b) ==> decode_scalar::<curve25519_dalek::scalar::Scalar>(b@) is Some,
{
    let r = RistrettoGroup::deserialize(commitment.try_into().ok()?).ok()?;
    let key = frost_ristretto255::VerifyingKey::deserialize(verifying_key).ok()?;
    let c = frost_core::challenge(&r, &key, message).ok()?;
    Some(RistrettoScalarField::serialize(&c.to_scalar()))
}

impl ZfSuite for Ristretto255Sha512 {
    type Scalar = curve25519_dalek::scalar::Scalar;

    open spec fn identifiers_of(package: Seq<u8>) -> Option<Seq<Seq<u8>>> {
        ristretto_identifiers(package)
    }

    open spec fn message_of(package: Seq<u8>) -> Option<Seq<u8>> {
        ristretto_message(package)
    }

    open spec fn factors_of(package: Seq<u8>, verifying_key: Seq<u8>, prefix: Seq<u8>) -> Option<
        Seq<(Seq<u8>, Seq<u8>)>,
    > {
        ristretto_factors(package, verifying_key, prefix)
    }

    open spec fn commitment_of(package: Seq<u8>, verifying_key: Seq<u8>, prefix: Seq<u8>) -> Option<
        Seq<u8>,
    > {
        ristretto_commitment(package, verifying_key, prefix)
    }

    open spec fn challenge_of(
        commitment: Seq<u8>,
        verifying_key: Seq<u8>,
        message: Seq<u8>,
    ) -> Option<Seq<u8>> {
        ristretto_challenge(commitment, verifying_key, message)
    }

    fn identifiers(package: &[u8]) -> (r: Option<Vec<[u8; 32]>>) {
        read_ristretto_identifiers(package)
    }

    fn message(package: &[u8]) -> (r: Option<Vec<u8>>) {
        read_ristretto_message(package)
    }

    fn binding_factors(package: &[u8], verifying_key: &[u8], prefix: &[u8]) -> (r: Option<
        Vec<([u8; 32], [u8; 32])>,
    >) {
        compute_ristretto_factors(package, verifying_key, prefix)
    }

    fn group_commitment(package: &[u8], verifying_key: &[u8], prefix: &[u8]) -> (r: Option<
        Vec<u8>,
    >) {
        compute_ristretto_commitment(package, verifying_key, prefix)
    }

    fn challenge(commitment: &[u8], verifying_key: &[u8], message: &[u8]) -> (r: Option<
        [u8; 32],
    >) {
        compute_ristretto_challenge(commitment, verifying_key, message)
    }
}

/// The identifiers of a secp256k1 package, little-endian, in ascending order.
pub uninterp spec fn secp256k1_identifiers(package: Seq<u8>) -> Option<Seq<Seq<u8>>>;

/// The message of a secp256k1 package.
pub uninterp spec fn secp256k1_message(package: Seq<u8>) -> Option<Seq<u8>>;

/// The binding factors of a secp256k1 package, each after its identifier.
pub uninterp spec fn secp256k1_factors(
    package: Seq<u8>,
    verifying_key: Seq<u8>,
    prefix: Seq<u8>,
) -> Option<Seq<(Seq<u8>, Seq<u8>)>>;

/// The group commitment of a secp256k1 package.
pub uninterp spec fn secp256k1_commitment(
    package: Seq<u8>,
    verifying_key: Seq<u8>,
    prefix: Seq<u8>,
) -> Option<Seq<u8>>;

/// The challenge of a secp256k1 group commitment, key and message.
pub uninterp spec fn secp256k1_challenge(
    commitment: Seq<u8>,
    verifying_key: Seq<u8>,
    message: Seq<u8>,
) -> Option<Seq<u8>>;

/// `SigningPackage::signing_commitments` of `frost_core`, of the package that
/// `SigningPackage::deserialize` reads: its identifiers, by
/// `Field::little_endian_serialize`. A function of the package's bytes alone.
#[verifier::external_body]
fn read_secp256k1_identifiers(package: &[u8]) -> (r: Option<Vec<[u8; 32]>>)
    ensures
        r is Some <==> secp256k1_identifiers(package@) is Some,
        r matches Some(v) ==> secp256k1_identifiers(package@) == Some(array_views(v@)),
{
    let package = frost_secp256k1::SigningPackage::deserialize(package).ok()?;
    let ids = package.signing_commitments().keys();
    Some(ids.map(|id| frost_secp256k1::Secp256K1ScalarField::little_endian_serialize(&id.to_scalar())).collect())
}

/// `SigningPackage::message` of `frost_core`, of the package that
/// `SigningPackage::deserialize` reads: a function of the package's bytes alone.
#[verifier::external_body]
fn read_secp256k1_message(package: &[u8]) -> (r: Option<Vec<u8>>)
    ensures
        r is Some <==> secp256k1_message(package@) is Some,
        r matches Some(v) ==> secp256k1_message(package@) == Some(v@),
{
    let package = frost_secp256k1::SigningPackage::deserialize(package).ok()?;
    Some(package.message().clone())
}

/// `frost_core::compute_binding_factor_list`, on the package and the key of some
/// bytes: the factor of each identifier of the package, both serialized, and each
/// factor a canonical scalar. A function of its arguments alone; there is none where
/// the package or the key cannot be read, or a commitment cannot be serialized.
#[verifier::external_body]
fn compute_secp256k1_factors(package: &[u8], verifying_key: &[u8], prefix: &[u8]) -> (r: Option<
    Vec<([u8; 32], [u8; 32])>,
>)
    ensures
        r is Some <==> secp256k1_factors(package@, verifying_key@, prefix@) is Some,
        r matches Some(v) ==> secp256k1_factors(package@, verifying_key@, prefix@) == Some(
            pair_views(v@),
        ),
        r matches Some(v) ==> secp256k1_identifiers(package@) == Some(
            factor_identifiers(pair_views(v@)),
        ),
        r matches Some(v) ==> are_scalars::<k256::Scalar>(pair_views(v@)),
{
    let package = frost_secp256k1::SigningPackage::deserialize(package).ok()?;
    let key = frost_secp256k1::VerifyingKey::deserialize(verifying_key).ok()?;
    let factors = frost_core::compute_binding_factor_list(&package, &key, prefix).ok()?;
    let mut out = Vec::new();
    for id in package.signing_commitments().keys() {
        let factor = factors.get(id)?.serialize().try_into().ok()?;
        out.push((frost_secp256k1::Secp256K1ScalarField::little_endian_serialize(&id.to_scalar()), factor));
    }
    Some(out)
}

/// `frost_core::compute_group_commitment`, on the package of some bytes and its
/// list of binding factors, which has no encoding of its own and so is computed
/// from the key and the prefix: the serialized element. A function of its
/// arguments alone; there is none where the package or the key cannot be read, or
/// an element involved is the identity.
#[verifier::external_body]
fn compute_secp256k1_commitment(package: &[u8], verifying_key: &[u8], prefix: &[u8]) -> (r: Option<
    Vec<u8>,
>)
    ensures
        r is Some <==> secp256k1_commitment(package@, verifying_key@, prefix@) is Some,
        r matches Some(v) ==> secp256k1_commitment(package@, verifying_key@, prefix@) == Some(v@),
{
    let package = frost_secp256k1::SigningPackage::deserialize(package).ok()?;
    let key = frost_secp256k1::VerifyingKey::deserialize(verifying_key).ok()?;
    let factors = frost_core::compute_binding_factor_list(&package, &key, prefix).ok()?;
    let r = frost_core::compute_group_commitment(&package, &factors).ok()?;
    Some(frost_secp256k1::Secp256K1Group::serialize(&r.to_element()).ok()?.to_vec())
}

/// `frost_core::challenge`, on the element and the key of some bytes and a
/// message: the serialized scalar, which is canonical. A function of its arguments
/// alone; there is none where the element or the key cannot be read.
#[verifier::external_body]
fn compute_secp256k1_challenge(commitment: &[u8], verifying_key: &[u8], message: &[u8]) -> (r: Option<
    [u8; 32],
>)
    ensures
        r is Some <==> secp256k1_challenge(commitment@, verifying_key@, message@) is Some,
        r matches Some(b) ==> secp256k1_challenge(commitment@, verifying_key@, message@) == Some(b@),
        r matches Some(b) ==> decode_scalar::<k256::Scalar>(b@) is Some,
{
    let r = frost_secp256k1::Secp256K1Group::deserialize(commitment.try_into().ok()?).ok()?;
    let key = frost_secp256k1::VerifyingKey::deserialize(verifying_key).ok()?;
    let c = frost_core::challenge(&r, &key, message).ok()?;
    Some(frost_secp256k1::Secp256K1ScalarField::serialize(&c.to_scalar()))
}

impl ZfSuite for Secp256K1Sha256 {
    type Scalar = k256::Scalar;

    open spec fn identifiers_of(package: Seq<u8>) -> Option<Seq<Seq<u8>>> {
        secp256k1_identifiers(package)
    }

    open spec fn message_of(package: Seq<u8>) -> Option<Seq<u8>> {
        secp256k1_message(package)
    }

    open spec fn factors_of(package: Seq<u8>, verifying_key: Seq<u8>, prefix: Seq<u8>) -> Option<
        Seq<(Seq<u8>, Seq<u8>)>,
    > {
        secp256k1_factors(package, verifying_key, prefix)
    }

    open spec fn commitment_of(package: Seq<u8>, verifying_key: Seq<u8>, prefix: Seq<u8>) -> Option<
        Seq<u8>,
    > {
        secp256k1_commitment(package, verifying_key, prefix)
    }

    open spec fn challenge_of(
        commitment: Seq<u8>,
        verifying_key: Seq<u8>,
        message: Seq<u8>,
    ) -> Option<Seq<u8>> {
        secp256k1_challenge(commitment, verifying_key, message)
    }

    fn identifiers(package: &[u8]) -> (r: Option<Vec<[u8; 32]>>) {
        read_secp256k1_identifiers(package)
    }

    fn message(package: &[u8]) -> (r: Option<Vec<u8>>) {
        read_secp256k1_message(package)
    }

    fn binding_factors(package: &[u8], verifying_key: &[u8], prefix: &[u8]) -> (r: Option<
        Vec<([u8; 32], [u8; 32])>,
    >) {
        compute_secp256k1_factors(package, verifying_key, prefix)
    }

    fn group_commitment(package: &[u8], verifying_key: &[u8], prefix: &[u8]) -> (r: Option<
        Vec<u8>,
    >) {
        compute_secp256k1_commitment(package, verifying_key, prefix)
    }

    fn challenge(commitment: &[u8], verifying_key: &[u8], message: &[u8]) -> (r: Option<
        [u8; 32],
    >) {
        compute_secp256k1_challenge(commitment, verifying_key, message)
    }
}

/// The identifiers of a Taproot package, little-endian, in ascending order.
pub uninterp spec fn taproot_identifiers(package: Seq<u8>) -> Option<Seq<Seq<u8>>>;

/// The message of a Taproot package.
pub uninterp spec fn taproot_message(package: Seq<u8>) -> Option<Seq<u8>>;

/// The binding factors of a Taproot package, each after its identifier.
pub uninterp spec fn taproot_factors(
    package: Seq<u8>,
    verifying_key: Seq<u8>,
    prefix: Seq<u8>,
) -> Option<Seq<(Seq<u8>, Seq<u8>)>>;

/// The group commitment of a Taproot package.
pub uninterp spec fn taproot_commitment(
    package: Seq<u8>,
    verifying_key: Seq<u8>,
    prefix: Seq<u8>,
) -> Option<Seq<u8>>;

/// The challenge of a Taproot group commitment, key and message.
pub uninterp spec fn taproot_challenge(
    commitment: Seq<u8>,
    verifying_key: Seq<u8>,
    message: Seq<u8>,
) -> Option<Seq<u8>>;

/// `SigningPackage::signing_commitments` of `frost_core`, of the package that
/// `SigningPackage::deserialize` reads: its identifiers, by
/// `Field::little_endian_serialize`. A function of the package's bytes alone.
#[verifier::external_body]
fn read_taproot_identifiers(package: &[u8]) -> (r: Option<Vec<[u8; 32]>>)
    ensures
        r is Some <==> taproot_identifiers(package@) is Some,
        r matches Some(v) ==> taproot_identifiers(package@) == Some(array_views(v@)),
{
    let package = frost_secp256k1_tr::SigningPackage::deserialize(package).ok()?;
    let ids = package.signing_commitments().keys();
    Some(ids.map(|id| frost_secp256k1_tr::Secp256K1ScalarField::little_endian_serialize(&id.to_scalar())).collect())
}

/// `SigningPackage::message` of `frost_core`, of the package that
/// `SigningPackage::deserialize` reads: a function of the package's bytes alone.
#[verifier::external_body]
fn read_taproot_message(package: &[u8]) -> (r: Option<Vec<u8>>)
    ensures
        r is Some <==> taproot_message(package@) is Some,
        r matches Some(v) ==> taproot_message(package@) == Some(v@),
{
    let package = frost_secp256k1_tr::SigningPackage::deserialize(package).ok()?;
    Some(package.message().clone())
}

/// `frost_core::compute_binding_factor_list`, on the package and the key of some
/// bytes: the factor of each identifier of the package, both serialized, and each
/// factor a canonical scalar. A function of its arguments alone; there is none where
/// the package or the key cannot be read, or a commitment cannot be serialized.
#[verifier::external_body]
fn compute_taproot_factors(package: &[u8], verifying_key: &[u8], prefix: &[u8]) -> (r: Option<
    Vec<([u8; 32], [u8; 32])>,
>)
    ensures
        r is Some <==> taproot_factors(package@, verifying_key@, prefix@) is Some,
        r matches Some(v) ==> taproot_factors(package@, verifying_key@, prefix@) == Some(
            pair_views(v@),
        ),
        r matches Some(v) ==> taproot_identifiers(package@) == Some(
            factor_identifiers(pair_views(v@)),
        ),
        r matches Some(v) ==> are_scalars::<k256::Scalar>(pair_views(v@)),
{
    let package = frost_secp256k1_tr::SigningPackage::deserialize(package).ok()?;
    let key = frost_secp256k1_tr::VerifyingKey::deserialize(verifying_key).ok()?;
    let factors = frost_core::compute_binding_factor_list(&package, &key, prefix).ok()?;
    let mut out = Vec::new();
    for id in package.signing_commitments().keys() {
        let factor = factors.get(id)?.serialize().try_into().ok()?;
        out.push((frost_secp256k1_tr::Secp256K1ScalarField::little_endian_serialize(&id.to_scalar()), factor));
    }
    Some(out)
}

/// `frost_core::compute_group_commitment`, on the package of some bytes and its
/// list of binding factors, which has no encoding of its own and so is computed
/// from the key and the prefix: the serialized element. A function of its
/// arguments alone; there is none where the package or the key cannot be read, or
/// an element involved is the identity.
#[verifier::external_body]
fn compute_taproot_commitment(package: &[u8], verifying_key: &[u8], prefix: &[u8]) -> (r: Option<
    Vec<u8>,
>)
    ensures
        r is Some <==> taproot_commitment(package@, verifying_key@, prefix@) is Some,
        r matches Some(v) ==> taproot_commitment(package@, verifying_key@, prefix@) == Some(v@),
{
    let package = frost_secp256k1_tr::SigningPackage::deserialize(package).ok()?;
    let key = frost_secp256k1_tr::VerifyingKey::deserialize(verifying_key).ok()?;
    let factors = frost_core::compute_binding_factor_list(&package, &key, prefix).ok()?;
    let r = frost_core::compute_group_commitment(&package, &factors).ok()?;
    Some(frost_secp256k1_tr::Secp256K1Group::serialize(&r.to_element()).ok()?.to_vec())
}

/// `frost_core::challenge`, on the element and the key of some bytes and a
/// message: the serialized scalar, which is canonical. A function of its arguments
/// alone; there is none where the element or the key cannot be read.
#[verifier::external_body]
fn compute_taproot_challenge(commitment: &[u8], verifying_key: &[u8], message: &[u8]) -> (r: Option<
    [u8; 32],
>)
    ensures
        r is Some <==> taproot_challenge(commitment@, verifying_key@, message@) is Some,
        r matches Some(b) ==> taproot_challenge(commitment@, verifying_key@, message@) == Some(b@),
        r matches Some(b) ==> decode_scalar::<k256::Scalar>(b@) is Some,
{
    let r = frost_secp256k1_tr::Secp256K1Group::deserialize(commitment.try_into().ok()?).ok()?;
    let key = frost_secp256k1_tr::VerifyingKey::deserialize(verifying_key).ok()?;
    let c = frost_core::challenge(&r, &key, message).ok()?;
    Some(frost_secp256k1_tr::Secp256K1ScalarField::serialize(&c.to_scalar()))
}

impl ZfSuite for Secp256K1Sha256TR {
    type Scalar = k256::Scalar;

    open spec fn identifiers_of(package: Seq<u8>) -> Option<Seq<Seq<u8>>> {
        taproot_identifiers(package)
    }

    open spec fn message_of(package: Seq<u8>) -> Option<Seq<u8>> {
        taproot_message(package)
    }

    open spec fn factors_of(package: Seq<u8>, verifying_key: Seq<u8>, prefix: Seq<u8>) -> Option<
        Seq<(Seq<u8>, Seq<u8>)>,
    > {
        taproot_factors(package, verifying_key, prefix)
    }

    open spec fn commitment_of(package: Seq<u8>, verifying_key: Seq<u8>, prefix: Seq<u8>) -> Option<
        Seq<u8>,
    > {
        taproot_commitment(package, verifying_key, prefix)
    }

    open spec fn challenge_of(
        commitment: Seq<u8>,
        verifying_key: Seq<u8>,
        message: Seq<u8>,
    ) -> Option<Seq<u8>> {
        taproot_challenge(commitment, verifying_key, message)
    }

    fn identifiers(package: &[u8]) -> (r: Option<Vec<[u8; 32]>>) {
        read_taproot_identifiers(package)
    }

    fn message(package: &[u8]) -> (r: Option<Vec<u8>>) {
        read_taproot_message(package)
    }

    fn binding_factors(package: &[u8], verifying_key: &[u8], prefix: &[u8]) -> (r: Option<
        Vec<([u8; 32], [u8; 32])>,
    >) {
        compute_taproot_factors(package, verifying_key, prefix)
    }

    fn group_commitment(package: &[u8], verifying_key: &[u8], prefix: &[u8]) -> (r: Option<
        Vec<u8>,
    >) {
        compute_taproot_commitment(package, verifying_key, prefix)
    }

    fn challenge(commitment: &[u8], verifying_key: &[u8], message: &[u8]) -> (r: Option<
        [u8; 32],
    >) {
        compute_taproot_challenge(commitment, verifying_key, message)
    }
}

// ---------------------------------------------------------------------------
// The outer context
// ---------------------------------------------------------------------------

/// The share indices of some identifiers.
pub open spec fn identifier_indices(ids: Seq<Seq<u8>>) -> Seq<u32> {
    Seq::new(ids.len(), |i: int| identifier_index(ids[i])->0)
}

/// The outer context from what `frost-core` computed, or why there is none.
pub open spec fn context_outcome<S: OsstScalar>(
    ids: Seq<Seq<u8>>,
    nested_index: u32,
    rho: Result<Seq<u8>, OsstError>,
    challenge: Option<Seq<u8>>,
) -> Result<ParamsView, OsstError> {
    let indices = identifier_indices(ids);
    if exists|i: int| 0 <= i < ids.len() && identifier_index(#[trigger] ids[i]) is None {
        Err(OsstError::InvalidIndex)
    } else if !indices.contains(nested_index) {
        Err(OsstError::InvalidIndex)
    } else if !indices.no_duplicates() {
        Err(OsstError::LagrangeError)
    } else if nested_index > u16::MAX {
        Err(OsstError::InvalidIndex)
    } else {
        match rho {
            Err(e) => Err(e),
            Ok(rho) => match decode_scalar::<S>(rho) {
                None => Err(OsstError::InvalidResponse),
                Some(binding) => match challenge {
                    None => Err(OsstError::InvalidCommitment),
                    Some(c) => match decode_scalar::<S>(c) {
                        None => Err(OsstError::InvalidResponse),
                        Some(challenge) => Ok(
                            ParamsView {
                                binding,
                                challenge,
                                lambda: coefficient_of(
                                    ascending_of(indices),
                                    nested_index,
                                    S::order(),
                                ),
                            },
                        ),
                    },
                },
            },
        }
    }
}

/// The outer context of a nested position from what `frost-core` computed: the
/// package's identifiers, the position's binding factor, or why there is none, and
/// the challenge.
///
/// # Errors
///
/// [`OsstError::InvalidIndex`] if an identifier does not fit an index or the
/// position is not among them or too large for `frost-core`'s numbering;
/// [`OsstError::LagrangeError`] if an identifier occurs twice;
/// the error of a missing binding factor; [`OsstError::InvalidCommitment`] if there
/// is no challenge; [`OsstError::InvalidResponse`] if one of the two is no scalar.
pub fn params_from_values<S: OsstScalar>(
    identifiers: &[[u8; 32]],
    nested_index: u32,
    rho: Result<[u8; 32], OsstError>,
    challenge: Option<[u8; 32]>,
) -> (r: Result<InnerSigningParamsV2<S>, OsstError>)
    ensures
        ({
            let outcome = context_outcome::<S>(
                array_views(identifiers@),
                nested_index,
                match rho {
                    Ok(b) => Ok(b@),
                    Err(e) => Err(e),
                },
                match challenge {
                    Some(b) => Some(b@),
                    None => None,
                },
            );
            &&& r matches Ok(p) ==> outcome == Ok::<ParamsView, OsstError>(p@)
            &&& r matches Err(e) ==> outcome == Err::<ParamsView, OsstError>(e)
        }),
{
    let ghost ids = array_views(identifiers@);
    let ghost want = identifier_indices(ids);
    let mut indices: Vec<u32> = Vec::new();
    let mut i: usize = 0;
    while i < identifiers.len()
        invariant
            i <= identifiers@.len(),
            ids == array_views(identifiers@),
            want == identifier_indices(ids),
            indices@ == want.subrange(0, i as int),
            forall|j: int| 0 <= j < i ==> identifier_index(#[trigger] ids[j]) is Some,
            forall|j: int| 0 <= j < i ==> want[j] != 0,
        decreases identifiers@.len() - i,
    {
        match identifier_to_index(&identifiers[i]) {
            Ok(k) => {
                assert(identifier_index(ids[i as int]) == Some(k));
                indices.push(k);
                assert(indices@ =~= want.subrange(0, i as int + 1));
            },
            Err(e) => {
                assert(identifier_index(ids[i as int]) is None);
                return Err(e)
            },
        }
        i += 1;
    }
    assert(indices@ =~= want);
    if !contains_index(&indices, nested_index) {
        return Err(OsstError::InvalidIndex);
    }
    assert(!want.contains(0));
    let sorted = match index_set(&indices) {
        Ok(v) => v,
        Err(_) => return Err(OsstError::LagrangeError),
    };
    proof {
        lemma_ascending_of(sorted@, want);
    }
    if nested_index > 65535 {
        return Err(OsstError::InvalidIndex);
    }
    let binding = match rho {
        Err(e) => return Err(e),
        Ok(b) => match S::from_canonical_bytes(&b) {
            Some(s) => s,
            None => return Err(OsstError::InvalidResponse),
        },
    };
    let c = match challenge {
        None => return Err(OsstError::InvalidCommitment),
        Some(b) => match S::from_canonical_bytes(&b) {
            Some(s) => s,
            None => return Err(OsstError::InvalidResponse),
        },
    };
    let lagrange = match compute_lagrange_coefficients::<S>(&sorted) {
        Ok(l) => l,
        Err(e) => return Err(e),
    };
    let pos = index_position(&sorted, nested_index);
    match pos {
        None => {
            assert(sorted@.contains(nested_index));
            Err(OsstError::InvalidIndex)
        },
        Some(k) => {
            assert(crate::curve::vals(lagrange@)[k as int] == lagrange@[k as int].val());
            Ok(InnerSigningParamsV2::from_parts(binding, c, lagrange[k]))
        },
    }
}

/// The binding factor of an index: that of the first identifier which is the index.
pub open spec fn factor_of(factors: Seq<(Seq<u8>, Seq<u8>)>, index: u32) -> Option<Seq<u8>>
    decreases factors.len(),
{
    if factors.len() == 0 {
        None
    } else if identifier_index(factors[0].0) == Some(index) {
        Some(factors[0].1)
    } else {
        factor_of(factors.drop_first(), index)
    }
}

/// The binding factor of an index, among those of a package.
///
/// # Errors
///
/// [`OsstError::InvalidIndex`] if no identifier is the index.
pub fn find_factor(factors: &[([u8; 32], [u8; 32])], index: u32) -> (r: Result<
    [u8; 32],
    OsstError,
>)
    ensures
        r is Ok <==> factor_of(pair_views(factors@), index) is Some,
        r matches Ok(b) ==> factor_of(pair_views(factors@), index) == Some(b@),
        r matches Err(e) ==> e == OsstError::InvalidIndex,
{
    let ghost all = pair_views(factors@);
    let mut i: usize = 0;
    assert(all.subrange(0, all.len() as int) =~= all);
    while i < factors.len()
        invariant
            i <= factors@.len(),
            all == pair_views(factors@),
            factor_of(all, index) == factor_of(all.subrange(i as int, all.len() as int), index),
        decreases factors@.len() - i,
    {
        let ghost rest = all.subrange(i as int, all.len() as int);
        assert(rest[0] == (factors@[i as int].0@, factors@[i as int].1@));
        assert(rest.drop_first() =~= all.subrange(i as int + 1, all.len() as int));
        let pair = factors[i];
        match identifier_to_index(&pair.0) {
            Ok(k) => {
                if k == index {
                    return Ok(pair.1);
                }
            },
            Err(_) => {},
        }
        i += 1;
    }
    Err(OsstError::InvalidIndex)
}

/// The binding factor of a nested position of a serialized package, or why there is
/// none.
pub open spec fn factor_outcome<Z: ZfSuite>(
    package: Seq<u8>,
    verifying_key: Seq<u8>,
    nested_index: u32,
) -> Result<Seq<u8>, OsstError> {
    match Z::factors_of(package, verifying_key, Seq::empty()) {
        None => Err(OsstError::InvalidCommitment),
        Some(factors) => match factor_of(factors, nested_index) {
            None => Err(OsstError::InvalidIndex),
            Some(b) => Ok(b),
        },
    }
}

/// The challenge of a serialized package: that of its group commitment and its
/// message.
pub open spec fn package_challenge<Z: ZfSuite>(
    package: Seq<u8>,
    verifying_key: Seq<u8>,
) -> Option<Seq<u8>> {
    match (Z::commitment_of(package, verifying_key, Seq::empty()), Z::message_of(package)) {
        (Some(commitment), Some(message)) => Z::challenge_of(commitment, verifying_key, message),
        _ => None,
    }
}

/// The outer context of a nested position of a serialized package, or why there
/// is none.
pub open spec fn zf_outcome<Z: ZfSuite>(
    package: Seq<u8>,
    verifying_key: Seq<u8>,
    nested_index: u32,
) -> Result<ParamsView, OsstError> {
    match Z::identifiers_of(package) {
        None => Err(OsstError::InvalidCommitment),
        Some(ids) => context_outcome::<Z::Scalar>(
            ids,
            nested_index,
            factor_outcome::<Z>(package, verifying_key, nested_index),
            package_challenge::<Z>(package, verifying_key),
        ),
    }
}

/// A serialized package has an outer context for a nested position: its identifiers
/// are distinct indices, the position is one of them and not too large for
/// `frost-core`'s numbering, and `frost-core` computes the binding factors and the
/// challenge.
pub open spec fn has_context<Z: ZfSuite>(
    package: Seq<u8>,
    verifying_key: Seq<u8>,
    nested_index: u32,
) -> bool {
    &&& Z::identifiers_of(package) matches Some(ids) && {
        &&& forall|i: int| 0 <= i < ids.len() ==> identifier_index(#[trigger] ids[i]) is Some
        &&& identifier_indices(ids).no_duplicates()
        &&& identifier_indices(ids).contains(nested_index)
    }
    &&& nested_index <= u16::MAX
    &&& Z::factors_of(package, verifying_key, Seq::empty()) is Some
    &&& package_challenge::<Z>(package, verifying_key) is Some
}

/// An index among the identifiers of some factors has a factor.
proof fn lemma_factor_found<S: OsstScalar>(
    factors: Seq<(Seq<u8>, Seq<u8>)>,
    at: int,
    index: u32,
)
    requires
        0 <= at < factors.len(),
        identifier_index(factors[at].0) == Some(index),
        are_scalars::<S>(factors),
    ensures
        factor_of(factors, index) matches Some(b) && decode_scalar::<S>(b) is Some,
    decreases factors.len(),
{
    if identifier_index(factors[0].0) != Some(index) {
        let rest = factors.drop_first();
        assert(rest[at - 1] == factors[at]);
        assert(are_scalars::<S>(rest)) by {
            assert forall|i: int| 0 <= i < rest.len() implies decode_scalar::<S>(
                #[trigger] rest[i].1,
            ) is Some by {
                assert(rest[i] == factors[i + 1]);
            }
        }
        lemma_factor_found::<S>(rest, at - 1, index);
    } else {
        assert(decode_scalar::<S>(factors[0].1) is Some);
    }
}

/// A position that is not among the identifiers of a package has no context in it,
/// whatever the package holds otherwise.
pub proof fn law_outside_position_refused<Z: ZfSuite>(
    package: Seq<u8>,
    verifying_key: Seq<u8>,
    nested_index: u32,
    ids: Seq<Seq<u8>>,
)
    requires
        Z::identifiers_of(package) == Some(ids),
        !identifier_indices(ids).contains(nested_index),
    ensures
        zf_outcome::<Z>(package, verifying_key, nested_index) == Err::<ParamsView, OsstError>(
            OsstError::InvalidIndex,
        ),
{
}

/// The outer FROST context an inner holder needs, recomputed from a serialized
/// `frost-core` signing package and verifying key.
///
/// The same three values as
/// [`InnerSigningParamsV2::from_outer`], derived locally all the same: it is what
/// lets a nested position sit inside a group that signs with `frost-core`.
///
/// # Errors
///
/// [`OsstError::InvalidCommitment`] if the package or the key cannot be read;
/// [`OsstError::InvalidIndex`] if the position has no binding factor; otherwise
/// those of [`params_from_values`].
pub fn inner_params_from_zf<Z: ZfSuite>(
    package: &[u8],
    verifying_key: &[u8],
    nested_index: u32,
) -> (r: Result<InnerSigningParamsV2<Z::Scalar>, OsstError>)
    ensures
        r is Ok <==> has_context::<Z>(package@, verifying_key@, nested_index),
        ({
            let outcome = zf_outcome::<Z>(package@, verifying_key@, nested_index);
            &&& r matches Ok(p) ==> outcome == Ok::<ParamsView, OsstError>(p@)
            &&& r matches Err(e) ==> outcome == Err::<ParamsView, OsstError>(e)
        }),
{
    let identifiers = match Z::identifiers(package) {
        Some(v) => v,
        None => return Err(OsstError::InvalidCommitment),
    };
    let prefix: Vec<u8> = Vec::new();
    assert(prefix@ =~= Seq::empty());
    let rho = match Z::binding_factors(package, verifying_key, &prefix) {
        Some(factors) => find_factor(&factors, nested_index),
        None => Err(OsstError::InvalidCommitment),
    };
    let commitment = Z::group_commitment(package, verifying_key, &prefix);
    let challenge = match (commitment, Z::message(package)) {
        (Some(commitment), Some(message)) => Z::challenge(&commitment, verifying_key, &message),
        _ => None,
    };
    proof {
        let ids = array_views(identifiers@);
        if has_context::<Z>(package@, verifying_key@, nested_index) {
            let factors = Z::factors_of(package@, verifying_key@, Seq::empty())->0;
            let at = choose|i: int|
                0 <= i < ids.len() && identifier_indices(ids)[i] == nested_index;
            assert(identifier_index(ids[at]) is Some);
            assert(factor_identifiers(factors) == ids);
            assert(factor_identifiers(factors)[at] == factors[at].0);
            lemma_factor_found::<Z::Scalar>(factors, at, nested_index);
        }
    }
    params_from_values::<Z::Scalar>(&identifiers, nested_index, rho, challenge)
}

// ---------------------------------------------------------------------------
// Laws
// ---------------------------------------------------------------------------

/// Distinct indices have one ascending order.
proof fn lemma_ordered(indices: Seq<u32>)
    requires
        indices.no_duplicates(),
    ensures
        ascending(ascending_of(indices)),
        ascending_of(indices).to_multiset() == indices.to_multiset(),
        ascending_of(indices).no_duplicates(),
        ascending_of(indices).len() == indices.len(),
        forall|d: u32| #[trigger] ascending_of(indices).contains(d) <==> indices.contains(d),
{
    broadcast use vstd::seq_lib::group_to_multiset_ensures;

    let set = indices.to_set();
    let t = ascending_set(set);
    lemma_ascending_set(set);
    indices.unique_seq_to_set();
    assert(t.no_duplicates()) by {
        assert forall|i: int, j: int| 0 <= i < t.len() && 0 <= j < t.len() && i != j implies t[i]
            != t[j] by {
            if i < j {
                assert(t[i] < t[j]);
            } else {
                assert(t[j] < t[i]);
            }
        }
    }
    t.unique_seq_to_set();
    assert forall|i: int| 0 <= i < t.len() implies indices.contains(#[trigger] t[i]) by {
        assert(t.to_set().contains(t[i]));
        assert(set.contains(t[i]));
    }
    lemma_same_multiset(t, indices);
    lemma_ascending_of(t, indices);
    assert forall|d: u32| #[trigger] t.contains(d) <==> indices.contains(d) by {
        assert(t.to_set().contains(d) <==> set.contains(d));
    }
}

/// Where an index stands in ascending order.
proof fn lemma_place(t: Seq<u32>, k: int)
    requires
        ascending(t),
        0 <= k < t.len(),
    ensures
        t.index_of(t[k]) == k,
{
    let j = t.index_of(t[k]);
    assert(t.contains(t[k]));
    assert(0 <= j < t.len() && t[j] == t[k]);
    if j < k {
        assert(t[j] < t[k]);
    } else if k < j {
        assert(t[k] < t[j]);
    }
}

/// An identifier that has an index is the integer that its bytes denote.
proof fn lemma_indices_of(ids: Seq<Seq<u8>>, indices: Seq<u32>)
    requires
        ids.len() == indices.len(),
        forall|i: int| 0 <= i < ids.len() ==> (#[trigger] indices[i]) as int == le_value(ids[i]),
        forall|i: int| 0 <= i < ids.len() ==> identifier_index(#[trigger] ids[i]) is Some,
    ensures
        identifier_indices(ids) == indices,
{
    assert forall|i: int| 0 <= i < ids.len() implies identifier_indices(ids)[i] == indices[i] by {
        assert(identifier_index(ids[i]) is Some);
        assert(indices[i] as int == le_value(ids[i]));
    }
    assert(identifier_indices(ids) =~= indices);
}

/// The weights of the positions interpolate: where `frost-core` signs with the signers of
/// some identifiers, the outer Lagrange coefficients of all positions, each with the value
/// at its index of a polynomial that has no more coefficients than there are signers, add
/// up to the polynomial's value at zero.
pub proof fn law_context_lambdas_interpolate<S: OsstScalar>(
    ids: Seq<Seq<u8>>,
    indices: Seq<u32>,
    rhos: Seq<Result<Seq<u8>, OsstError>>,
    challenges: Seq<Option<Seq<u8>>>,
    contexts: Seq<ParamsView>,
    polynomial: Seq<int>,
)
    requires
        is_field(S::order()),
        indices.len() == ids.len(),
        contexts.len() == ids.len(),
        forall|i: int| 0 <= i < ids.len() ==> (#[trigger] indices[i]) as int == le_value(ids[i]),
        forall|i: int|
            0 <= i < ids.len() ==> context_outcome::<S>(ids, indices[i], rhos[i], challenges[i])
                == Ok::<ParamsView, OsstError>(#[trigger] contexts[i]),
        polynomial.len() <= ids.len(),
    ensures
        eqm(
            dot(
                Seq::new(ids.len(), |i: int| contexts[i].lambda),
                Seq::new(ids.len(), |i: int| poly(polynomial, indices[i] as int)),
            ),
            poly(polynomial, 0),
            S::order(),
        ),
{
    let n = S::order();
    let lambdas = Seq::new(ids.len(), |i: int| contexts[i].lambda);
    let values = Seq::new(ids.len(), |i: int| poly(polynomial, indices[i] as int));
    S::lemma_order();
    if ids.len() > 0 {
        assert(context_outcome::<S>(ids, indices[0], rhos[0], challenges[0]) == Ok::<
            ParamsView,
            OsstError,
        >(contexts[0]));
        lemma_indices_of(ids, indices);
        lemma_ordered(indices);
        let t = ascending_of(indices);
        let f = |k: u32| coefficient_of(t, k, n) * poly(polynomial, k as int);
        let shares = Seq::new(t.len(), |i: int| poly(polynomial, t[i] as int));
        assert forall|i: int| 0 <= i < indices.len() implies f(indices[i]) == #[trigger] lambdas[i]
            * values[i] by {
            assert(context_outcome::<S>(ids, indices[i], rhos[i], challenges[i]) == Ok::<
                ParamsView,
                OsstError,
            >(contexts[i]));
        }
        lemma_dot_by(f, lambdas, values, indices);
        lemma_sum_permutation(f, indices, t);
        let l = coefficients(t, n);
        assert forall|i: int| 0 <= i < t.len() implies f(t[i]) == #[trigger] l[i] * shares[i] by {
            lemma_place(t, i);
        }
        lemma_dot_by(f, l, shares, t);
        lemma_reconstruct(t, shares, polynomial, n);
    }
}

/// The bridge and the native context weigh alike: for signers of the same indices, the
/// outer Lagrange coefficient that the bridge gives a position is the one that a native
/// package gives it.
pub proof fn law_bridge_lambda_is_native<S: OsstScalar>(
    ids: Seq<Seq<u8>>,
    indices: Seq<u32>,
    rho: Result<Seq<u8>, OsstError>,
    challenge: Option<Seq<u8>>,
    context: ParamsView,
    native: PackageView,
    nested_index: u32,
)
    requires
        indices.len() == ids.len(),
        forall|i: int| 0 <= i < ids.len() ==> (#[trigger] indices[i]) as int == le_value(ids[i]),
        context_outcome::<S>(ids, nested_index, rho, challenge) == Ok::<ParamsView, OsstError>(
            context,
        ),
        native.wf(),
        native.indices().to_multiset() == indices.to_multiset(),
    ensures
        context.lambda == native.lambda(nested_index, S::order()),
        rho matches Ok(b) && decode_scalar::<S>(b) == Some(context.binding),
        challenge matches Some(b) && decode_scalar::<S>(b) == Some(context.challenge),
{
    lemma_indices_of(ids, indices);
    lemma_ascending_of(native.indices(), indices);
}

/// What the bridge computes from given values interpolates, for every way in which the
/// positions of one set of identifiers are asked for.
pub proof fn law_values_interpolate<S: OsstScalar>(
    identifiers: &[[u8; 32]],
    indices: Seq<u32>,
    rhos: Seq<Result<[u8; 32], OsstError>>,
    challenges: Seq<Option<[u8; 32]>>,
    params: Seq<InnerSigningParamsV2<S>>,
    polynomial: Seq<int>,
)
    requires
        is_field(S::order()),
        indices.len() == identifiers@.len(),
        params.len() == identifiers@.len(),
        forall|i: int|
            0 <= i < indices.len() ==> (#[trigger] indices[i]) as int == le_value(
                identifiers@[i]@,
            ),
        forall|i: int|
            0 <= i < indices.len() ==> call_ensures(
                params_from_values::<S>,
                (identifiers, indices[i], rhos[i], challenges[i]),
                Ok::<InnerSigningParamsV2<S>, OsstError>(#[trigger] params[i]),
            ),
        polynomial.len() <= identifiers@.len(),
    ensures
        eqm(
            dot(
                Seq::new(indices.len(), |i: int| params[i]@.lambda),
                Seq::new(indices.len(), |i: int| poly(polynomial, indices[i] as int)),
            ),
            poly(polynomial, 0),
            S::order(),
        ),
{
    let ids = array_views(identifiers@);
    let contexts = Seq::new(indices.len(), |i: int| params[i]@);
    let rs = Seq::new(
        indices.len(),
        |i: int|
            match rhos[i] {
                Ok(b) => Ok::<Seq<u8>, OsstError>(b@),
                Err(e) => Err(e),
            },
    );
    let cs = Seq::new(
        indices.len(),
        |i: int|
            match challenges[i] {
                Some(b) => Some(b@),
                None => None,
            },
    );
    assert forall|i: int| 0 <= i < ids.len() implies context_outcome::<S>(
        ids,
        indices[i],
        rs[i],
        cs[i],
    ) == Ok::<ParamsView, OsstError>(#[trigger] contexts[i]) by {
        let p = params[i];
        assert(call_ensures(
            params_from_values::<S>,
            (identifiers, indices[i], rhos[i], challenges[i]),
            Ok::<InnerSigningParamsV2<S>, OsstError>(p),
        ));
    }
    law_context_lambdas_interpolate::<S>(ids, indices, rs, cs, contexts, polynomial);
    assert(Seq::new(indices.len(), |i: int| params[i]@.lambda) =~= Seq::new(
        ids.len(),
        |i: int| contexts[i].lambda,
    ));
    assert(Seq::new(indices.len(), |i: int| poly(polynomial, indices[i] as int)) =~= Seq::new(
        ids.len(),
        |i: int| poly(polynomial, indices[i] as int),
    ));
}

/// The binding factor and the challenge are handed on as they came: the scalars that their
/// bytes encode, and no context is made without them.
pub proof fn law_values_handed_on<S: OsstScalar>(
    identifiers: &[[u8; 32]],
    nested_index: u32,
    rho: Result<[u8; 32], OsstError>,
    challenge: Option<[u8; 32]>,
    params: InnerSigningParamsV2<S>,
)
    requires
        call_ensures(
            params_from_values::<S>,
            (identifiers, nested_index, rho, challenge),
            Ok::<InnerSigningParamsV2<S>, OsstError>(params),
        ),
    ensures
        rho matches Ok(b) && decode_scalar::<S>(b@) == Some(params@.binding),
        challenge matches Some(b) && decode_scalar::<S>(b@) == Some(params@.challenge),
        nested_index != 0,
        exists|k: int|
            0 <= k < identifiers@.len() && le_value((#[trigger] identifiers@[k])@) == nested_index,
{
    let ids = array_views(identifiers@);
    let indices = identifier_indices(ids);
    let k = choose|k: int| 0 <= k < indices.len() && indices[k] == nested_index;
    assert(identifier_index(ids[k]) is Some);
    assert(le_value(identifiers@[k]@) == nested_index);
}

/// The contexts that the bridge recomputes for all signers of a package interpolate.
pub proof fn law_package_contexts_interpolate<Z: ZfSuite>(
    package: &[u8],
    verifying_key: &[u8],
    ids: Seq<Seq<u8>>,
    indices: Seq<u32>,
    params: Seq<InnerSigningParamsV2<Z::Scalar>>,
    polynomial: Seq<int>,
)
    requires
        is_field(<Z::Scalar as OsstScalar>::order()),
        Z::identifiers_of(package@) == Some(ids),
        indices.len() == ids.len(),
        params.len() == ids.len(),
        forall|i: int| 0 <= i < ids.len() ==> (#[trigger] indices[i]) as int == le_value(ids[i]),
        forall|i: int|
            0 <= i < ids.len() ==> call_ensures(
                inner_params_from_zf::<Z>,
                (package, verifying_key, indices[i]),
                Ok::<InnerSigningParamsV2<Z::Scalar>, OsstError>(#[trigger] params[i]),
            ),
        polynomial.len() <= ids.len(),
    ensures
        eqm(
            dot(
                Seq::new(ids.len(), |i: int| params[i]@.lambda),
                Seq::new(ids.len(), |i: int| poly(polynomial, indices[i] as int)),
            ),
            poly(polynomial, 0),
            <Z::Scalar as OsstScalar>::order(),
        ),
{
    let contexts = Seq::new(ids.len(), |i: int| params[i]@);
    let rs = Seq::new(
        ids.len(),
        |i: int| factor_outcome::<Z>(package@, verifying_key@, indices[i]),
    );
    let cs = Seq::new(ids.len(), |i: int| package_challenge::<Z>(package@, verifying_key@));
    assert forall|i: int| 0 <= i < ids.len() implies context_outcome::<Z::Scalar>(
        ids,
        indices[i],
        rs[i],
        cs[i],
    ) == Ok::<ParamsView, OsstError>(#[trigger] contexts[i]) by {
        let p = params[i];
        assert(call_ensures(
            inner_params_from_zf::<Z>,
            (package, verifying_key, indices[i]),
            Ok::<InnerSigningParamsV2<Z::Scalar>, OsstError>(p),
        ));
    }
    law_context_lambdas_interpolate::<Z::Scalar>(ids, indices, rs, cs, contexts, polynomial);
    assert(Seq::new(ids.len(), |i: int| params[i]@.lambda) =~= Seq::new(
        ids.len(),
        |i: int| contexts[i].lambda,
    ));
}

/// What the bridge hands on is what `frost-core` computed for the position: the binding
/// factor is the one that the package has, without a prefix, for an identifier that
/// denotes the position, and the challenge is the one of the package's group commitment
/// and its own message under the key.
pub proof fn law_bridge_hands_on<Z: ZfSuite>(
    package: &[u8],
    verifying_key: &[u8],
    nested_index: u32,
    params: InnerSigningParamsV2<Z::Scalar>,
)
    requires
        call_ensures(
            inner_params_from_zf::<Z>,
            (package, verifying_key, nested_index),
            Ok::<InnerSigningParamsV2<Z::Scalar>, OsstError>(params),
        ),
    ensures
        Z::factors_of(package@, verifying_key@, Seq::empty()) matches Some(factors) && exists|
            k: int,
        |
            {
                &&& 0 <= k < factors.len()
                &&& le_value((#[trigger] factors[k]).0) == nested_index
                &&& decode_scalar::<Z::Scalar>(factors[k].1) == Some(params@.binding)
            },
        Z::commitment_of(package@, verifying_key@, Seq::empty()) matches Some(commitment)
            && Z::message_of(package@) matches Some(message) && Z::challenge_of(
            commitment,
            verifying_key@,
            message,
        ) matches Some(c) && decode_scalar::<Z::Scalar>(c) == Some(params@.challenge),
{
    let factors = Z::factors_of(package@, verifying_key@, Seq::empty())->0;
    lemma_factor_at(factors, nested_index);
}

/// A factor that is found is of an identifier that denotes the index.
proof fn lemma_factor_at(factors: Seq<(Seq<u8>, Seq<u8>)>, index: u32)
    ensures
        factor_of(factors, index) matches Some(b) ==> exists|k: int|
            0 <= k < factors.len() && le_value((#[trigger] factors[k]).0) == index && factors[k].1
                == b,
    decreases factors.len(),
{
    if factors.len() > 0 {
        if identifier_index(factors[0].0) == Some(index) {
            assert(le_value(factors[0].0) == index);
        } else {
            let rest = factors.drop_first();
            lemma_factor_at(rest, index);
            match factor_of(rest, index) {
                Some(b) => {
                    let k = choose|k: int|
                        0 <= k < rest.len() && le_value((#[trigger] rest[k]).0) == index
                            && rest[k].1 == b;
                    assert(factors[k + 1] == rest[k]);
                    assert(le_value(factors[k + 1].0) == index);
                },
                None => {},
            }
        }
    }
}

/// The first factor whose identifier is an index.
pub open spec fn is_first_factor(
    factors: Seq<([u8; 32], [u8; 32])>,
    i: int,
    index: u32,
) -> bool {
    &&& 0 <= i < factors.len()
    &&& le_value(factors[i].0@) == index
    &&& forall|j: int| 0 <= j < i ==> le_value((#[trigger] factors[j]).0@) != index
}

/// A factor is found by the integer that its identifier denotes: the first one where
/// there is one, and none otherwise.
pub proof fn law_factor_found_by_identifier(
    factors: &[([u8; 32], [u8; 32])],
    index: u32,
    i: int,
    r: Result<[u8; 32], OsstError>,
)
    requires
        index != 0,
        call_ensures(find_factor, (factors, index), r),
    ensures
        is_first_factor(factors@, i, index) ==> (r matches Ok(b) && b@ == factors@[i].1@),
        (forall|j: int| 0 <= j < factors@.len() ==> le_value((#[trigger] factors@[j]).0@) != index)
            ==> r == Err::<[u8; 32], OsstError>(OsstError::InvalidIndex),
{
    lemma_factor_first(factors@, index, i);
}

proof fn lemma_factor_first(factors: Seq<([u8; 32], [u8; 32])>, index: u32, i: int)
    requires
        index != 0,
    ensures
        is_first_factor(factors, i, index) ==> factor_of(pair_views(factors), index) == Some(
            factors[i].1@,
        ),
        (forall|j: int| 0 <= j < factors.len() ==> le_value((#[trigger] factors[j]).0@) != index)
            ==> factor_of(pair_views(factors), index) is None,
    decreases factors.len(),
{
    let all = pair_views(factors);
    if factors.len() > 0 {
        let rest = factors.drop_first();
        lemma_factor_first(rest, index, i - 1);
        assert(all.drop_first() =~= pair_views(rest));
        assert(all[0] == (factors[0].0@, factors[0].1@));
        assert forall|j: int| 0 <= j < rest.len() implies rest[j] == #[trigger] factors[j + 1] by {}
        if is_first_factor(factors, i, index) && i > 0 {
            assert(le_value(factors[0].0@) != index);
            assert forall|j: int| 0 <= j < i - 1 implies le_value((#[trigger] rest[j]).0@)
                != index by {
                assert(le_value(factors[j + 1].0@) != index);
            }
            assert(is_first_factor(rest, i - 1, index));
        }
        if forall|j: int| 0 <= j < factors.len() ==> le_value((#[trigger] factors[j]).0@) != index {
            assert(le_value(factors[0].0@) != index);
            assert forall|j: int| 0 <= j < rest.len() implies le_value((#[trigger] rest[j]).0@)
                != index by {
                assert(le_value(factors[j + 1].0@) != index);
            }
        }
    }
}

/// An identifier has an index exactly where its little-endian bytes, at least four, denote
/// an integer from one to `u32::MAX`, and the index is that integer: nothing is truncated.
pub proof fn law_identifier_is_its_integer(bytes: &[u8], r: Result<u32, OsstError>)
    requires
        call_ensures(identifier_to_index, (bytes,), r),
    ensures
        r is Ok <==> bytes@.len() >= 4 && 1 <= le_value(bytes@) <= u32::MAX,
        r matches Ok(i) ==> i as int == le_value(bytes@),
        r matches Err(e) ==> e == OsstError::InvalidIndex,
{
}

/// The hashes of the suite cover their whole input: each is equal for two inputs exactly
/// where the inputs are, where SHA-512 does not collide on what is hashed, and the hashes of
/// one input differ from one another.
pub proof fn law_suite_hashes_bind(m: &[u8], other: &[u8], a: Seq<Fr>, b: Seq<Fr>)
    requires
        a.len() == 5,
        b.len() == 5,
        call_ensures(Decaf377Sha512::H1, (m,), a[0]),
        call_ensures(Decaf377Sha512::H2, (m,), a[1]),
        call_ensures(Decaf377Sha512::H3, (m,), a[2]),
        call_ensures(Decaf377Sha512::HDKG, (m,), Some(a[3])),
        call_ensures(Decaf377Sha512::HID, (m,), Some(a[4])),
        call_ensures(Decaf377Sha512::H1, (other,), b[0]),
        call_ensures(Decaf377Sha512::H2, (other,), b[1]),
        call_ensures(Decaf377Sha512::H3, (other,), b[2]),
        call_ensures(Decaf377Sha512::HDKG, (other,), Some(b[3])),
        call_ensures(Decaf377Sha512::HID, (other,), Some(b[4])),
        forall|s: Seq<u8>, t: Seq<u8>|
            suite_tags().contains(s) && suite_tags().contains(t) ==> told_apart::<Fr>(
                #[trigger] suite_input(s, m@),
                #[trigger] suite_input(t, other@),
            ),
    ensures
        a[0].val() == b[0].val() <==> m@ == other@,
        a[1].val() == b[1].val() <==> m@ == other@,
        a[2].val() == b[2].val() <==> m@ == other@,
        a[3].val() == b[3].val() <==> m@ == other@,
        a[4].val() == b[4].val() <==> m@ == other@,
        forall|i: int, j: int|
            0 <= i < j < 5 ==> (#[trigger] a[i]).val() != (#[trigger] b[j]).val(),
{
    let tags = seq![TAG_RHO@, TAG_CHAL@, TAG_NONCE@, TAG_DKG@, TAG_ID@];
    assert(tags[0] == TAG_RHO@ && tags[1] == TAG_CHAL@ && tags[2] == TAG_NONCE@ && tags[3]
        == TAG_DKG@ && tags[4] == TAG_ID@);
    assert(tags[0][0] == 114 && tags[1][0] == 99 && tags[2][0] == 110 && tags[3][0] == 100
        && tags[4][0] == 105);
    assert forall|i: int, j: int| 0 <= i < 5 && 0 <= j < 5 implies ((#[trigger] a[i]).val() == (
    #[trigger] b[j]).val() <==> i == j && m@ == other@) by {
        let (s, t) = (tags[i], tags[j]);
        assert(suite_tags().contains(s) && suite_tags().contains(t));
        let (x, y) = (suite_input(s, m@), suite_input(t, other@));
        assert(told_apart::<Fr>(x, y));
        law_hash_binds_input::<Fr>(x, y);
        assert(a[i].val() == hash_value::<Fr>(x));
        assert(b[j].val() == hash_value::<Fr>(y));
        if x == y {
            law_suite_inputs_separated(s, m@, t, other@);
            if i != j {
                assert(s[0] != t[0]);
            }
        }
    }
}

/// Elements and scalars of the suite are read back as they were written: the identity is
/// neither written nor read, and everything else is.
pub proof fn law_suite_round_trips(
    element: Decaf377Element,
    written: Result<[u8; 32], GroupError>,
    read: Result<Decaf377Element, GroupError>,
    scalar: Fr,
    bytes: [u8; 32],
    back: Result<Fr, FieldError>,
)
    requires
        call_ensures(Decaf377Group::serialize, (&element,), written),
        written is Ok ==> call_ensures(Decaf377Group::deserialize, (&written->Ok_0,), read),
        call_ensures(Decaf377ScalarField::serialize, (&scalar,), bytes),
        call_ensures(Decaf377ScalarField::deserialize, (&bytes,), back),
        crate::curve::has_encoding::<Element>(element.0.log()),
    ensures
        written is Ok <==> element.0.log() != 0,
        written is Ok ==> (read matches Ok(e) && e.0.log() == element.0.log()),
        back matches Ok(s) && s.val() == scalar.val(),
{
    scalar.lemma_val();
    <Fr as OsstScalar>::lemma_repr(scalar.val());
}

/// The message and the commitment hash of the suite cover their whole input, and differ from
/// each other, where SHA-512 does not collide on what is hashed.
pub proof fn law_suite_arrays_bind(
    m: &[u8],
    other: &[u8],
    h4: [u8; 64],
    h5: [u8; 64],
    other_h4: [u8; 64],
    other_h5: [u8; 64],
)
    requires
        call_ensures(Decaf377Sha512::H4, (m,), h4),
        call_ensures(Decaf377Sha512::H5, (m,), h5),
        call_ensures(Decaf377Sha512::H4, (other,), other_h4),
        call_ensures(Decaf377Sha512::H5, (other,), other_h5),
        forall|s: Seq<u8>, t: Seq<u8>|
            suite_tags().contains(s) && suite_tags().contains(t) && sha512_digest(
                #[trigger] suite_input(s, m@),
            ) == sha512_digest(#[trigger] suite_input(t, other@)) ==> suite_input(s, m@)
                == suite_input(t, other@),
    ensures
        h4@ == other_h4@ <==> m@ == other@,
        h5@ == other_h5@ <==> m@ == other@,
        h4@ != other_h5@,
{
    assert(TAG_MSG@[0] == 109 && TAG_COM@[0] == 99);
    let (a, b) = (suite_input(TAG_MSG@, m@), suite_input(TAG_MSG@, other@));
    let (c, d) = (suite_input(TAG_COM@, m@), suite_input(TAG_COM@, other@));
    if a == b {
        law_suite_inputs_separated(TAG_MSG@, m@, TAG_MSG@, other@);
    }
    if c == d {
        law_suite_inputs_separated(TAG_COM@, m@, TAG_COM@, other@);
    }
    if a == d {
        law_suite_inputs_separated(TAG_MSG@, m@, TAG_COM@, other@);
    }
}

/// Subtraction undoes addition in the group of the suite, and multiplication distributes over
/// addition.
pub proof fn law_suite_group(
    a: Decaf377Element,
    b: Decaf377Element,
    sum: Decaf377Element,
    back: Decaf377Element,
    s: Fr,
    scaled_a: Decaf377Element,
    scaled_b: Decaf377Element,
    scaled_sum: Decaf377Element,
    sum_scaled: Decaf377Element,
    same: bool,
    equal: bool,
)
    requires
        call_ensures(Decaf377Element::add, (a, b), sum),
        call_ensures(Decaf377Element::sub, (sum, b), back),
        call_ensures(Decaf377Element::equals, (&back, &a), same),
        call_ensures(Decaf377Element::mul, (a, s), scaled_a),
        call_ensures(Decaf377Element::mul, (b, s), scaled_b),
        call_ensures(Decaf377Element::add, (scaled_a, scaled_b), sum_scaled),
        call_ensures(Decaf377Element::mul, (sum, s), scaled_sum),
        call_ensures(Decaf377Element::equals, (&sum_scaled, &scaled_sum), equal),
    ensures
        same,
        equal,
{
    let n = Fr::order();
    let (x, y, v) = (a.0.log(), b.0.log(), s.val());
    <Fr as OsstScalar>::lemma_order();
    a.0.lemma_log();
    crate::math::lemma_mod_add(x + y, -y, n);
    vstd::arithmetic::div_mod::lemma_small_mod(x as nat, n as nat);
    crate::math::lemma_mod_add(x * v, y * v, n);
    crate::math::lemma_mod_mul(x + y, v, n);
    assert((x + y) * v == x * v + y * v) by (nonlinear_arith);
}

/// A context is owed: for distinct identifiers, each the little-endian bytes of an integer
/// from one to `u32::MAX`, every position among them up to `u16::MAX` has a context wherever
/// its binding factor and the challenge are encodings of scalars, however many signers there
/// are.
pub proof fn law_context_is_owed<S: OsstScalar>(
    identifiers: &[[u8; 32]],
    indices: Seq<u32>,
    at: int,
    rho: [u8; 32],
    challenge: [u8; 32],
    r: Result<InnerSigningParamsV2<S>, OsstError>,
)
    requires
        indices.len() == identifiers@.len(),
        forall|i: int|
            0 <= i < indices.len() ==> (#[trigger] indices[i]) as int == le_value(
                identifiers@[i]@,
            ) && indices[i] != 0,
        indices.no_duplicates(),
        0 <= at < indices.len(),
        indices[at] <= u16::MAX,
        S::unrepr(rho@) < S::order(),
        S::unrepr(challenge@) < S::order(),
        call_ensures(
            params_from_values::<S>,
            (
                identifiers,
                indices[at],
                Ok::<[u8; 32], OsstError>(rho),
                Some::<[u8; 32]>(challenge),
            ),
            r,
        ),
    ensures
        r matches Ok(p) && p@.binding == S::unrepr(rho@) && p@.challenge == S::unrepr(challenge@)
            && p@.lambda == coefficient_of(ascending_of(indices), indices[at], S::order()),
{
    let ids = array_views(identifiers@);
    assert forall|i: int| 0 <= i < ids.len() implies identifier_index(#[trigger] ids[i])
        is Some by {
        assert(indices[i] as int == le_value(identifiers@[i]@));
    }
    lemma_indices_of(ids, indices);
    assert(indices.contains(indices[at]));
}

/// A package has a context for a position exactly where its identifiers are distinct
/// indices, the position is one of them and not too large for the numbering, and
/// `frost-core` computes the factors and the challenge.
pub proof fn law_package_context_is_owed<Z: ZfSuite>(
    package: &[u8],
    verifying_key: &[u8],
    ids: Seq<Seq<u8>>,
    indices: Seq<u32>,
    at: int,
    r: Result<InnerSigningParamsV2<Z::Scalar>, OsstError>,
)
    requires
        Z::identifiers_of(package@) == Some(ids),
        indices.len() == ids.len(),
        forall|i: int|
            0 <= i < ids.len() ==> (#[trigger] indices[i]) as int == le_value(ids[i])
                && indices[i] != 0 && ids[i].len() >= 4,
        indices.no_duplicates(),
        0 <= at < indices.len(),
        indices[at] <= u16::MAX,
        Z::factors_of(package@, verifying_key@, Seq::empty()) is Some,
        Z::message_of(package@) is Some,
        Z::commitment_of(package@, verifying_key@, Seq::empty()) matches Some(c)
            && Z::challenge_of(c, verifying_key@, Z::message_of(package@)->0) is Some,
        call_ensures(inner_params_from_zf::<Z>, (package, verifying_key, indices[at]), r),
    ensures
        r is Ok,
{
    assert forall|i: int| 0 <= i < ids.len() implies identifier_index(#[trigger] ids[i])
        is Some by {
        assert(indices[i] as int == le_value(ids[i]));
    }
    lemma_indices_of(ids, indices);
    assert(indices.contains(indices[at]));
}

/// The context of the suite and the tags of its hashes, as text.
pub proof fn law_domain_texts()
    ensures
        CONTEXT_STRING@ == ascii("FROST-decaf377-SHA512-v1"@),
        TAG_RHO@ == ascii("rho"@),
        TAG_CHAL@ == ascii("chal"@),
        TAG_NONCE@ == ascii("nonce"@),
        TAG_MSG@ == ascii("msg"@),
        TAG_COM@ == ascii("com"@),
        TAG_DKG@ == ascii("dkg"@),
        TAG_ID@ == ascii("id"@),
{
    reveal_strlit("FROST-decaf377-SHA512-v1");
    reveal_strlit("rho");
    reveal_strlit("chal");
    reveal_strlit("nonce");
    reveal_strlit("msg");
    reveal_strlit("com");
    reveal_strlit("dkg");
    reveal_strlit("id");
    assert(CONTEXT_STRING@ =~= ascii("FROST-decaf377-SHA512-v1"@));
    assert(TAG_RHO@ =~= ascii("rho"@));
    assert(TAG_CHAL@ =~= ascii("chal"@));
    assert(TAG_NONCE@ =~= ascii("nonce"@));
    assert(TAG_MSG@ =~= ascii("msg"@));
    assert(TAG_COM@ =~= ascii("com"@));
    assert(TAG_DKG@ =~= ascii("dkg"@));
    assert(TAG_ID@ =~= ascii("id"@));
}

/// The field and the group of the suite: every scalar but zero has the inverse that carries it
/// to one, all of sixty-four random bytes count, and the identity changes nothing.
pub proof fn law_suite_field(
    s: Fr,
    inverse: Result<Fr, FieldError>,
    one: Fr,
    bytes: [u8; 64],
    drawn: Fr,
    identity: Decaf377Element,
    generator: Decaf377Element,
    a: Decaf377Element,
    sum: Decaf377Element,
)
    requires
        call_ensures(Decaf377ScalarField::invert, (&s,), inverse),
        call_ensures(Decaf377ScalarField::one, (), one),
        call_ensures(Decaf377ScalarField::from_random_bytes, (&bytes,), drawn),
        call_ensures(Decaf377Group::identity, (), identity),
        call_ensures(Decaf377Group::generator, (), generator),
        call_ensures(Decaf377Element::add, (identity, a), sum),
    ensures
        inverse is Ok <==> s.val() != 0,
        inverse matches Ok(b) ==> (s.val() * b.val()) % Fr::order() == one.val(),
        eqm(drawn.val(), le_value(bytes@), Fr::order()),
        sum.0.log() == a.0.log(),
        generator.0.log() == one.val(),
{
    <Fr as OsstScalar>::lemma_order();
    crate::math::lemma_eqm_mod(le_value(bytes@), Fr::order());
    a.0.lemma_log();
    vstd::arithmetic::div_mod::lemma_small_mod(a.0.log() as nat, Fr::order() as nat);
    vstd::arithmetic::div_mod::lemma_small_mod(1, Fr::order() as nat);
}

} // verus!
