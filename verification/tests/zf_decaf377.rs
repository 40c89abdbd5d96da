//! FROST(decaf377, SHA-512) through `frost-core`, with the hashes of the library.
use core::ops::{Add, Mul, Sub};
use std::collections::BTreeMap;

use decaf377::{Element, Fr};
use frost_core::keys::{self, dkg, IdentifierList, KeyPackage, PublicKeyPackage};
use frost_core::{
    aggregate, round1, round2, Ciphersuite, Field, FieldError, Group, GroupError, Identifier,
    SigningPackage,
};
use frostito::zf::{
    self, hash_to_array, hash_to_scalar, Decaf377Element, Decaf377Group, Decaf377ScalarField,
    Decaf377Sha512,
};
use frostito::CurveScalar;
use rand::rngs::OsRng;
use rand_core::{CryptoRng, RngCore};
use sha2::{Digest, Sha512};

type C = Suite;

/// The scalar field, as a `frost-core` [`Field`].
#[derive(Clone, Copy)]
pub struct SuiteField;

impl Field for SuiteField {
    type Scalar = Fr;
    type Serialization = [u8; 32];

    fn zero() -> Fr {
        Decaf377ScalarField::zero()
    }

    fn one() -> Fr {
        Decaf377ScalarField::one()
    }

    fn invert(scalar: &Fr) -> Result<Fr, FieldError> {
        Decaf377ScalarField::invert(scalar).map_err(field_error)
    }

    fn random<R: RngCore + CryptoRng>(rng: &mut R) -> Fr {
        let mut bytes = [0u8; 64];
        rng.fill_bytes(&mut bytes);
        Decaf377ScalarField::from_random_bytes(&bytes)
    }

    fn serialize(scalar: &Fr) -> [u8; 32] {
        Decaf377ScalarField::serialize(scalar)
    }

    fn deserialize(buf: &[u8; 32]) -> Result<Fr, FieldError> {
        Decaf377ScalarField::deserialize(buf).map_err(field_error)
    }

    fn little_endian_serialize(scalar: &Fr) -> [u8; 32] {
        Decaf377ScalarField::little_endian_serialize(scalar)
    }
}

fn field_error(e: zf::FieldError) -> FieldError {
    match e {
        zf::FieldError::MalformedScalar => FieldError::MalformedScalar,
        zf::FieldError::InvalidZeroScalar => FieldError::InvalidZeroScalar,
    }
}

/// A group element with the operators that `frost-core` asks for.
#[derive(Clone, Copy, Debug)]
pub struct SuiteElement(pub Decaf377Element);

impl PartialEq for SuiteElement {
    fn eq(&self, other: &Self) -> bool {
        self.0.equals(&other.0)
    }
}

impl Eq for SuiteElement {}

impl From<Element> for SuiteElement {
    fn from(e: Element) -> Self {
        Self(Decaf377Element::from(e))
    }
}

impl Add for SuiteElement {
    type Output = Self;

    fn add(self, rhs: Self) -> Self {
        Self(self.0.add(rhs.0))
    }
}

impl Sub for SuiteElement {
    type Output = Self;

    fn sub(self, rhs: Self) -> Self {
        Self(self.0.sub(rhs.0))
    }
}

impl Mul<Fr> for SuiteElement {
    type Output = Self;

    fn mul(self, rhs: Fr) -> Self {
        Self(self.0.mul(rhs))
    }
}

/// The group, as a `frost-core` [`Group`].
#[derive(Clone, Copy, PartialEq, Eq)]
pub struct SuiteGroup;

impl Group for SuiteGroup {
    type Field = SuiteField;
    type Element = SuiteElement;
    type Serialization = [u8; 32];

    fn cofactor() -> Fr {
        Decaf377Group::cofactor()
    }

    fn identity() -> SuiteElement {
        SuiteElement(Decaf377Group::identity())
    }

    fn generator() -> SuiteElement {
        SuiteElement(Decaf377Group::generator())
    }

    fn serialize(element: &SuiteElement) -> Result<[u8; 32], GroupError> {
        Decaf377Group::serialize(&element.0).map_err(group_error)
    }

    fn deserialize(buf: &[u8; 32]) -> Result<SuiteElement, GroupError> {
        Decaf377Group::deserialize(buf).map(SuiteElement).map_err(group_error)
    }
}

fn group_error(e: zf::GroupError) -> GroupError {
    match e {
        zf::GroupError::MalformedElement => GroupError::MalformedElement,
        zf::GroupError::InvalidIdentityElement => GroupError::InvalidIdentityElement,
    }
}

/// FROST(decaf377, SHA-512), as a `frost-core` [`Ciphersuite`].
#[derive(Clone, Copy, PartialEq, Eq, Debug)]
pub struct Suite;

impl Ciphersuite for Suite {
    const ID: &'static str = "FROST-decaf377-SHA512-v1";

    type Group = SuiteGroup;
    type HashOutput = [u8; 64];
    type SignatureSerialization = [u8; 64];

    fn H1(m: &[u8]) -> Fr {
        Decaf377Sha512::H1(m)
    }

    fn H2(m: &[u8]) -> Fr {
        Decaf377Sha512::H2(m)
    }

    fn H3(m: &[u8]) -> Fr {
        Decaf377Sha512::H3(m)
    }

    fn H4(m: &[u8]) -> [u8; 64] {
        Decaf377Sha512::H4(m)
    }

    fn H5(m: &[u8]) -> [u8; 64] {
        Decaf377Sha512::H5(m)
    }

    fn HDKG(m: &[u8]) -> Option<Fr> {
        Decaf377Sha512::HDKG(m)
    }

    fn HID(m: &[u8]) -> Option<Fr> {
        Decaf377Sha512::HID(m)
    }
}

const MSG: &[u8] = b"decaf377 through frost-core";

fn dealt(t: u16, n: u16) -> (BTreeMap<Identifier<C>, KeyPackage<C>>, PublicKeyPackage<C>) {
    let mut rng = OsRng;
    let (shares, pubkeys) =
        keys::generate_with_dealer::<C, _>(n, t, IdentifierList::Default, &mut rng)
            .expect("dealer keygen");

    let packages = shares
        .into_iter()
        .map(|(id, share)| (id, KeyPackage::try_from(share).expect("key package")))
        .collect();

    (packages, pubkeys)
}

#[test]
fn threshold_signing_round_trips() {
    let mut rng = OsRng;
    let (packages, pubkeys) = dealt(2, 3);

    // Round 1 — the first two holders commit.
    let signers: Vec<_> = packages.keys().copied().take(2).collect();
    let mut nonces = BTreeMap::new();
    let mut commitments = BTreeMap::new();
    for id in &signers {
        let (n, c) = round1::commit(packages[id].signing_share(), &mut rng);
        nonces.insert(*id, n);
        commitments.insert(*id, c);
    }

    // Round 2 — each produces a signature share over the same package.
    let package = SigningPackage::new(commitments, MSG);
    let shares: BTreeMap<_, _> = signers
        .iter()
        .map(|id| {
            let s = round2::sign(&package, &nonces[id], &packages[id]).expect("sign");
            (*id, s)
        })
        .collect();

    let signature = aggregate(&package, &shares, &pubkeys).expect("aggregate");

    assert!(
        pubkeys.verifying_key().verify(MSG, &signature).is_ok(),
        "aggregated signature must verify under the group key"
    );
}

#[test]
fn signature_does_not_verify_under_a_different_message() {
    let mut rng = OsRng;
    let (packages, pubkeys) = dealt(2, 3);

    let signers: Vec<_> = packages.keys().copied().take(2).collect();
    let mut nonces = BTreeMap::new();
    let mut commitments = BTreeMap::new();
    for id in &signers {
        let (n, c) = round1::commit(packages[id].signing_share(), &mut rng);
        nonces.insert(*id, n);
        commitments.insert(*id, c);
    }

    let package = SigningPackage::new(commitments, MSG);
    let shares: BTreeMap<_, _> = signers
        .iter()
        .map(|id| (*id, round2::sign(&package, &nonces[id], &packages[id]).unwrap()))
        .collect();

    let signature = aggregate(&package, &shares, &pubkeys).unwrap();

    assert!(
        pubkeys.verifying_key().verify(b"a different message", &signature).is_err(),
        "the challenge binds the message"
    );
}

/// Fewer than `t` commitments is refused at signing time, not at verification.
#[test]
fn one_of_two_is_refused_before_a_share_exists() {
    let mut rng = OsRng;
    let (packages, _pubkeys) = dealt(2, 3);

    let id = *packages.keys().next().unwrap();
    let (nonce, commitment) = round1::commit(packages[&id].signing_share(), &mut rng);

    // A package carrying one commitment for a 2-of-3 group.
    let package = SigningPackage::new(BTreeMap::from([(id, commitment)]), MSG);

    assert!(
        matches!(
            round2::sign(&package, &nonce, &packages[&id]),
            Err(frost_core::Error::IncorrectNumberOfCommitments)
        ),
        "a holder must not produce a share against an under-threshold package"
    );
}

/// Key generation of `frost-core`, then signing with the resulting key packages.
#[test]
fn dkg_round_trips_and_the_key_signs() {
    let mut rng = OsRng;
    let (max, min) = (3u16, 2u16);
    let ids: Vec<Identifier<C>> = (1..=max).map(|i| i.try_into().unwrap()).collect();

    // round 1
    let mut r1_secret = BTreeMap::new();
    let mut r1_public = BTreeMap::new();
    for id in &ids {
        let (secret, package) = dkg::part1::<C, _>(*id, max, min, &mut rng).expect("part1");
        r1_secret.insert(*id, secret);
        r1_public.insert(*id, package);
    }

    // echo round: every participant digests the same round-1 set
    let digest = |set: &BTreeMap<Identifier<C>, dkg::round1::Package<C>>| {
        let mut h = Sha512::new();
        h.update(b"frostito/dkg-round1-echo/zf");
        for (id, pkg) in set {
            h.update(id.serialize());
            h.update(pkg.serialize().expect("round1 package serializes"));
        }
        h.finalize().to_vec()
    };
    let mine = digest(&r1_public);
    for _ in &ids {
        assert_eq!(mine, digest(&r1_public), "every honest view must agree");
    }

    // round 2: packages travel as bytes (sealed, in a deployment)
    let mut inbox: BTreeMap<Identifier<C>, BTreeMap<Identifier<C>, dkg::round2::Package<C>>> =
        ids.iter().map(|id| (*id, BTreeMap::new())).collect();
    let mut r2_secret = BTreeMap::new();

    for id in &ids {
        let others: BTreeMap<_, _> = r1_public
            .iter()
            .filter(|(k, _)| *k != id)
            .map(|(k, v)| (*k, v.clone()))
            .collect();
        let (secret, outgoing) =
            dkg::part2(r1_secret.remove(id).unwrap(), &others).expect("part2");
        r2_secret.insert(*id, secret);

        for (recipient, package) in outgoing {
            // The confidentiality boundary: these bytes carry secret key
            // material and must not travel in the clear.
            let wire = package.serialize().expect("round2 package serializes");
            let opened = dkg::round2::Package::<C>::deserialize(&wire).expect("reopens");
            inbox.get_mut(&recipient).unwrap().insert(*id, opened);
        }
    }

    // round 3
    let mut packages = BTreeMap::new();
    let mut group_key = None;
    for id in &ids {
        let others: BTreeMap<_, _> = r1_public
            .iter()
            .filter(|(k, _)| *k != id)
            .map(|(k, v)| (*k, v.clone()))
            .collect();
        let (key_package, pubkeys) =
            dkg::part3(&r2_secret[id], &others, &inbox[id]).expect("part3");

        match &group_key {
            None => group_key = Some(pubkeys),
            Some(prev) => assert_eq!(
                prev.verifying_key(),
                pubkeys.verifying_key(),
                "every participant must land on the same group key"
            ),
        }
        packages.insert(*id, key_package);
    }
    let pubkeys = group_key.unwrap();

    // the DKG key signs
    let signers: Vec<_> = ids.iter().copied().take(2).collect();
    let mut nonces = BTreeMap::new();
    let mut commitments = BTreeMap::new();
    for id in &signers {
        let (n, c) = round1::commit(packages[id].signing_share(), &mut rng);
        nonces.insert(*id, n);
        commitments.insert(*id, c);
    }
    let package = SigningPackage::new(commitments, MSG);
    let shares: BTreeMap<_, _> = signers
        .iter()
        .map(|id| (*id, round2::sign(&package, &nonces[id], &packages[id]).unwrap()))
        .collect();
    let signature = aggregate(&package, &shares, &pubkeys).expect("aggregate");

    assert!(pubkeys.verifying_key().verify(MSG, &signature).is_ok());
}

/// Each hash is the SHA-512 of the context, its tag and the bytes.
#[test]
fn the_hashes_are_separated_by_context_and_tag() {
    let reference = |tag: &[u8], m: &[u8]| {
        let mut h = Sha512::new();
        h.update(b"FROST-decaf377-SHA512-v1");
        h.update(tag);
        h.update(m);
        let out: [u8; 64] = h.finalize().into();
        out
    };
    let scalar = |tag: &[u8]| Fr::from_le_bytes_mod_order(&reference(tag, b"abc"));
    assert_eq!(Decaf377Sha512::H1(b"abc"), scalar(b"rho"));
    assert_eq!(Decaf377Sha512::H2(b"abc"), scalar(b"chal"));
    assert_eq!(Decaf377Sha512::H3(b"abc"), scalar(b"nonce"));
    assert_eq!(Decaf377Sha512::H4(b"abc"), reference(b"msg", b"abc"));
    assert_eq!(Decaf377Sha512::H5(b"abc"), reference(b"com", b"abc"));
    assert_eq!(Decaf377Sha512::HDKG(b"abc"), Some(scalar(b"dkg")));
    assert_eq!(Decaf377Sha512::HID(b"abc"), Some(scalar(b"id")));
    let parts: [&[u8]; 2] = [b"FROST-decaf377-SHA512-v1msga", b"bc"];
    assert_eq!(hash_to_array(&parts), reference(b"msg", b"abc"));
    let parts: [&[u8]; 1] = [b"FROST-decaf377-SHA512-v1rhoabc"];
    assert_eq!(hash_to_scalar(&parts), Decaf377Sha512::H1(b"abc"));
    assert_ne!(CurveScalar::to_bytes(&Decaf377Sha512::H1(b"abc")), [0u8; 32]);
}

/// Zero has no inverse, the identity is neither sent nor received, and only
/// canonical encodings are read.
#[test]
fn the_suite_refuses_what_it_must() {
    let zero = Decaf377ScalarField::zero();
    assert_eq!(Decaf377ScalarField::invert(&zero), Err(zf::FieldError::InvalidZeroScalar));
    let seven = Fr::from(7u64);
    let inverse = Decaf377ScalarField::invert(&seven).unwrap();
    assert_eq!(inverse * seven, Decaf377ScalarField::one());
    let bytes = Decaf377ScalarField::serialize(&seven);
    assert_eq!(bytes[0], 7);
    assert_eq!(Decaf377ScalarField::deserialize(&bytes), Ok(seven));
    assert_eq!(
        Decaf377ScalarField::deserialize(&[0xff; 32]),
        Err(zf::FieldError::MalformedScalar)
    );
    assert_eq!(Decaf377ScalarField::from_random_bytes(&[0; 64]), zero);

    let g = Decaf377Group::generator();
    let id = Decaf377Group::identity();
    assert!(g.sub(g).equals(&id));
    assert!(g.add(g).equals(&g.mul(Fr::from(2u64))));
    assert!(g.add(g).sub(g).equals(&g));
    assert_eq!(Decaf377Group::serialize(&id), Err(zf::GroupError::InvalidIdentityElement));
    let bytes = Decaf377Group::serialize(&g).unwrap();
    assert!(Decaf377Group::deserialize(&bytes).unwrap().equals(&g));
    assert_eq!(
        Decaf377Group::deserialize(&[0; 32]).err(),
        Some(zf::GroupError::InvalidIdentityElement)
    );
    assert_eq!(
        Decaf377Group::deserialize(&[0xff; 32]).err(),
        Some(zf::GroupError::MalformedElement)
    );
    assert_eq!(Decaf377Group::cofactor(), Decaf377ScalarField::one());
}
