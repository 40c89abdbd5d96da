//! The nested arithmetic, against the signature share of `frost-core`.
use std::collections::BTreeMap;

use curve25519_dalek::ristretto::RistrettoPoint;
use curve25519_dalek::scalar::Scalar;
use frost_core::keys::{KeyPackage, SigningShare, VerifyingShare};
use frost_core::round1::{Nonce, SigningNonces};
use frost_core::round2 as zf_round2;
use frost_core::{Identifier, SigningPackage as ZfPackage, VerifyingKey};
use frost_ristretto255::Ristretto255Sha512 as C;
use frostito::zf::{find_factor, identifier_to_index, inner_params_from_zf, params_from_values};
use frostito::{compute_lagrange_coefficients, CurvePoint, CurveScalar, Error, SecretShare};
use rand::rngs::OsRng;

type Point = RistrettoPoint;

const MSG: &[u8] = b"differential: frostito::frost vs frost-core";

/// A t-of-n Shamir sharing plus the public material both sides need.
struct Group {
    shares: Vec<SecretShare<Scalar>>,
    verifying: BTreeMap<u32, Point>,
    group_pubkey: Point,
    t: u16,
}

fn deal(n: u32, t: u32, rng: &mut OsRng) -> Group {
    let mut coeffs = vec![<Scalar as CurveScalar>::random(rng)];
    for _ in 1..t {
        coeffs.push(<Scalar as CurveScalar>::random(rng));
    }
    let group_pubkey = <Point as CurvePoint>::generator().mul_scalar(&coeffs[0]);

    let mut shares = Vec::new();
    let mut verifying = BTreeMap::new();
    for i in 1..=n {
        let x = <Scalar as CurveScalar>::from_u32(i);
        let mut y = <Scalar as CurveScalar>::zero();
        let mut xp = <Scalar as CurveScalar>::one();
        for c in &coeffs {
            y = y.add(&c.mul(&xp));
            xp = xp.mul(&x);
        }
        verifying.insert(i, <Point as CurvePoint>::generator().mul_scalar(&y));
        shares.push(SecretShare::new(i, y).unwrap());
    }
    Group { shares, verifying, group_pubkey, t: t as u16 }
}

fn id(i: u32) -> Identifier<C> {
    (i as u16).try_into().unwrap()
}

/// A ZF `SigningNonces` from scalars the caller keeps, so the same values can
/// be used to reassemble the response by hand.
fn zf_nonces(h: Scalar, b: Scalar) -> SigningNonces<C> {
    SigningNonces::from_nonces(Nonce::<C>::from_scalar(h), Nonce::<C>::from_scalar(b))
}

/// The context that `inner_params_from_zf` recomputes from a `frost-core` package
/// gives, in the response of a flat signer, the share that `frost-core` itself
/// produces.
#[test]
fn zf_nested_equivalence_zf_derived_outer_context_reproduces_the_signature_share() {
    let mut rng = OsRng;
    let g = deal(3, 2, &mut rng);
    let signers = [1u32, 2u32];

    let mut nonce_scalars = BTreeMap::new();
    let mut held_nonces = BTreeMap::new();
    let mut zf_commitments = BTreeMap::new();

    for &i in &signers {
        let h = <Scalar as CurveScalar>::random(&mut rng);
        let b = <Scalar as CurveScalar>::random(&mut rng);
        let zf = zf_nonces(h, b);
        zf_commitments.insert(id(i), *zf.commitments());
        nonce_scalars.insert(i, (h, b));
        held_nonces.insert(i, zf);
    }

    let package = ZfPackage::new(zf_commitments, MSG);
    let verifying_key = VerifyingKey::new(g.group_pubkey);

    for &i in &signers {
        let share = &g.shares[(i - 1) as usize];

        // what frost-core computes
        let key_package = KeyPackage::<C>::new(
            id(i),
            SigningShare::new(*share.scalar()),
            VerifyingShare::new(g.verifying[&i]),
            verifying_key,
            g.t,
        );
        let zf_share = zf_round2::sign(&package, &held_nonces[&i], &key_package).expect("zf sign");

        // what an inner holder assembles from the bridged outer context
        let params = inner_params_from_zf::<C>(
            &package.serialize().unwrap(),
            &verifying_key.serialize().unwrap(),
            i,
        ).expect("bridge");
        let (d, e) = nonce_scalars[&i];
        let ours = d.add(
            &params
                .outer_binding()
                .mul(&e)
                .add(&params.outer_lambda().mul(params.outer_challenge()).mul(share.scalar())),
        );

        assert_eq!(
            <Scalar as CurveScalar>::to_bytes(&ours).to_vec(),
            zf_share.serialize(),
            "index {i}: d + rho*e + lambda*c*sigma must equal frost-core's share"
        );
    }
}

/// Identifiers that do not fit an index are refused rather than truncated.
#[test]
fn identifiers_are_small_integers() {
    let mut bytes = [0u8; 32];
    assert_eq!(identifier_to_index(&bytes), Err(Error::InvalidIndex));
    bytes[0] = 7;
    assert_eq!(identifier_to_index(&bytes), Ok(7));
    bytes[1] = 1;
    assert_eq!(identifier_to_index(&bytes), Ok(263));
    bytes[4] = 1;
    assert_eq!(identifier_to_index(&bytes), Err(Error::InvalidIndex));
    assert_eq!(identifier_to_index(&[1, 0, 0]), Err(Error::InvalidIndex));
    assert_eq!(identifier_to_index(&[1, 0, 0, 0]), Ok(1));
    assert_eq!(id(300).serialize().len(), 32);
    assert_eq!(identifier_to_index(&id(300).serialize()), Ok(300));
}

/// Every refusal of a context, and the values of an accepted one.
#[test]
fn the_outer_context_from_its_values() {
    let ident = |i: u8| {
        let mut b = [0u8; 32];
        b[0] = i;
        b
    };
    let ids = [ident(1), ident(3)];
    let rho = Ok(<Scalar as CurveScalar>::from_u32(9).to_bytes());
    let c = Some(<Scalar as CurveScalar>::from_u32(11).to_bytes());

    let p = params_from_values::<Scalar>(&ids, 3, rho, c).ok().unwrap();
    assert_eq!(*p.outer_binding(), <Scalar as CurveScalar>::from_u32(9));
    assert_eq!(*p.outer_challenge(), <Scalar as CurveScalar>::from_u32(11));
    let l = compute_lagrange_coefficients::<Scalar>(&[1, 3]).unwrap();
    assert_eq!(*p.outer_lambda(), l[1]);

    let err = |ids: &[[u8; 32]], i: u32, rho: Result<[u8; 32], Error>, c: Option<[u8; 32]>| {
        params_from_values::<Scalar>(ids, i, rho, c).err().unwrap()
    };
    assert_eq!(err(&[ident(0), ident(3)], 3, rho, c), Error::InvalidIndex);
    assert_eq!(err(&ids, 2, rho, c), Error::InvalidIndex);
    assert_eq!(err(&[ident(3), ident(3)], 3, rho, c), Error::LagrangeError);
    assert_eq!(err(&ids, 3, Err(Error::InvalidCommitment), c), Error::InvalidCommitment);
    assert_eq!(err(&ids, 3, rho, None), Error::InvalidCommitment);
    assert_eq!(err(&ids, 3, Ok([0xff; 32]), c), Error::InvalidResponse);
    assert_eq!(err(&ids, 3, rho, Some([0xff; 32])), Error::InvalidResponse);
    let mut big = [0u8; 32];
    big[2] = 1;
    assert_eq!(err(&[ident(1), big], 65536, rho, c), Error::InvalidIndex);

    // a package that cannot be read
    assert_eq!(
        inner_params_from_zf::<C>(b"no package", &[0u8; 32], 1).err().unwrap(),
        Error::InvalidCommitment
    );
}

/// The factor of an index is that of its identifier, and there is none without.
#[test]
fn a_factor_is_found_by_its_identifier() {
    let ident = |i: u8| {
        let mut b = [0u8; 32];
        b[0] = i;
        b
    };
    let factors = [([0xff; 32], [1; 32]), (ident(4), [2; 32]), (ident(7), [3; 32])];
    assert_eq!(find_factor(&factors, 7), Ok([3; 32]));
    assert_eq!(find_factor(&factors, 4), Ok([2; 32]));
    assert_eq!(find_factor(&factors, 5), Err(Error::InvalidIndex));
    assert_eq!(find_factor(&[], 1), Err(Error::InvalidIndex));
}
