//! Canonical point encodings, on every backend.
use std::collections::BTreeMap;

use frost_core::keys::VerifyingShare;
use frost_core::round1::{NonceCommitment, SigningCommitments};
use frost_core::{compute_binding_factor_list, Identifier, SigningPackage, VerifyingKey};
use frost_secp256k1::Secp256K1Sha256 as C;
use frostito::curve::pallas::SpendAuthPoint;
use frostito::{frost, OsstPoint, OsstScalar};
use rand::rngs::OsRng;

fn rand_point<P: OsstPoint>(rng: &mut OsRng) -> P {
    let s = <P::Scalar as OsstScalar>::random(rng);
    P::generator().mul_scalar(&s)
}

/// Decompressing a compressed point gives it back.
fn round_trips<P: OsstPoint>(size: usize) {
    let mut rng = OsRng;
    for _ in 0..128 {
        let p: P = rand_point(&mut rng);
        let bytes = p.compress_vec();
        assert_eq!(bytes.len(), size);
        assert_eq!(P::COMPRESSED_SIZE, size);
        assert_eq!(P::decompress(&bytes).expect("decompresses"), p);
    }
}

/// The encoding separates a point from its negation.
fn separates_signs<P: OsstPoint>() {
    let mut rng = OsRng;
    for _ in 0..128 {
        let s = <P::Scalar as OsstScalar>::random(&mut rng);
        let p = P::generator().mul_scalar(&s);
        let neg = P::generator().mul_scalar(&s.neg());
        assert_ne!(p, neg, "P and -P are different points");
        assert!(!p.equals(&neg));
        assert_ne!(p.compress_vec(), neg.compress_vec());
        assert!(p.add(&neg).equals(&P::identity()));
    }
}

/// The identity survives the round trip like any other point.
fn identity_round_trips<P: OsstPoint>(size: usize) {
    let id = P::identity();
    let bytes = id.compress_vec();
    assert_eq!(bytes.len(), size);
    assert_eq!(P::decompress(&bytes).expect("decompresses"), id);
}

/// A short slice, a long slice and an empty one are refused.
fn refuses_other_lengths<P: OsstPoint>() {
    let mut rng = OsRng;
    let p: P = rand_point(&mut rng);
    let b = p.compress_vec();
    assert!(P::decompress(&b[..b.len() - 1]).is_none());
    let mut long = b.clone();
    long.push(0);
    assert!(P::decompress(&long).is_none());
    assert!(P::decompress(&[]).is_none());
}

/// Scalars: arithmetic modulo the order, canonical encodings, wide reduction.
fn scalar_arithmetic<S: OsstScalar>(little_endian: bool) {
    let mut rng = OsRng;
    let one = S::one();
    let zero = S::zero();
    let seven = S::from_u32(7);
    let five = S::from_u32(5);
    assert_eq!(seven.add(&five), S::from_u32(12));
    assert_eq!(seven.sub(&five), S::from_u32(2));
    assert_eq!(five.sub(&seven), S::from_u32(2).neg());
    assert_eq!(seven.mul(&five), S::from_u32(35));
    assert!(seven.invert().mul(&seven).equals(&one));
    assert_eq!(zero.invert(), zero, "zero for zero");
    for _ in 0..16 {
        let a = S::random(&mut rng);
        assert_eq!(a.add(&a.neg()), zero);
        let bytes = a.to_bytes();
        assert_eq!(S::from_canonical_bytes(&bytes), Some(a));
    }
    assert_eq!(S::from_canonical_bytes(&[0xff; 32]), None, "not a residue");

    // the encoding of 258 and the wide reduction of 2^256 + 258
    let v = S::from_u32(258).to_bytes();
    let (low, high) = if little_endian { (v[0], v[1]) } else { (v[31], v[30]) };
    assert_eq!((low, high), (2, 1));
    let mut wide = [0u8; 64];
    if little_endian {
        wide[0] = 2;
        wide[1] = 1;
        wide[32] = 1;
    } else {
        wide[63] = 2;
        wide[62] = 1;
        wide[31] = 1;
    }
    let two_16 = S::from_u32(1 << 16);
    let mut two_256 = one;
    for _ in 0..16 {
        two_256 = two_256.mul(&two_16);
    }
    assert_eq!(S::from_bytes_wide(&wide), two_256.add(&S::from_u32(258)));

    let mut gone = S::random(&mut rng);
    gone.zeroize();
    assert_eq!(gone, zero);
}

/// Points: the group operations agree with those of the scalars.
fn group_arithmetic<P: OsstPoint>() {
    let mut rng = OsRng;
    let g = P::generator();
    let a = <P::Scalar as OsstScalar>::random(&mut rng);
    let b = <P::Scalar as OsstScalar>::random(&mut rng);
    assert!(g.mul_scalar(&a).add(&g.mul_scalar(&b)).equals(&g.mul_scalar(&a.add(&b))));
    assert!(g.mul_scalar(&a).mul_scalar(&b).equals(&g.mul_scalar(&a.mul(&b))));
    assert!(g.add(&P::identity()).equals(&g));
    let points = [g.mul_scalar(&a), g.mul_scalar(&b), g];
    let three = <P::Scalar as OsstScalar>::from_u32(3);
    let scalars = [b, a, three];
    let expected = a.mul(&b).add(&b.mul(&a)).add(&three);
    assert!(P::multiscalar_mul(&scalars, &points).equals(&g.mul_scalar(&expected)));
}

#[test]
fn compress_decompress_round_trips_ristretto255() {
    round_trips::<curve25519_dalek::ristretto::RistrettoPoint>(32);
}

#[test]
fn compress_is_injective_in_the_sign_ristretto255() {
    separates_signs::<curve25519_dalek::ristretto::RistrettoPoint>();
}

#[test]
fn the_identity_round_trips_ristretto255() {
    identity_round_trips::<curve25519_dalek::ristretto::RistrettoPoint>(32);
}

#[test]
fn non_canonical_encodings_are_rejected_ristretto255() {
    refuses_other_lengths::<curve25519_dalek::ristretto::RistrettoPoint>();
}

#[test]
fn the_group_operations_agree_ristretto255() {
    group_arithmetic::<curve25519_dalek::ristretto::RistrettoPoint>();
}

#[test]
fn scalars_are_residues_ristretto255() {
    scalar_arithmetic::<curve25519_dalek::scalar::Scalar>(true);
}

#[test]
fn compress_decompress_round_trips_secp256k1() {
    round_trips::<k256::ProjectivePoint>(33);
}

#[test]
fn compress_is_injective_in_the_sign_secp256k1() {
    separates_signs::<k256::ProjectivePoint>();
}

#[test]
fn the_identity_round_trips_secp256k1() {
    identity_round_trips::<k256::ProjectivePoint>(33);
}

#[test]
fn non_canonical_encodings_are_rejected_secp256k1() {
    refuses_other_lengths::<k256::ProjectivePoint>();
}

#[test]
fn the_group_operations_agree_secp256k1() {
    group_arithmetic::<k256::ProjectivePoint>();
}

#[test]
fn scalars_are_residues_secp256k1() {
    scalar_arithmetic::<k256::Scalar>(false);
}

#[test]
fn compress_decompress_round_trips_pallas() {
    round_trips::<pasta_curves::pallas::Point>(32);
}

#[test]
fn compress_is_injective_in_the_sign_pallas() {
    separates_signs::<pasta_curves::pallas::Point>();
}

#[test]
fn the_identity_round_trips_pallas() {
    identity_round_trips::<pasta_curves::pallas::Point>(32);
}

#[test]
fn non_canonical_encodings_are_rejected_pallas() {
    refuses_other_lengths::<pasta_curves::pallas::Point>();
}

#[test]
fn the_group_operations_agree_pallas() {
    group_arithmetic::<pasta_curves::pallas::Point>();
}

#[test]
fn scalars_are_residues_pallas() {
    scalar_arithmetic::<pasta_curves::pallas::Scalar>(true);
}

#[test]
fn compress_decompress_round_trips_orchard_spend_auth() {
    round_trips::<SpendAuthPoint>(32);
}

#[test]
fn compress_is_injective_in_the_sign_orchard_spend_auth() {
    separates_signs::<SpendAuthPoint>();
}

#[test]
fn the_identity_round_trips_orchard_spend_auth() {
    identity_round_trips::<SpendAuthPoint>(32);
}

#[test]
fn non_canonical_encodings_are_rejected_orchard_spend_auth() {
    refuses_other_lengths::<SpendAuthPoint>();
}

#[test]
fn the_group_operations_agree_orchard_spend_auth() {
    group_arithmetic::<SpendAuthPoint>();
}

#[test]
fn compress_decompress_round_trips_decaf377() {
    round_trips::<decaf377::Element>(32);
}

#[test]
fn compress_is_injective_in_the_sign_decaf377() {
    separates_signs::<decaf377::Element>();
}

#[test]
fn the_identity_round_trips_decaf377() {
    identity_round_trips::<decaf377::Element>(32);
}

#[test]
fn non_canonical_encodings_are_rejected_decaf377() {
    refuses_other_lengths::<decaf377::Element>();
}

#[test]
fn the_group_operations_agree_decaf377() {
    group_arithmetic::<decaf377::Element>();
}

#[test]
fn scalars_are_residues_decaf377() {
    scalar_arithmetic::<decaf377::Fr>(true);
}

/// The identity of secp256k1 is thirty-three zeros, and a prefix other than two
/// or three is refused, the compact one of SEC1 among them.
#[test]
fn identity_compresses_to_the_zero_encoding() {
    type P = k256::ProjectivePoint;
    assert_eq!(OsstPoint::compress(&<P as OsstPoint>::identity()), [0u8; 33]);
    let g = OsstPoint::compress(&<P as OsstPoint>::generator());
    assert_eq!(g[0], 2);
    assert_eq!(&g[1..5], &[0x79, 0xbe, 0x66, 0x7e]);
    for prefix in [0u8, 1, 4, 5, 6, 255] {
        let mut other = g;
        other[0] = prefix;
        assert!(<P as OsstPoint>::decompress(&other).is_none());
    }
    // an x-coordinate that is not on the curve
    let mut off = [0u8; 33];
    off[0] = 2;
    off[32] = 5;
    assert!(<P as OsstPoint>::decompress(&off).is_none());
}

/// The spend-auth basepoint is its published encoding, and its multiples are
/// Pallas points.
#[test]
fn the_spend_auth_group_has_its_own_basepoint() {
    let base = SpendAuthPoint::basepoint();
    assert_eq!(
        OsstPoint::compress(&base),
        frostito::curve::pallas::ORCHARD_SPENDAUTHSIG_BASEPOINT_BYTES
    );
    let three = <pasta_curves::pallas::Scalar as OsstScalar>::from_u32(3);
    assert_eq!(
        *OsstPoint::mul_scalar(&base, &three).inner(),
        OsstPoint::mul_scalar(base.inner(), &three)
    );
}

/// Two commitment sets that differ only by a negation have different binding
/// factors.
#[test]
fn negating_a_commitment_moves_the_binding_factor() {
    type Point = k256::ProjectivePoint;
    type Scalar = k256::Scalar;
    let mut rng = OsRng;
    let d = <Scalar as OsstScalar>::random(&mut rng);
    let e = <Scalar as OsstScalar>::random(&mut rng);
    let g = <Point as OsstPoint>::generator();
    let id: Identifier<C> = 1u16.try_into().unwrap();

    let commitments = |hiding: Point| {
        let mut m = BTreeMap::new();
        m.insert(
            id,
            SigningCommitments::<C>::new(
                NonceCommitment::new(hiding),
                NonceCommitment::new(g.mul_scalar(&e)),
            ),
        );
        m
    };

    let key = g.mul_scalar(&<Scalar as OsstScalar>::random(&mut rng));
    let y = VerifyingKey::<C>::new(key);
    let _ = VerifyingShare::<C>::new(g);

    let a = SigningPackage::new(commitments(g.mul_scalar(&d)), b"m");
    let b = SigningPackage::new(commitments(g.mul_scalar(&OsstScalar::neg(&d))), b"m");

    let fa = compute_binding_factor_list::<C>(&a, &y, &[]).unwrap();
    let fb = compute_binding_factor_list::<C>(&b, &y, &[]).unwrap();
    assert_ne!(
        fa.get(&id).unwrap().serialize(),
        fb.get(&id).unwrap().serialize(),
        "a sign flip in the commitment set must move the binding factor"
    );

    // and so in the packages of this library
    let package = |hiding: Point| {
        let c = frost::SigningCommitments { index: 1, hiding, binding: g.mul_scalar(&e) };
        frost::SigningPackage::<Point>::new(b"m".to_vec(), vec![c]).unwrap()
    };
    assert_ne!(
        package(g.mul_scalar(&d)).binding_factor(1, &key),
        package(g.mul_scalar(&OsstScalar::neg(&d))).binding_factor(1, &key)
    );
}
