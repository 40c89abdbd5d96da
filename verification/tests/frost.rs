//! FROST signing over ristretto255.
use std::collections::BTreeMap;

use curve25519_dalek::ristretto::RistrettoPoint;
use curve25519_dalek::scalar::Scalar;
use frostito::frost::{
    aggregate, commit, sign, verify_signature, Signature, SignatureShare, SigningPackage,
};
use frostito::{CurvePoint, Error, SecretShare};
use rand::rngs::OsRng;

fn shamir_split(secret: &Scalar, n: u32, t: u32) -> Vec<SecretShare<Scalar>> {
    let mut rng = OsRng;
    let mut coeffs = vec![*secret];
    for _ in 1..t {
        coeffs.push(Scalar::random(&mut rng));
    }
    (1..=n)
        .map(|i| {
            let x = Scalar::from(i);
            let mut y = Scalar::ZERO;
            let mut x_pow = Scalar::ONE;
            for coeff in &coeffs {
                y += coeff * x_pow;
                x_pow *= x;
            }
            SecretShare::new(i, y).expect("index is 1-indexed by construction")
        })
        .collect()
}

fn public_share(share: &SecretShare<Scalar>) -> RistrettoPoint {
    RistrettoPoint::generator().mul_scalar(share.scalar())
}

#[test]
fn test_frost_basic() {
    let mut rng = OsRng;

    let secret = Scalar::random(&mut rng);
    let group_pubkey: RistrettoPoint =
        RistrettoPoint::generator().mul_scalar(&secret);

    let n = 5u32;
    let t = 3u32;
    let shares = shamir_split(&secret, n, t);
    let message = b"the signed zcash transaction goes here";

    // round 1: each signer commits
    let mut all_nonces = Vec::new();
    let mut all_commitments = Vec::new();
    for share in &shares[0..t as usize] {
        let (nonces, commitments) = commit::<RistrettoPoint>(share.index, &mut rng).expect("index is 1-indexed by construction");
        all_nonces.push(nonces);
        all_commitments.push(commitments);
    }

    // build signing package
    let package =
        SigningPackage::new(message.to_vec(), all_commitments).unwrap();

    // round 2: each signer produces a share
    let mut sig_shares = Vec::new();
    for (share, nonces) in shares[0..t as usize]
        .iter()
        .zip(all_nonces)
    {
        let sig_share =
            sign::<RistrettoPoint>(&package, nonces, share, &group_pubkey)
                .unwrap();
        sig_shares.push(sig_share);
    }

    // aggregate without share verification
    let signature = aggregate::<RistrettoPoint>(
        &package,
        &sig_shares,
        &group_pubkey,
        None,
    )
    .unwrap();

    // verify
    assert!(
        verify_signature(&group_pubkey, message, &signature),
        "FROST signature should verify"
    );
}

#[test]
fn test_frost_with_share_verification() {
    let mut rng = OsRng;

    let secret = Scalar::random(&mut rng);
    let group_pubkey: RistrettoPoint =
        RistrettoPoint::generator().mul_scalar(&secret);

    let n = 7u32;
    let t = 4u32;
    let shares = shamir_split(&secret, n, t);
    let message = b"withdrawal tx bytes";

    // build verifier share map
    let mut vshares = BTreeMap::new();
    for s in &shares {
        vshares.insert(s.index, public_share(s));
    }

    // use non-consecutive signers: 1, 3, 5, 7
    let active: Vec<&SecretShare<Scalar>> =
        vec![&shares[0], &shares[2], &shares[4], &shares[6]];

    // round 1
    let mut nonces_vec = Vec::new();
    let mut commitments_vec = Vec::new();
    for s in &active {
        let (n, c) = commit::<RistrettoPoint>(s.index, &mut rng).expect("index is 1-indexed by construction");
        nonces_vec.push(n);
        commitments_vec.push(c);
    }

    let package =
        SigningPackage::new(message.to_vec(), commitments_vec).unwrap();

    // round 2
    let mut sig_shares = Vec::new();
    for (s, nonces) in active.iter().zip(nonces_vec) {
        sig_shares.push(
            sign::<RistrettoPoint>(&package, nonces, s, &group_pubkey)
                .unwrap(),
        );
    }

    // aggregate with verification
    let signature = aggregate::<RistrettoPoint>(
        &package,
        &sig_shares,
        &group_pubkey,
        Some(&vshares),
    )
    .unwrap();

    assert!(verify_signature(&group_pubkey, message, &signature));
}

#[test]
fn test_frost_wrong_message_fails() {
    let mut rng = OsRng;

    let secret = Scalar::random(&mut rng);
    let group_pubkey: RistrettoPoint =
        RistrettoPoint::generator().mul_scalar(&secret);

    let shares = shamir_split(&secret, 5, 3);
    let message = b"correct message";

    let mut nonces_vec = Vec::new();
    let mut commitments_vec = Vec::new();
    for s in &shares[0..3] {
        let (n, c) = commit::<RistrettoPoint>(s.index, &mut rng).expect("index is 1-indexed by construction");
        nonces_vec.push(n);
        commitments_vec.push(c);
    }

    let package =
        SigningPackage::new(message.to_vec(), commitments_vec).unwrap();

    let mut sig_shares = Vec::new();
    for (s, nonces) in shares[0..3].iter().zip(nonces_vec) {
        sig_shares.push(
            sign::<RistrettoPoint>(&package, nonces, s, &group_pubkey)
                .unwrap(),
        );
    }

    let signature =
        aggregate::<RistrettoPoint>(&package, &sig_shares, &group_pubkey, None)
            .unwrap();

    assert!(verify_signature(&group_pubkey, message, &signature));
    assert!(
        !verify_signature(&group_pubkey, b"wrong message", &signature),
        "wrong message should not verify"
    );
}

#[test]
fn test_frost_wrong_pubkey_fails() {
    let mut rng = OsRng;

    let secret = Scalar::random(&mut rng);
    let group_pubkey: RistrettoPoint =
        RistrettoPoint::generator().mul_scalar(&secret);

    let shares = shamir_split(&secret, 5, 3);
    let message = b"test";

    let mut nonces_vec = Vec::new();
    let mut commitments_vec = Vec::new();
    for s in &shares[0..3] {
        let (n, c) = commit::<RistrettoPoint>(s.index, &mut rng).expect("index is 1-indexed by construction");
        nonces_vec.push(n);
        commitments_vec.push(c);
    }

    let package =
        SigningPackage::new(message.to_vec(), commitments_vec).unwrap();

    let mut sig_shares = Vec::new();
    for (s, nonces) in shares[0..3].iter().zip(nonces_vec) {
        sig_shares.push(
            sign::<RistrettoPoint>(&package, nonces, s, &group_pubkey)
                .unwrap(),
        );
    }

    let signature =
        aggregate::<RistrettoPoint>(&package, &sig_shares, &group_pubkey, None)
            .unwrap();

    let wrong_pubkey: RistrettoPoint =
        RistrettoPoint::generator().mul_scalar(&Scalar::random(&mut rng));
    assert!(!verify_signature(&wrong_pubkey, message, &signature));
}

#[test]
fn test_frost_signature_serialization() {
    let mut rng = OsRng;

    let secret = Scalar::random(&mut rng);
    let group_pubkey: RistrettoPoint =
        RistrettoPoint::generator().mul_scalar(&secret);

    let shares = shamir_split(&secret, 3, 2);
    let message = b"roundtrip test";

    let mut nonces_vec = Vec::new();
    let mut commitments_vec = Vec::new();
    for s in &shares[0..2] {
        let (n, c) = commit::<RistrettoPoint>(s.index, &mut rng).expect("index is 1-indexed by construction");
        nonces_vec.push(n);
        commitments_vec.push(c);
    }

    let package =
        SigningPackage::new(message.to_vec(), commitments_vec).unwrap();

    let mut sig_shares = Vec::new();
    for (s, nonces) in shares[0..2].iter().zip(nonces_vec) {
        sig_shares.push(
            sign::<RistrettoPoint>(&package, nonces, s, &group_pubkey)
                .unwrap(),
        );
    }

    let signature =
        aggregate::<RistrettoPoint>(&package, &sig_shares, &group_pubkey, None)
            .unwrap();

    let bytes = signature.to_bytes();
    let recovered =
        Signature::<RistrettoPoint>::from_bytes(&bytes).unwrap();

    assert!(verify_signature(&group_pubkey, message, &recovered));
}

#[test]
fn test_frost_bad_share_detected() {
    let mut rng = OsRng;

    let secret = Scalar::random(&mut rng);
    let group_pubkey: RistrettoPoint =
        RistrettoPoint::generator().mul_scalar(&secret);

    let shares = shamir_split(&secret, 5, 3);

    let mut vshares = BTreeMap::new();
    for s in &shares {
        vshares.insert(s.index, public_share(s));
    }

    let message = b"detect misbehaver";

    let mut nonces_vec = Vec::new();
    let mut commitments_vec = Vec::new();
    for s in &shares[0..3] {
        let (n, c) = commit::<RistrettoPoint>(s.index, &mut rng).expect("index is 1-indexed by construction");
        nonces_vec.push(n);
        commitments_vec.push(c);
    }

    let package =
        SigningPackage::new(message.to_vec(), commitments_vec).unwrap();

    let mut sig_shares = Vec::new();
    for (s, nonces) in shares[0..3].iter().zip(nonces_vec) {
        sig_shares.push(
            sign::<RistrettoPoint>(&package, nonces, s, &group_pubkey)
                .unwrap(),
        );
    }

    // tamper with one share
    sig_shares[1] = SignatureShare {
        index: shares[1].index,
        response: Scalar::random(&mut rng),
    };

    let result = aggregate::<RistrettoPoint>(
        &package,
        &sig_shares,
        &group_pubkey,
        Some(&vshares),
    );
    assert!(
        matches!(result, Err(Error::InvalidResponse)),
        "tampered share should be detected"
    );
}

#[test]
fn test_frost_duplicate_commitments_rejected() {
    let mut rng = OsRng;
    let (_, c1) = commit::<RistrettoPoint>(1, &mut rng).expect("index is 1-indexed by construction");
    let (_, c2) = commit::<RistrettoPoint>(1, &mut rng).expect("index is 1-indexed by construction"); // same index
    let result =
        SigningPackage::<RistrettoPoint>::new(b"test".to_vec(), vec![c1, c2]);
    assert!(matches!(result, Err(Error::DuplicateIndex(1))));
}
