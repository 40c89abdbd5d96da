//! FROST signing over Pallas.
use std::collections::BTreeMap;

use frostito::dkg;
use frostito::frost::{aggregate, commit, sign, verify_signature, SigningPackage};
use frostito::{CurvePoint, CurveScalar, SecretShare};
use pasta_curves::group::ff::Field;
use pasta_curves::pallas::{Point, Scalar};
use rand::rngs::OsRng;

fn shamir_split(secret: &Scalar, n: u32, t: u32) -> Vec<SecretShare<Scalar>> {
    let mut rng = OsRng;
    let mut coeffs = vec![*secret];
    for _ in 1..t {
        coeffs.push(<Scalar as CurveScalar>::random(&mut rng));
    }
    (1..=n)
        .map(|i| {
            let x = Scalar::from(i as u64);
            let mut y = Scalar::ZERO;
            let mut x_pow = Scalar::ONE;
            for coeff in &coeffs {
                y += coeff * x_pow;
                x_pow *= x;
            }
            SecretShare::new(i, y).expect("index is 1-indexed by construction")
        })
        .collect()
}

#[test]
fn test_pallas_frost() {
    let mut rng = OsRng;

    let secret = <Scalar as CurveScalar>::random(&mut rng);
    let group_pubkey: Point = <Point as CurvePoint>::generator().mul_scalar(&secret);

    let n = 5u32;
    let t = 3u32;
    let shares = shamir_split(&secret, n, t);
    let message = b"pallas frost withdrawal";

    // round 1
    let mut nonces_vec = Vec::new();
    let mut commitments_vec = Vec::new();
    for s in &shares[0..t as usize] {
        let (nonces, commitments) = commit::<Point>(s.index, &mut rng).expect("index is 1-indexed by construction");
        nonces_vec.push(nonces);
        commitments_vec.push(commitments);
    }

    let package =
        SigningPackage::new(message.to_vec(), commitments_vec).unwrap();

    // round 2
    let mut sig_shares = Vec::new();
    for (s, nonces) in shares[0..t as usize]
        .iter()
        .zip(nonces_vec)
    {
        sig_shares.push(
            sign::<Point>(&package, nonces, s, &group_pubkey).unwrap(),
        );
    }

    let signature =
        aggregate::<Point>(&package, &sig_shares, &group_pubkey, None)
            .unwrap();

    assert!(verify_signature(&group_pubkey, message, &signature));
}

#[test]
fn test_pallas_frost_with_dkg() {
    let mut rng = OsRng;
    let n = 5u32;
    let t = 3u32;

    // DKG
    let dealers: Vec<dkg::Dealer<Point>> =
        (1..=n).map(|i| dkg::Dealer::new(i, t, &mut rng).expect("index is 1-indexed by construction")).collect();

    let commitments: Vec<&frostito::reshare::DealerCommitment<Point>> =
        dealers.iter().map(|d| d.commitment()).collect();

    let mut secret_shares = Vec::new();
    let mut group_key = None;
    let mut vshares = BTreeMap::new();

    for j in 1..=n {
        let mut agg: dkg::Aggregator<Point> = dkg::Aggregator::all_dealers(j, n).unwrap();
        for dealer in &dealers {
            let subshare = dealer.generate_subshare(j).expect("index is 1-indexed by construction");
            agg.add_subshare(subshare, commitments[(dealer.index() - 1) as usize])
                .unwrap();
        }
        let share_scalar = agg.finalize().unwrap();
        if group_key.is_none() {
            group_key = Some(agg.derive_group_key().unwrap());
        }
        let ss = SecretShare::new(j, share_scalar).expect("index is 1-indexed by construction");
        vshares.insert(j, <Point as CurvePoint>::generator().mul_scalar(ss.scalar()));
        secret_shares.push(ss);
    }

    let group_key = group_key.unwrap();
    let message = b"dkg + frost integration test";

    // FROST sign with 3 of 5
    let active = &secret_shares[0..t as usize];

    let mut nonces_vec = Vec::new();
    let mut commitments_vec = Vec::new();
    for s in active {
        let (n, c) = commit::<Point>(s.index, &mut rng).expect("index is 1-indexed by construction");
        nonces_vec.push(n);
        commitments_vec.push(c);
    }

    let package =
        SigningPackage::new(message.to_vec(), commitments_vec).unwrap();

    let mut sig_shares = Vec::new();
    for (s, nonces) in active.iter().zip(nonces_vec) {
        sig_shares.push(
            sign::<Point>(&package, nonces, s, &group_key).unwrap(),
        );
    }

    // aggregate with share verification
    let signature = aggregate::<Point>(
        &package,
        &sig_shares,
        &group_key,
        Some(&vshares),
    )
    .unwrap();

    assert!(
        verify_signature(&group_key, message, &signature),
        "DKG + FROST should produce valid signature"
    );
}
