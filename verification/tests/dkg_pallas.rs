//! Distributed key generation over Pallas.
use frostito::dkg::{Aggregator, Dealer};
use frostito::frost;
use frostito::reshare::DealerCommitment;
use frostito::SecretShare;
use pasta_curves::pallas::{Point, Scalar};
use rand::rngs::OsRng;

/// Whether these shares sign a payload under the group key.
fn signs(group_key: &Point, signers: &[&SecretShare<Scalar>], payload: &[u8]) -> bool {
    let mut rng = OsRng;
    let mut nonces = Vec::new();
    let mut commitments = Vec::new();
    for s in signers {
        let (n, c) = frost::commit::<Point>(s.index, &mut rng).unwrap();
        nonces.push(n);
        commitments.push(c);
    }
    let package = frost::SigningPackage::new(payload.to_vec(), commitments).unwrap();
    let mut shares = Vec::new();
    for (s, n) in signers.iter().zip(nonces) {
        shares.push(frost::sign::<Point>(&package, n, s, group_key).unwrap());
    }
    let signature = frost::aggregate::<Point>(&package, &shares, group_key, None).unwrap();
    frost::verify_signature(group_key, payload, &signature)
}

#[test]
fn test_pallas_dkg() {
    let mut rng = OsRng;
    let n = 5u32;
    let t = 3u32;

    let dealers: Vec<Dealer<Point>> =
        (1..=n).map(|i| Dealer::new(i, t, &mut rng).expect("index is 1-indexed by construction")).collect();

    let commitments: Vec<&DealerCommitment<Point>> =
        dealers.iter().map(|d| d.commitment()).collect();

    let mut shares = Vec::new();
    let mut group_key = None;
    for j in 1..=n {
        let mut agg: Aggregator<Point> = Aggregator::all_dealers(j, n).unwrap();
        for dealer in &dealers {
            let subshare = dealer.generate_subshare(j).expect("index is 1-indexed by construction");
            agg.add_subshare(subshare, commitments[(dealer.index() - 1) as usize])
                .unwrap();
        }
        if group_key.is_none() {
            group_key = Some(agg.derive_group_key().unwrap());
        }
        shares.push(SecretShare::new(j, agg.finalize().unwrap()).expect("index is 1-indexed by construction"));
    }

    let group_key = group_key.unwrap();
    let payload = b"pallas dkg test";

    let signers: Vec<&SecretShare<Scalar>> = shares[0..t as usize].iter().collect();

    assert!(signs(&group_key, &signers, payload));
}
